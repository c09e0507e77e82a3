use puzzles::circuits::{
    build_connections, calculate_pairwise_distances, connect, count_top_three_product, find,
    find_final_connection, singletons, union, ParsePointError, Point,
};
use puzzles::floor;
use puzzles::paths::{Input, PathError, Server};
use puzzles::tiles;
use std::cmp::Ordering;

fn point(x: i64) -> Point {
    Point { x, y: 0, z: 0 }
}

#[test]
fn distances_are_squared_and_sorted() {
    assert_eq!(Point { x: 1, y: 2, z: 3 }.distance_to(&Point { x: 4, y: 6, z: 3 }), 25);
    let points = vec![point(0), point(1), point(10), point(11)];
    assert_eq!(
        calculate_pairwise_distances(&points),
        vec![(0, 1, 1), (2, 3, 1), (1, 2, 81), (0, 2, 100), (1, 3, 100), (0, 3, 121)],
    );
    assert_eq!(calculate_pairwise_distances(&vec![point(0)]), vec![]);
    assert_eq!(calculate_pairwise_distances(&vec![]), vec![]);
}

#[test]
fn circuits_are_joined() {
    let points = vec![point(0), point(1), point(10), point(11)];
    let distances = calculate_pairwise_distances(&points);
    let mut connections = build_connections(4, &distances, 2);
    assert_eq!(connections, vec![0, 0, 2, 2]);
    assert_eq!(find(&mut connections, 3), 2);
    assert_eq!(count_top_three_product(&mut connections), 0);
    let mut all = build_connections(4, &distances, 1000);
    assert_eq!(find(&mut all, 3), find(&mut all, 0));
    assert_eq!(count_top_three_product(&mut all), 0);
    let mut three = vec![0usize, 0, 2, 2, 2, 5, 5, 5, 5];
    assert_eq!(count_top_three_product(&mut three), 4 * 3 * 2);
    let mut one = vec![0usize];
    assert_eq!(count_top_three_product(&mut one), 1);
    let mut two = vec![0usize, 1];
    assert_eq!(count_top_three_product(&mut two), 1);
    let pair = find_final_connection(&points, &distances).unwrap();
    assert_eq!(pair, (point(1), point(10)));
    assert_eq!(find_final_connection(&points, &vec![(0, 1, 1)]), None);
    assert_eq!(find_final_connection(&vec![point(0)], &vec![]), None);
}

#[test]
fn boxes_are_found_and_joined() {
    let mut boxes = singletons(4);
    assert_eq!(boxes, vec![0, 1, 2, 3]);
    union(&mut boxes, 1, 2);
    assert_eq!(boxes, vec![0, 1, 1, 3]);
    union(&mut boxes, 3, 2);
    assert_eq!(boxes, vec![0, 3, 1, 3]);
    assert_eq!(find(&mut boxes, 2), 3);
    assert_eq!(boxes, vec![0, 3, 3, 3]);
    assert!(!connect(&mut boxes, 1, 2));
    assert!(connect(&mut boxes, 0, 2));
    assert_eq!(find(&mut boxes, 3), 0);
}

#[test]
fn points_are_read_from_lines() {
    assert_eq!(Point::from_str(&b"1,-2,+3".to_vec()), Ok(Point { x: 1, y: -2, z: 3 }));
    assert_eq!(Point::from_str(&b"1,2".to_vec()), Err(ParsePointError::WrongFieldCount));
    assert_eq!(Point::from_str(&b"1,2,x".to_vec()), Err(ParsePointError::InvalidNumber));
    assert_eq!(
        Point::from_str(&b"-9223372036854775808,9223372036854775807,0".to_vec()),
        Ok(Point { x: i64::MIN, y: i64::MAX, z: 0 })
    );
    assert_eq!(Point::from_str(&b"9223372036854775808,0,0".to_vec()), Err(ParsePointError::InvalidNumber));
    assert_eq!(tiles::Point::from_str(&b"7,1".to_vec()), Ok(tiles::Point { x: 7, y: 1 }));
    assert_eq!(tiles::Point::from_str(&b"7".to_vec()), Err(tiles::ParsePointError::WrongFieldCount));
    assert_eq!(tiles::Point::from_str(&b"7,-1".to_vec()), Err(tiles::ParsePointError::InvalidNumber));
}

#[test]
fn largest_rectangle_between_tiles() {
    let mut points = vec![tiles::Point { x: 4, y: 3 }, tiles::Point { x: 0, y: 0 }];
    assert_eq!(floor::largest_area(&mut points), 20);
    assert_eq!(points, vec![tiles::Point { x: 0, y: 0 }, tiles::Point { x: 4, y: 3 }]);
    let mut points = vec![tiles::Point { x: 4, y: 0 }, tiles::Point { x: 0, y: 3 }];
    assert_eq!(floor::largest_area(&mut points), 0);
    let mut points = vec![
        tiles::Point { x: 7, y: 1 },
        tiles::Point { x: 11, y: 1 },
        tiles::Point { x: 11, y: 7 },
        tiles::Point { x: 9, y: 7 },
        tiles::Point { x: 9, y: 5 },
        tiles::Point { x: 2, y: 5 },
        tiles::Point { x: 2, y: 3 },
        tiles::Point { x: 7, y: 3 },
    ];
    assert_eq!(floor::largest_area(&mut points), 50);
}

#[test]
fn sides_are_compared() {
    let e = |sx, sy, ex, ey| tiles::Edge { s: tiles::Point { x: sx, y: sy }, e: tiles::Point { x: ex, y: ey } };
    assert_eq!(tiles::compare_horizontal(&e(5, 1, 2, 1), &e(3, 1, 9, 1)), Ordering::Less);
    assert_eq!(tiles::compare_horizontal(&e(5, 2, 2, 2), &e(3, 1, 9, 1)), Ordering::Greater);
    assert_eq!(tiles::compare_horizontal(&e(5, 1, 2, 1), &e(2, 1, 9, 1)), Ordering::Equal);
    assert_eq!(tiles::compare_vertical(&e(1, 5, 1, 2), &e(1, 3, 1, 9)), Ordering::Less);
    assert_eq!(tiles::compare_vertical(&e(2, 5, 2, 2), &e(1, 3, 1, 9)), Ordering::Greater);
    assert!(tiles::overlaps(0, 5, 4, 9));
    assert!(!tiles::overlaps(0, 5, 5, 9));
    assert!(!tiles::overlaps(5, 9, 0, 5));
    assert_eq!(tiles::lower_bound(&vec![1, 3, 5, 7], |v: &i32| *v < 5), 2);
    assert_eq!(tiles::lower_bound(&vec![1, 3, 5, 7], |v: &i32| *v < 0), 0);
    assert_eq!(tiles::lower_bound(&vec![1, 3, 5, 7], |v: &i32| *v < 9), 4);
    assert_eq!(tiles::lower_bound(&Vec::<i32>::new(), |v: &i32| *v < 9), 0);
}

#[test]
fn largest_rectangle_within_the_loop() {
    let p = |x, y| tiles::Point { x, y };
    let square = vec![p(0, 0), p(4, 0), p(4, 3), p(0, 3)];
    let solver = tiles::Solver::new(&square);
    assert_eq!(solver.h_edges, vec![0, 2]);
    assert_eq!(solver.v_edges, vec![3, 1]);
    assert_eq!(solver.left_edges, vec![2]);
    assert_eq!(solver.right_edges, vec![0]);
    assert_eq!(solver.up_edges, vec![3]);
    assert_eq!(solver.down_edges, vec![1]);
    assert_eq!(solver.solve(), 20);
    let shape = vec![p(7, 1), p(11, 1), p(11, 7), p(9, 7), p(9, 5), p(2, 5), p(2, 3), p(7, 3)];
    let solver = tiles::Solver::new(&shape);
    assert_eq!(solver.solve(), 24);
    assert!(solver.horizontal_cross(2, 9, 1, 5));
    assert!(!solver.horizontal_cross(2, 9, 3, 5));
    assert!(solver.vertical_cross(2, 11, 1, 3));
}

#[test]
fn paths_are_counted() {
    let lines = ["you: a b", "a: out", "b: a out"];
    let servers: Vec<Server> = lines.iter().map(|l| Server::from_str(&l.as_bytes().to_vec()).unwrap()).collect();
    assert_eq!(servers[0].name, b"you".to_vec());
    assert_eq!(servers[2].connections, vec![b"a".to_vec(), b"out".to_vec()]);
    let input = Input { servers };
    let start = input.lookup(&b"you".to_vec()).unwrap();
    let mut cache = vec![None; 3];
    assert_eq!(input.count_paths(start, &mut cache), Ok(3));
    assert_eq!(cache, vec![Some(3), Some(1), Some(2)]);
    assert_eq!(input.lookup(&b"nobody".to_vec()), None);
    assert!(Server::from_str(&b"no colon".to_vec()).is_err());
}

#[test]
fn paths_through_both_marks_are_counted() {
    let lines = ["svr: fft x", "fft: dac out", "dac: out", "x: dac"];
    let servers: Vec<Server> = lines.iter().map(|l| Server::from_str(&l.as_bytes().to_vec()).unwrap()).collect();
    let input = Input { servers };
    let mut cache = vec![None; 16];
    assert_eq!(input.count_marked_paths(0, 0, &mut cache), Ok(1));
    let broken = Input { servers: vec![Server::from_str(&b"svr: gone".to_vec()).unwrap()] };
    let mut cache = vec![None; 4];
    assert_eq!(broken.count_marked_paths(0, 0, &mut cache), Err(PathError::Unknown));
    let mut cache = vec![None; 1];
    assert_eq!(broken.count_paths(0, &mut cache), Err(PathError::Unknown));
}

#[test]
fn paths_that_do_not_fit() {
    let mut servers = Vec::new();
    for i in 0..64 {
        servers.push(Server::from_str(&format!("n{}: n{} n{}", i, i + 1, i + 1).into_bytes()).unwrap());
    }
    servers.push(Server::from_str(&b"n64: out".to_vec()).unwrap());
    let input = Input { servers };
    let mut cache = vec![None; 65];
    assert_eq!(input.count_paths(1, &mut cache), Ok(1u64 << 63));
    assert_eq!(input.count_paths(0, &mut cache), Err(PathError::Overflow));
}

#[test]
fn ranks_show_that_no_path_leads_back() {
    let lines = ["you: a b", "a: out", "b: a out"];
    let servers: Vec<Server> = lines.iter().map(|l| Server::from_str(&l.as_bytes().to_vec()).unwrap()).collect();
    let input = Input { servers };
    assert!(input.has_ranks(&vec![2, 0, 1]));
    assert!(!input.has_ranks(&vec![2, 1, 0]));
    assert!(!input.has_ranks(&vec![2, 0]));
    let circle = Input {
        servers: vec![Server::from_str(&b"a: b".to_vec()).unwrap(), Server::from_str(&b"b: a".to_vec()).unwrap()],
    };
    assert!(!circle.has_ranks(&vec![0, 1]));
    assert!(!circle.has_ranks(&vec![1, 0]));
    assert!(!circle.has_ranks(&vec![0, 0]));
}
