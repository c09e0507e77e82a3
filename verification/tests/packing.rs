use puzzles::packing::{transformation, Grid, Input, Region, Solver, Transformation, Transformer};
use puzzles::presents::LoadError;

fn grid(rows: &[&str]) -> Grid {
    Grid {
        data: rows.iter().flat_map(|r| r.chars()).map(|c| if c == '.' { ' ' } else { c }).collect(),
        width: rows[0].len(),
        height: rows.len(),
    }
}

fn lines(rows: &[&str]) -> Vec<Vec<u8>> {
    rows.iter().map(|r| r.as_bytes().to_vec()).collect()
}

#[test]
fn packing_grid_cells() {
    let mut g = Grid::new(3, 2);
    assert_eq!(g.data, vec![' '; 6]);
    assert_eq!(g.index(2, 1), 5);
    g.set(2, 1, '#');
    g.set(3, 0, '#');
    g.set(0, 2, '#');
    assert_eq!(g.get(2, 1), Some('#'));
    assert_eq!(g.get(0, 0), Some(' '));
    assert_eq!(g.get(3, 0), None);
    assert_eq!(g.get(0, 2), None);
    g.set(0, 0, 'x');
    assert_eq!(g.filled_cells(), vec![(0, 0), (2, 1)]);
    assert!(g.same(&g.copy()));
    assert_eq!(g.clone(), g);
    assert_ne!(g, Grid::new(3, 2));
}

#[test]
fn shapes_are_turned_and_flipped() {
    let l = grid(&["#.", "##", "#."]);
    let turned = Transformation { swap_xy: true, invert_x: false, invert_y: true }.apply(&l);
    assert_eq!(turned.width, 3);
    assert_eq!(turned.height, 2);
    assert_eq!(turned.data, "### # ".chars().collect::<Vec<char>>());
    let same = transformation(0).apply(&l);
    assert!(same.same(&l));
    let flipped = transformation(4).apply(&l);
    assert_eq!(flipped.data, " ### #".chars().collect::<Vec<char>>());
    let transformer = Transformer::new(&vec![l, grid(&["##", "##"])]);
    assert_eq!(transformer.variants(0).len(), 4);
    assert_eq!(transformer.variants(1).len(), 1);
    assert_eq!(transformer.filled_count(0), 4);
    assert_eq!(transformer.filled_count(1), 4);
}

#[test]
fn presents_fit_or_not() {
    let transformer = Transformer::new(&vec![grid(&["##"])]);
    let fits = |w: usize, h: usize, n: usize| {
        let region = Region { width: w, height: h, shape_quantities: vec![n] };
        Solver { region: &region, transforms: &transformer }.can_fit()
    };
    assert!(fits(2, 1, 1));
    assert!(fits(1, 2, 1));
    assert!(!fits(1, 1, 1));
    assert!(fits(2, 2, 2));
    assert!(!fits(2, 2, 3));
    assert!(fits(3, 1, 1));
    assert!(!fits(3, 1, 2));
    assert!(fits(3, 3, 4));
    assert!(fits(0, 0, 0));
    assert!(fits(5, 5, 0));
}

#[test]
fn search_leaves_the_grid_as_it_was_when_nothing_fits() {
    let transformer = Transformer::new(&vec![grid(&["###"])]);
    let region = Region { width: 2, height: 2, shape_quantities: vec![1] };
    let solver = Solver { region: &region, transforms: &transformer };
    let mut g = Grid::new(2, 2);
    let mut remaining = vec![1usize];
    assert!(!solver.can_fit_grid(&mut g, &mut remaining, 1, 0));
    assert_eq!(g.data, vec![' '; 4]);
    assert_eq!(remaining, vec![1]);
    assert_eq!(solver.first_empty_cell(&g), Some((0, 0)));
    g.set(0, 0, '#');
    assert_eq!(solver.first_empty_cell(&g), Some((1, 0)));
    let domino = Transformer::new(&vec![grid(&["##"])]);
    let variant = &domino.variants(0)[0];
    assert!(!solver.can_place_at(&g, variant, 0, 0));
    assert!(solver.can_place_at(&g, variant, 0, 1));
    solver.place_at(&mut g, variant, 0, 1, '#');
    assert_eq!(g.data, vec!['#', ' ', '#', '#']);
}

#[test]
fn puzzle_is_read_and_counted() {
    let input = Input::from_lines(&lines(&["0:", "##", "", "1:", "#.", "##", "", "2x1: 1 0", "1x1: 1 0", "2x2: 0 1", "3x2: 1 1"])).unwrap();
    assert_eq!(input.shapes.len(), 2);
    assert_eq!(input.shapes[1].data, vec!['#', ' ', '#', '#']);
    assert_eq!(input.regions.len(), 4);
    assert_eq!(input.regions[3].shape_quantities, vec![1, 1]);
    assert_eq!(input.count(), 3);
}

#[test]
fn puzzle_that_is_no_puzzle_is_refused() {
    let err = |rows: &[&str]| Input::from_lines(&lines(rows)).err();
    assert_eq!(err(&["hello"]), Some(LoadError::UnexpectedLine));
    assert_eq!(err(&["1:", "#"]), Some(LoadError::ShapeIdMismatch));
    assert_eq!(err(&["0:"]), Some(LoadError::EmptyGrid));
    assert_eq!(err(&["0:", "", "#"]), Some(LoadError::EmptyGrid));
    assert_eq!(err(&["0:", "##", "#"]), Some(LoadError::RaggedGrid));
    assert_eq!(err(&["99999999999999999999999:"]), Some(LoadError::ShapeId));
    assert_eq!(err(&["99999999999999999999999x1: 1"]), Some(LoadError::Width));
    assert_eq!(err(&["1x99999999999999999999999: 1"]), Some(LoadError::Height));
    assert_eq!(err(&["1x1: 99999999999999999999999"]), Some(LoadError::Quantity));
    assert!(Input::from_lines(&lines(&[])).is_ok());
}
