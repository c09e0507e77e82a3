use puzzles::solver::Solver;
use puzzles::system::{
    build_system_from_buttons, buttons_from_system, extract_trivial_solutions, find_reducible,
    has_single_entry, is_reducing_partner, simplify, subtract_row,
};

#[test]
fn system_is_the_transpose_of_the_buttons() {
    let (m, rhs) = build_system_from_buttons(vec![vec![1, 0, 1], vec![0, 1, 1]], vec![4, 5, 6]);
    assert_eq!(m, vec![vec![1, 0], vec![0, 1], vec![1, 1]]);
    assert_eq!(rhs, vec![4, 5, 6]);
    let (m, rhs) = build_system_from_buttons(vec![], vec![1, 2]);
    assert_eq!(m, vec![Vec::<u32>::new(), Vec::<u32>::new()]);
    assert_eq!(rhs, vec![1, 2]);
}

#[test]
fn simplifier_takes_rows_from_rows() {
    let (m, rhs) = simplify(vec![vec![1, 0], vec![0, 1], vec![1, 1]], vec![4, 5, 9]);
    assert_eq!(m, vec![vec![1, 0], vec![0, 0], vec![0, 1]]);
    assert_eq!(rhs, vec![4, 0, 5]);
    let (m, rhs) = simplify(vec![vec![1, 1], vec![1, 0]], vec![9, 4]);
    assert_eq!(m, vec![vec![0, 1], vec![1, 0]]);
    assert_eq!(rhs, vec![5, 4]);
}

#[test]
fn simplifier_keeps_a_row_with_a_smaller_right_hand_side() {
    let (m, rhs) = simplify(vec![vec![1, 0], vec![1, 1]], vec![3, 2]);
    assert_eq!(m, vec![vec![1, 0], vec![1, 1]]);
    assert_eq!(rhs, vec![3, 2]);
}

#[test]
fn simplifier_is_idempotent() {
    let systems = vec![
        (vec![vec![1, 1, 0], vec![1, 0, 0], vec![1, 1, 1], vec![0, 0, 1]], vec![7, 3, 9, 2]),
        (vec![vec![1, 0], vec![1, 0], vec![0, 1]], vec![2, 2, 1]),
        (vec![vec![0, 0], vec![1, 1]], vec![0, 3]),
        (vec![], vec![]),
    ];
    for (m, rhs) in systems {
        let (m1, rhs1) = simplify(m, rhs);
        let (m2, rhs2) = simplify(m1.clone(), rhs1.clone());
        assert_eq!(m1, m2);
        assert_eq!(rhs1, rhs2);
        assert_eq!(find_reducible(&m1, &rhs1), None);
    }
}

#[test]
fn simplifier_keeps_the_optimum() {
    let buttons = vec![vec![1, 1, 0], vec![0, 1, 1], vec![1, 0, 1], vec![1, 1, 1]];
    for target in [vec![3, 3, 2], vec![4, 4, 4], vec![2, 5, 3], vec![1, 0, 0]] {
        let before = Solver::new(target.clone(), buttons.clone()).solve();
        let (m, rhs) = build_system_from_buttons(buttons.clone(), target.clone());
        let (m, rhs) = simplify(m, rhs);
        let columns: Vec<Vec<u32>> = (0..buttons.len()).map(|k| m.iter().map(|row| row[k]).collect()).collect();
        let after = Solver::new(rhs, columns).solve();
        assert_eq!(before, after);
    }
}

#[test]
fn reducing_partner_and_first_pair() {
    let m = vec![vec![1, 1], vec![0, 1], vec![0, 0]];
    let rhs = vec![5, 2, 0];
    assert!(is_reducing_partner(&m, &rhs, 0, 1));
    assert!(!is_reducing_partner(&m, &rhs, 1, 0));
    assert!(!is_reducing_partner(&m, &rhs, 0, 2));
    assert!(!is_reducing_partner(&m, &rhs, 0, 0));
    assert!(!is_reducing_partner(&m, &vec![1, 2, 0], 0, 1));
    assert_eq!(find_reducible(&m, &rhs), Some((0, 1)));
    let mut m = m;
    let mut rhs = rhs;
    subtract_row(&mut m, &mut rhs, 0, 1);
    assert_eq!(m, vec![vec![1, 0], vec![0, 1], vec![0, 0]]);
    assert_eq!(rhs, vec![3, 2, 0]);
}

#[test]
fn extractor_counts_rows_with_a_single_entry() {
    let (m, rhs, count) = extract_trivial_solutions(
        vec![vec![1, 0, 0], vec![0, 1, 1], vec![0, 0, 0], vec![0, 0, 1]],
        vec![4, 6, 0, 3],
    );
    assert_eq!(m, vec![vec![0, 1, 1], vec![0, 0, 0]]);
    assert_eq!(rhs, vec![6, 0]);
    assert_eq!(count, 7);
    assert!(has_single_entry(&vec![0, 2, 0]));
    assert!(!has_single_entry(&vec![0, 0]));
    assert!(!has_single_entry(&vec![1, 1]));
}

#[test]
fn extracted_count_and_rest_make_the_optimum() {
    let full = Solver::new(vec![4, 5], vec![vec![1, 0], vec![0, 1], vec![0, 1]]).solve();
    let (m, rhs, count) = extract_trivial_solutions(vec![vec![1, 0, 0], vec![0, 1, 1]], vec![4, 5]);
    let (buttons, target) = buttons_from_system(m, rhs);
    let rest = Solver::new(target, buttons).solve();
    assert_eq!(count, 4);
    assert_eq!(full, Some(9));
    assert_eq!(rest.map(|n| n + count), full);
}

#[test]
fn reconstructor_drops_columns_of_zeros() {
    let (buttons, target) = buttons_from_system(vec![vec![0, 1, 1], vec![0, 0, 2]], vec![6, 0]);
    assert_eq!(buttons, vec![vec![1, 0], vec![1, 2]]);
    assert_eq!(target, vec![6, 0]);
    let (buttons, target) = buttons_from_system(vec![], vec![1]);
    assert_eq!(buttons, Vec::<Vec<u32>>::new());
    assert_eq!(target, vec![1]);
}
