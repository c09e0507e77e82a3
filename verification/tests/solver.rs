use puzzles::machine::{fmt_indicators, Machine, ParseMachineError, State};
use puzzles::solver::{least, same, slot, sum_of, Memo, Solver};

fn brute_force(target: &[u32], buttons: &[Vec<u32>]) -> Option<u64> {
    fn walk(target: &[u32], buttons: &[Vec<u32>], k: usize, state: &mut Vec<u32>, used: u64, best: &mut Option<u64>) {
        if k == buttons.len() {
            if state.as_slice() == target {
                *best = Some(best.map_or(used, |b| b.min(used)));
            }
            return;
        }
        let mut presses: u64 = 0;
        loop {
            walk(target, buttons, k + 1, state, used + presses, best);
            presses += 1;
            for d in 0..target.len() {
                state[d] += buttons[k][d];
            }
            let over = (0..target.len()).any(|d| state[d] > target[d]);
            let idle = buttons[k].iter().all(|v| *v == 0);
            if over || idle {
                for d in 0..target.len() {
                    state[d] -= buttons[k][d] * presses as u32;
                }
                return;
            }
        }
    }
    let mut best = None;
    let mut state = vec![0; target.len()];
    walk(target, buttons, 0, &mut state, 0, &mut best);
    best
}

#[test]
fn solver_finds_five_presses() {
    let solver = Solver::new(vec![5, 3], vec![vec![1, 0], vec![0, 1], vec![1, 1]]);
    assert_eq!(solver.solve(), Some(5));
    assert_eq!(brute_force(&[5, 3], &[vec![1, 0], vec![0, 1], vec![1, 1]]), Some(5));
}

#[test]
fn solver_reports_no_solution() {
    let solver = Solver::new(vec![1, 0], vec![vec![0, 1]]);
    assert_eq!(solver.solve(), None);
}

#[test]
fn solver_without_buttons() {
    assert_eq!(Solver::new(vec![0, 0], vec![]).solve(), Some(0));
    assert_eq!(Solver::new(vec![0, 1], vec![]).solve(), None);
    assert_eq!(Solver::new(vec![], vec![]).solve(), Some(0));
}

#[test]
fn solver_with_a_button_that_adds_nothing() {
    assert_eq!(Solver::new(vec![2], vec![vec![0], vec![1]]).solve(), Some(2));
    assert_eq!(Solver::new(vec![0], vec![vec![0]]).solve(), Some(0));
    assert_eq!(Solver::new(vec![1], vec![vec![0]]).solve(), None);
}

#[test]
fn solver_agrees_with_brute_force() {
    let shapes: Vec<Vec<u32>> = (1..8u32).map(|m| vec![m & 1, (m >> 1) & 1, (m >> 2) & 1]).collect();
    let mut seed: u32 = 12345;
    for _ in 0..60 {
        let mut buttons = Vec::new();
        for _ in 0..4 {
            seed = seed.wrapping_mul(1103515245).wrapping_add(12345);
            buttons.push(shapes[(seed >> 16) as usize % shapes.len()].clone());
        }
        let mut target = vec![0u32; 3];
        for b in &buttons {
            seed = seed.wrapping_mul(1103515245).wrapping_add(12345);
            let presses = (seed >> 16) % 4;
            for d in 0..3 {
                target[d] += b[d] * presses;
            }
        }
        let expected = brute_force(&target, &buttons);
        assert!(expected.is_some());
        assert_eq!(Solver::new(target.clone(), buttons.clone()).solve(), expected);
        target[0] += 1;
        assert_eq!(Solver::new(target.clone(), buttons.clone()).solve(), brute_force(&target, &buttons));
    }
}

#[test]
fn cached_answer_equals_fresh_answer() {
    let solver = Solver::new(vec![4, 4, 2], vec![vec![1, 0, 0], vec![0, 1, 0], vec![1, 1, 0], vec![0, 0, 1]]);
    let ids = vec![1usize, 3];
    let current = vec![4u32, 2, 0];
    let mut fresh = Memo::new();
    let direct = solver.go(&ids, &current, &mut fresh);
    assert_eq!(direct, Some(4));
    let mut shared = Memo::new();
    assert_eq!(solver.go(&vec![0, 1, 2, 3], &vec![0, 0, 0], &mut shared), Some(6));
    assert_eq!(solver.go(&ids, &current, &mut shared), direct);
    assert_eq!(solver.go(&ids, &current, &mut shared), direct);
    let mask = solver.remaining_mask(&ids);
    assert_eq!(solver.lookup(&shared, &current, mask), Some(direct));
    assert_eq!(solver.lookup(&fresh, &current, mask), Some(direct));
    assert_eq!(solver.lookup(&fresh, &vec![0, 0, 0], mask), None);
    assert_eq!(solver.lookup(&Memo::new(), &current, mask), None);
    let mut table = Memo::new();
    solver.record(&mut table, &current, mask, direct);
    assert_eq!(solver.lookup(&table, &current, mask), Some(direct));
    assert_eq!(solver.lookup(&table, &current, mask + 1), None);
}

#[test]
fn least_frequent_picks_the_rarest_short_dimension() {
    let solver = Solver::new(vec![3, 3, 0], vec![vec![1, 1, 0], vec![1, 0, 1], vec![1, 0, 0]]);
    assert_eq!(solver.least_frequent(&vec![0, 1, 2], &vec![0, 0, 0]), Some(1));
    assert_eq!(solver.least_frequent(&vec![0, 1, 2], &vec![0, 3, 0]), Some(0));
    assert_eq!(solver.least_frequent(&vec![0, 1, 2], &vec![3, 3, 0]), None);
    assert_eq!(solver.least_frequent(&vec![1, 2], &vec![0, 0, 0]), Some(1));
}

#[test]
fn remaining_mask_sets_one_bit_for_each_button() {
    let solver = Solver::new(vec![1], vec![vec![1]]);
    assert_eq!(solver.remaining_mask(&vec![]), 0);
    assert_eq!(solver.remaining_mask(&vec![0, 2, 5]), 0b100101);
    assert_eq!(solver.remaining_mask(&vec![63]), 1u64 << 63);
}

#[test]
fn caps_and_pruning() {
    let solver = Solver::new(vec![6, 4, 9], vec![vec![1, 1, 0], vec![1, 0, 1], vec![0, 0, 0]]);
    assert_eq!(solver.cap(&vec![0, 0, 0], 0), 4);
    assert_eq!(solver.cap(&vec![0, 0, 0], 1), 6);
    assert_eq!(solver.cap(&vec![0, 0, 0], 2), 0);
    assert_eq!(solver.cap(&vec![2, 3, 0], 0), 1);
    assert_eq!(solver.caps(&vec![0, 0, 0], &vec![0, 1]), vec![4, 6]);
    assert_eq!(solver.min_cost(&vec![0, 1], 1), 0);
    assert_eq!(solver.min_cost(&vec![0], 1), 1);
    assert_eq!(solver.min_cost(&vec![], 1), 0);
    assert!(solver.is_pruned(&vec![0, 0, 0], &vec![0], 0));
    assert!(!solver.is_pruned(&vec![2, 0, 0], &vec![0], 0));
    assert!(!solver.is_pruned(&vec![0, 0, 0], &vec![0, 1], 0));
    assert_eq!(solver.split(&vec![0, 1, 2], 1, true), vec![0]);
    assert_eq!(solver.split(&vec![0, 1, 2], 1, false), vec![1, 2]);
    assert_eq!(solver.frequency(&vec![0, 1, 2], 0), 2);
}

#[test]
fn advance_lands_or_fails() {
    let solver = Solver::new(vec![5, 3], vec![vec![1, 0], vec![0, 1], vec![1, 1]]);
    assert_eq!(solver.advance(&vec![0, 0], &vec![1, 2], &vec![0, 3], 1), Some(vec![3, 3]));
    assert_eq!(solver.advance(&vec![0, 0], &vec![1, 2], &vec![1, 1], 1), None);
    assert_eq!(solver.advance(&vec![3, 0], &vec![1, 2], &vec![0, 3], 1), None);
    assert_eq!(solver.gained(&vec![1, 2], &vec![2, 3], 1), 5);
}

#[test]
fn machine_reduces_and_searches() {
    let machine = Machine {
        target: State::new(vec![5, 3]),
        buttons: vec![State::new(vec![1, 0]), State::new(vec![0, 1]), State::new(vec![1, 1])],
        width: 2,
        indicators: 0,
    };
    assert_eq!(machine.fewest_presses(), Some(5));
    let forced = Machine {
        target: State::new(vec![3, 7]),
        buttons: vec![State::new(vec![1, 1]), State::new(vec![0, 1])],
        width: 2,
        indicators: 0,
    };
    assert_eq!(forced.fewest_presses(), Some(7));
    let stuck = Machine {
        target: State::new(vec![1, 0]),
        buttons: vec![State::new(vec![0, 1])],
        width: 2,
        indicators: 0,
    };
    assert_eq!(stuck.fewest_presses(), None);
}

#[test]
fn machine_with_six_buttons() {
    let button = |on: &[usize]| {
        let mut v = vec![0u32; 4];
        for i in on {
            v[*i] = 1;
        }
        State::new(v)
    };
    let machine = Machine {
        target: State::new(vec![3, 5, 4, 7]),
        buttons: vec![button(&[3]), button(&[1, 3]), button(&[2]), button(&[2, 3]), button(&[0, 2]), button(&[0, 1])],
        width: 4,
        indicators: 0b0110,
    };
    assert_eq!(machine.fewest_presses(), Some(10));
}

#[test]
fn states_add_and_multiply() {
    let a = State::new(vec![1, 2, 3]);
    let b = State::new(vec![10, 20, 30]);
    assert_eq!(a.add(&b).joltages, vec![11, 22, 33]);
    assert_eq!(a.mul(4).joltages, vec![4, 8, 12]);
    assert_eq!(State::new(vec![]).mul(9).joltages, Vec::<u32>::new());
    assert_eq!(a.add(&b), State::new(vec![11, 22, 33]));
    assert_ne!(a, b);
    assert_ne!(a, State::new(vec![1, 2]));
    assert_eq!(a.clone(), a);
}

#[test]
fn indicators_are_formatted_in_brackets() {
    assert_eq!(fmt_indicators(5, 4), "[.#.#]");
    assert_eq!(fmt_indicators(0, 3), "[...]");
    assert_eq!(fmt_indicators(0, 0), "[.]");
    assert_eq!(fmt_indicators(6, 2), "[##.]");
    assert_eq!(fmt_indicators(1, 1), "[#]");
}

#[test]
fn machine_is_read_from_its_record() {
    let machine = Machine::from_str("[.##.] (3) (1,3) (2) (2,3) (0,2) (0,1) {3,5,4,7}").unwrap();
    assert_eq!(machine.width, 4);
    assert_eq!(machine.indicators, 0b0110);
    assert_eq!(machine.target.joltages, vec![3, 5, 4, 7]);
    let buttons: Vec<Vec<u32>> = machine.buttons.iter().map(|b| b.joltages.clone()).collect();
    assert_eq!(
        buttons,
        vec![vec![0, 0, 0, 1], vec![0, 1, 0, 1], vec![0, 0, 1, 0], vec![0, 0, 1, 1], vec![1, 0, 1, 0], vec![1, 1, 0, 0]],
    );
    assert_eq!(machine.fewest_presses(), Some(10));
}

#[test]
fn record_that_is_no_record_is_refused() {
    assert!(matches!(Machine::from_str("hello"), Err(ParseMachineError::InvalidSyntax)));
    assert!(matches!(Machine::from_str("[.#] {1,2}"), Err(ParseMachineError::InvalidSyntax)));
    assert!(matches!(Machine::from_str(""), Err(ParseMachineError::InvalidSyntax)));
}

#[test]
fn record_with_a_bad_number_is_refused() {
    assert!(matches!(Machine::from_str("[.#] (1,,0) {1,2}"), Err(ParseMachineError::InvalidNumber)));
    assert!(matches!(Machine::from_str("[.#] (0) {1,99999999999}"), Err(ParseMachineError::InvalidNumber)));
    assert!(matches!(Machine::from_str("[.#] (5) {1,2}"), Err(ParseMachineError::InvalidNumber)));
    assert!(matches!(Machine::from_str("[.#] (0) {,}"), Err(ParseMachineError::InvalidNumber)));
}

#[test]
fn machine_is_assembled_from_parts() {
    let machine = Machine::assemble(&b"#.#".to_vec(), &vec![b"0,2".to_vec(), b"1".to_vec()], &b"{7,8,9}".to_vec()).unwrap();
    assert_eq!(machine.indicators, 0b101);
    assert_eq!(machine.width, 3);
    assert_eq!(machine.buttons[0].joltages, vec![1, 0, 1]);
    assert_eq!(machine.buttons[1].joltages, vec![0, 1, 0]);
    assert_eq!(machine.target.joltages, vec![7, 8, 9]);
    assert!(matches!(
        Machine::assemble(&b"#".to_vec(), &vec![b"x".to_vec()], &b"{1}".to_vec()),
        Err(ParseMachineError::InvalidNumber)
    ));
}

#[test]
fn small_helpers_of_the_search() {
    assert_eq!(slot(&vec![1, 2], 7), (7 * 31 + 1) * 31 + 2);
    assert_eq!(slot(&vec![], 9), 9);
    assert_eq!(slot(&vec![u32::MAX], u64::MAX), u64::MAX.wrapping_mul(31).wrapping_add(u32::MAX as u64));
    assert_eq!(least(Some(3), Some(2)), Some(2));
    assert_eq!(least(None, Some(2)), Some(2));
    assert_eq!(least(Some(3), None), Some(3));
    assert_eq!(least(None, None), None);
    assert_eq!(sum_of(&vec![u32::MAX, u32::MAX, 2]), 2 * (u32::MAX as u64) + 2);
    assert!(same(&vec![1, 2], &vec![1, 2]));
    assert!(!same(&vec![1, 2], &vec![1, 2, 3]));
    assert!(!same(&vec![1, 2], &vec![1, 3]));
}

#[test]
fn solver_with_large_joltages() {
    assert_eq!(Solver::new(vec![70000, 90000], vec![vec![1, 0], vec![0, 1]]).solve(), Some(160000));
    assert_eq!(Solver::new(vec![70000, 70000], vec![vec![1, 1]]).solve(), Some(70000));
    assert_eq!(Solver::new(vec![70000, 70001], vec![vec![1, 1]]).solve(), None);
}

#[test]
fn solver_with_a_button_that_adds_more_than_one() {
    assert_eq!(Solver::new(vec![2], vec![vec![2]]).solve(), None);
    assert_eq!(Solver::new(vec![2, 1], vec![vec![2, 1], vec![0, 1]]).solve(), None);
    assert_eq!(Solver::new(vec![4, 2], vec![vec![2, 1], vec![1, 0]]).solve(), Some(2));
}
