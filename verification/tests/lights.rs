use puzzles::lights::{permutation_to_indices, reverse_bits, toggle, Machine, Permutations};
use puzzles::machine::ParseMachineError;

#[test]
fn bits_are_reversed_within_the_width() {
    assert_eq!(reverse_bits(0b0011, 4), 0b1100);
    assert_eq!(reverse_bits(0b110, 3), 0b011);
    assert_eq!(reverse_bits(0b101, 3), 0b101);
    assert_eq!(reverse_bits(1, 1), 1);
    assert_eq!(reverse_bits(0xff, 0), 0);
    assert_eq!(reverse_bits(0b1011, 2), 0b11);
    assert_eq!(reverse_bits(1, 64), 1u64 << 63);
}

#[test]
fn set_bits_are_listed_from_the_lowest() {
    assert_eq!(permutation_to_indices(0b1011), vec![0, 1, 3]);
    assert_eq!(permutation_to_indices(0), Vec::<usize>::new());
    assert_eq!(permutation_to_indices(1u64 << 63), vec![63]);
}

#[test]
fn sets_are_enumerated_by_size() {
    let mut sets = Permutations::new(3);
    let mut all = Vec::new();
    while let Some(s) = sets.next() {
        all.push(s);
    }
    assert_eq!(
        all,
        vec![vec![], vec![2], vec![1], vec![0], vec![1, 2], vec![0, 2], vec![0, 1], vec![0, 1, 2]],
    );
    assert_eq!(sets.next(), None);
    let mut none = Permutations::new(0);
    assert_eq!(none.next(), Some(vec![]));
    assert_eq!(none.next(), None);
}

#[test]
fn lights_machine_is_read_from_its_record() {
    let machine = Machine::from_str("[.##.] (3) (1,3) (2) (2,3) (0,2) (0,1) {3,5,4,7}").unwrap();
    assert_eq!(machine.target, 0b0110);
    assert_eq!(machine.width, 4);
    assert_eq!(machine.buttons, vec![1, 5, 2, 3, 10, 12]);
    assert_eq!(machine.joltages, vec![3, 5, 4, 7]);
    assert_eq!(machine.fewest_toggles(), Some(2));
}

#[test]
fn lights_machine_refuses_bad_records() {
    assert!(matches!(Machine::from_str("nothing"), Err(ParseMachineError::InvalidSyntax)));
    assert!(matches!(Machine::from_str("[.#] (64) {1}"), Err(ParseMachineError::InvalidNumber)));
    assert!(matches!(Machine::from_str("[.#] (0,) {1}"), Err(ParseMachineError::InvalidNumber)));
    assert!(matches!(
        Machine::from_str("[.#] (0) {99999999999999999999}"),
        Err(ParseMachineError::InvalidNumber)
    ));
}

#[test]
fn fewest_toggles_of_small_machines() {
    let machine = Machine { joltages: vec![], buttons: vec![0b01, 0b10, 0b11], width: 2, target: 0b11 };
    assert_eq!(machine.fewest_toggles(), Some(1));
    let machine = Machine { joltages: vec![], buttons: vec![0b01, 0b10], width: 2, target: 0b11 };
    assert_eq!(machine.fewest_toggles(), Some(2));
    let machine = Machine { joltages: vec![], buttons: vec![0b01], width: 2, target: 0b10 };
    assert_eq!(machine.fewest_toggles(), None);
    let machine = Machine { joltages: vec![], buttons: vec![0b01], width: 2, target: 0 };
    assert_eq!(machine.fewest_toggles(), Some(0));
    assert_eq!(toggle(&vec![0b01, 0b10, 0b11], &vec![0, 2]), 0b10);
}
