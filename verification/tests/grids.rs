use puzzles::grid::Grid;
use puzzles::homework::{Input, Operation};
use puzzles::shelf::{Position, Shelf};

#[test]
fn grid_cells_are_stored_row_by_row() {
    let mut grid = Grid::new(3, 2, 0u64);
    assert_eq!(grid.cells, vec![0; 6]);
    grid.set(1, 1, 7);
    assert_eq!(grid.get(1, 1), Some(7));
    assert_eq!(grid.get(4, 0), Some(7));
    assert_eq!(grid.get(0, 2), None);
    grid.set(0, 2, 9);
    assert_eq!(grid.cells, vec![0, 0, 0, 0, 7, 0]);
}

#[test]
fn position_offset_stops_at_zero() {
    let p = Position { x: 1, y: 0 };
    let q = p.offset(-1, 1).unwrap();
    assert_eq!((q.x, q.y), (0, 1));
    assert!(p.offset(-2, 0).is_none());
    assert!(p.offset(0, -1).is_none());
}

fn shelf_of(rows: &[&str]) -> Shelf {
    Shelf { data: rows.iter().flat_map(|r| r.chars()).collect(), width: rows[0].len(), height: rows.len() }
}

#[test]
fn shelf_get_and_set() {
    let mut shelf = shelf_of(&["@.@", ".@."]);
    assert_eq!(shelf.get(&Position { x: 2, y: 0 }), Some(&'@'));
    assert_eq!(shelf.get(&Position { x: 3, y: 0 }), None);
    assert_eq!(shelf.get(&Position { x: 0, y: 2 }), None);
    shelf.set(&Position { x: 1, y: 1 }, '.');
    shelf.set(&Position { x: 3, y: 0 }, '@');
    assert_eq!(shelf.data, vec!['@', '.', '@', '.', '.', '.']);
}

#[test]
fn roll_with_four_neighbours_stays() {
    let shelf = shelf_of(&["@@@", "@@.", "..."]);
    assert!(!shelf.can_remove(&Position { x: 1, y: 1 }));
    assert!(shelf.can_remove(&Position { x: 0, y: 0 }));
    assert!(!shelf.can_remove(&Position { x: 1, y: 0 }));
    assert!(shelf.can_remove(&Position { x: 2, y: 2 }));
}

#[test]
fn operations_apply_to_an_accumulator() {
    let mut acc = 6;
    Operation::Add.apply(&mut acc, 4);
    assert_eq!(acc, 10);
    Operation::Multiply.apply(&mut acc, 3);
    assert_eq!(acc, 30);
}

#[test]
fn sheet_numbers_are_stored_row_by_row() {
    let input = Input { width: 2, height: 2, numbers: vec![1, 2, 3, 4], operations: vec![Operation::Add, Operation::Multiply] };
    assert_eq!(input.get(1, 0), Some(2));
    assert_eq!(input.get(0, 1), Some(3));
    assert_eq!(input.get(0, 2), None);
}
