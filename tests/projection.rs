use sudoku::grid::{Sudoku, SudokuCell};
use sudoku::projection::{digit_can_go_here, simplex_groups};

#[test]
fn digit_placement_follows_the_clues() {
    let mut s = Sudoku::empty(4);
    s.set(0, 0, SudokuCell::Digit(1));
    assert!(!digit_can_go_here(&s, 0, 0, 0));
    assert!(!digit_can_go_here(&s, 0, 3, 0));
    assert!(!digit_can_go_here(&s, 3, 0, 0));
    assert!(!digit_can_go_here(&s, 1, 1, 0));
    assert!(digit_can_go_here(&s, 2, 2, 0));
    assert!(digit_can_go_here(&s, 0, 3, 1));
}

#[test]
fn groups_in_fixed_order() {
    let mut s = Sudoku::empty(4);
    s.set(0, 0, SudokuCell::Digit(1));
    let groups = simplex_groups(&s);
    assert_eq!(groups.len(), 4 * 16);
    let offset = |r: usize, c: usize, d: usize| (r * 4 + c) * 4 + d;
    // row 0, digit 1: given already, nothing left
    assert!(groups[0].is_empty());
    // row 0, digit 2: columns 1..4
    assert_eq!(groups[1], vec![offset(0, 1, 1), offset(0, 2, 1), offset(0, 3, 1)]);
    // row 2, digit 1: columns 1..4 (column 0 holds a 1)
    assert_eq!(groups[2 * 4], vec![offset(2, 1, 0), offset(2, 2, 0), offset(2, 3, 0)]);
    // column 0, digit 2
    assert_eq!(groups[16 + 1], vec![offset(1, 0, 1), offset(2, 0, 1), offset(3, 0, 1)]);
    // box 3 (bottom right), digit 1
    assert_eq!(
        groups[32 + 3 * 4],
        vec![offset(2, 2, 0), offset(2, 3, 0), offset(3, 2, 0), offset(3, 3, 0)]
    );
    // cell (0, 0) is given; cell (1, 1) cannot hold a 1
    assert!(groups[48].is_empty());
    assert_eq!(groups[48 + 5], vec![offset(1, 1, 1), offset(1, 1, 2), offset(1, 1, 3)]);
    assert_eq!(groups[48 + 15].len(), 4);
}
