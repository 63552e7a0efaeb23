use sudoku::grid::{Sudoku, SudokuCell, SudokuCellValue};

#[test]
fn empty_board_has_integer_square_root_box() {
    let s = Sudoku::empty(9);
    assert_eq!(s.side(), 9);
    assert_eq!(s.box_side(), 3);
    assert_eq!(Sudoku::empty(10).box_side(), 3);
    assert_eq!(Sudoku::empty(16).box_side(), 4);
    assert_eq!(Sudoku::empty(1).box_side(), 1);
    assert_eq!(Sudoku::empty(0).box_side(), 0);
    for i in 0..81 {
        assert!(s.get_raw(i).is_empty());
    }
}

#[test]
fn set_and_get_use_row_major_indices() {
    let mut s = Sudoku::empty(4);
    s.set(2, 3, SudokuCell::Digit(4));
    assert_eq!(*s.get(2, 3), SudokuCell::Digit(4));
    assert_eq!(*s.get_raw(11), SudokuCell::Digit(4));
    s.set_raw(5, SudokuCell::Digit(1));
    assert_eq!(*s.get(1, 1), SudokuCell::Digit(1));
    s.set_raw(5, SudokuCell::Empty);
    assert!(s.get(1, 1).is_empty());
}

#[test]
fn swap_raw_exchanges_two_cells() {
    let mut s = Sudoku::empty(4);
    s.set_raw(0, SudokuCell::Digit(1));
    s.set_raw(15, SudokuCell::Digit(2));
    s.swap_raw(0, 15);
    assert_eq!(*s.get_raw(0), SudokuCell::Digit(2));
    assert_eq!(*s.get_raw(15), SudokuCell::Digit(1));
    s.swap_raw(3, 3);
    assert!(s.get_raw(3).is_empty());
}

#[test]
fn nonempty_lists_filled_cells_in_order() {
    let mut s = Sudoku::empty(4);
    s.set(3, 0, SudokuCell::Digit(2));
    s.set(0, 2, SudokuCell::Digit(1));
    s.set(1, 1, SudokuCell::Digit(3));
    assert_eq!(s.nonempty(), vec![(0, 2), (1, 1), (3, 0)]);
    assert!(Sudoku::empty(4).nonempty().is_empty());
}

#[test]
fn cell_queries() {
    assert!(SudokuCell::Empty.is_empty());
    assert!(SudokuCell::Empty.empty());
    assert!(!SudokuCell::Digit(3).is_empty());
    assert_eq!(SudokuCell::Digit(3).value(), Some(3));
    assert_eq!(SudokuCell::Empty.value(), None);
    assert_eq!(SudokuCell::Digit(7).unwrap(), 7);
}
