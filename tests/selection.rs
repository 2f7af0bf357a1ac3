use sudoku::{move_selection, Direction};

#[test]
fn selection_wraps_within_row() {
    assert_eq!(move_selection(0, Direction::Left), 8);
    assert_eq!(move_selection(8, Direction::Right), 0);
    assert_eq!(move_selection(40, Direction::Left), 39);
    assert_eq!(move_selection(40, Direction::Right), 41);
    assert_eq!(move_selection(44, Direction::Right), 36);
}

#[test]
fn selection_wraps_within_column() {
    assert_eq!(move_selection(0, Direction::Up), 72);
    assert_eq!(move_selection(76, Direction::Down), 4);
    assert_eq!(move_selection(40, Direction::Down), 49);
    assert_eq!(move_selection(40, Direction::Up), 31);
}
