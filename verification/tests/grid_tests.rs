use sudoku_engine::GameLevel;
use sudoku_engine::SudokuError;
use sudoku_engine::SudokuGrid;
use sudoku_engine::SudokuGridFactory;

#[test]
fn test_set_number() {
    let mut sudoku = SudokuGrid::new();
    assert!(sudoku.set_number(0, 0, 5).is_ok());
    assert!(sudoku.set_number(0, 2, 8).is_ok());
    assert!(sudoku.set_number(2, 0, 3).is_ok());
    assert!(sudoku.set_number(8, 8, 1).is_ok());
    assert!(sudoku.set_number(9, 9, 9).is_err());
    assert!(sudoku.set_number(0, 0, 0).is_err());
}

#[test]
fn test_get_number() {
    let mut sudoku = SudokuGrid::new();
    sudoku.set_number(0, 0, 5).unwrap();
    sudoku.set_number(0, 2, 8).unwrap();
    sudoku.set_number(2, 0, 3).unwrap();
    sudoku.set_number(8, 8, 1).unwrap();

    assert_eq!(sudoku.get_number(0, 0).unwrap(), Some(5));
    assert_eq!(sudoku.get_number(0, 2).unwrap(), Some(8));
    assert_eq!(sudoku.get_number(2, 0).unwrap(), Some(3));
    assert_eq!(sudoku.get_number(8, 8).unwrap(), Some(1));
    assert_eq!(sudoku.get_number(1, 1).unwrap(), None);
    assert!(sudoku.get_number(9, 9).is_err());
}

#[test]
fn test_generate_grid_easy() {
    let _grid = SudokuGridFactory::generate_grid(GameLevel::Easy);
}

#[test]
fn test_generate_grid_medium() {
    let _grid = SudokuGridFactory::generate_grid(GameLevel::Medium);
}

#[test]
fn test_generate_grid_hard() {
    let _grid = SudokuGridFactory::generate_grid(GameLevel::Hard);
}

#[test]
fn invalid_position_errors() {
    let mut g = SudokuGrid::new();
    assert_eq!(g.set_number(9, 0, 5), Err(SudokuError::InvalidPosition));
    assert_eq!(g.set_number(0, 9, 5), Err(SudokuError::InvalidPosition));
    assert_eq!(g.set_number(100, 3, 1), Err(SudokuError::InvalidPosition));
    assert_eq!(g.get_number(9, 0), Err(SudokuError::InvalidPosition));
    assert_eq!(g.get_number(0, 9), Err(SudokuError::InvalidPosition));
    assert_eq!(g.clear_number(10, 0), Err(SudokuError::InvalidPosition));
    assert_eq!(g.mark_given(0, 12), Err(SudokuError::InvalidPosition));
    assert_eq!(g.is_given(9, 9), Err(SudokuError::InvalidPosition));
}

#[test]
fn invalid_number_errors() {
    let mut g = SudokuGrid::new();
    assert_eq!(g.set_number(4, 4, 0), Err(SudokuError::InvalidNumber));
    assert_eq!(g.set_number(4, 4, 10), Err(SudokuError::InvalidNumber));
    assert_eq!(g.set_number(4, 4, 255), Err(SudokuError::InvalidNumber));
    // the position is checked before the value
    assert_eq!(g.set_number(9, 4, 0), Err(SudokuError::InvalidPosition));
}

#[test]
fn set_number_roundtrip_all_values() {
    let mut g = SudokuGrid::new();
    for v in 1..=9u8 {
        assert!(g.set_number(3, 6, v).is_ok());
        assert_eq!(g.get_number(3, 6), Ok(Some(v)));
    }
}

#[test]
fn clear_and_given_flags() {
    let mut g = SudokuGrid::new();
    g.set_number(2, 5, 7).unwrap();
    assert_eq!(g.is_given(2, 5), Ok(false));
    g.mark_given(2, 5).unwrap();
    assert_eq!(g.is_given(2, 5), Ok(true));
    assert_eq!(g.get_number(2, 5), Ok(Some(7)));
    g.clear_number(2, 5).unwrap();
    assert_eq!(g.get_number(2, 5), Ok(None));
    // clearing the value leaves the given flag alone
    assert_eq!(g.is_given(2, 5), Ok(true));
}

#[test]
fn is_valid_position_bounds() {
    assert!(SudokuGrid::is_valid_position(0, 0));
    assert!(SudokuGrid::is_valid_position(8, 8));
    assert!(!SudokuGrid::is_valid_position(9, 0));
    assert!(!SudokuGrid::is_valid_position(0, 9));
    assert!(!SudokuGrid::is_valid_position(9, 9));
}
