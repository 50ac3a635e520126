use sudoku_engine::Board;
use sudoku_engine::Cell;
use sudoku_engine::SudokuGrid;
use sudoku_engine::SudokuSession;
use sudoku_engine::Validator;
use sudoku_engine::EMPTY_CELL;
use sudoku_engine::SIZE;

#[test]
fn test_new_board_is_empty() {
    let board = Board::new();
    let mut all_empty = true;
    for r in 0..SIZE {
        for c in 0..SIZE {
            if board.get_cell(r, c).value != EMPTY_CELL {
                all_empty = false;
            }
        }
    }
    assert!(all_empty);
}

#[test]
fn test_generate_board() {
    let mut board = Board::new();
    board.generate();
    assert!(board.is_complete());
}

#[test]
fn test_make_move() {
    let mut board = Board::new();
    board.generate();

    let row = 0;
    let col = 0;
    let value = 5u8;

    if row < SIZE && col < SIZE && !board.get_cell(row, col).given
        && board.is_valid_move(row, col, value)
    {
        board.make_move(row, col, value);
    }
}

#[test]
fn test_invalid_move() {
    let mut board = Board::new();
    board.generate();

    let row = 0;
    let col = 0;
    let value = 5u8;

    // Making the same move twice should be invalid
    board.make_move(row, col, value);
    assert!(!board.is_valid_move(row, col, value));
}

#[test]
fn moves_are_validated_before_acceptance() {
    let mut board = Board::new();
    board.make_move(0, 0, 5);
    assert_eq!(board.get_cell(0, 0).value, 5);
    // a conflicting move in the same row is rejected
    board.make_move(0, 8, 5);
    assert_eq!(board.get_cell(0, 8).value, EMPTY_CELL);
    // a conflicting move in the same column is rejected
    board.make_move(8, 0, 5);
    assert_eq!(board.get_cell(8, 0).value, EMPTY_CELL);
    // a conflicting move in the same box is rejected
    board.make_move(1, 1, 5);
    assert_eq!(board.get_cell(1, 1).value, EMPTY_CELL);
    // a conflict-free move is accepted
    board.make_move(0, 8, 6);
    assert_eq!(board.get_cell(0, 8).value, 6);
    // values outside 1..=9 are rejected
    board.make_move(1, 1, 0);
    assert_eq!(board.get_cell(1, 1).value, EMPTY_CELL);
    board.make_move(1, 1, 10);
    assert_eq!(board.get_cell(1, 1).value, EMPTY_CELL);
    // out-of-bounds coordinates are ignored without a panic
    board.make_move(9, 9, 5);
    // overwriting a non-given cell with a conflict-free value is allowed
    board.make_move(0, 0, 7);
    assert_eq!(board.get_cell(0, 0).value, 7);
    assert!(!board.is_complete());
}

#[test]
fn solver_completes_randomised_grids_repeatedly() {
    for _ in 0..100 {
        let mut board = Board::new();
        board.generate();
        assert!(board.is_complete());
        // every generated solution must independently validate
        let mut g = SudokuGrid::new();
        for r in 0..SIZE {
            for c in 0..SIZE {
                let v = board.get_cell(r, c).value;
                assert!((1..=9).contains(&v));
                g.set_number(r, c, v).unwrap();
            }
        }
        assert!(Validator::is_valid_grid(&g));
    }
}

#[test]
fn cell_constructors() {
    let c = Cell::new(4, true);
    assert_eq!(c.value, 4);
    assert!(c.given);
    let e = Cell::empty();
    assert_eq!(e.value, EMPTY_CELL);
    assert!(!e.given);
}

#[test]
fn session_holds_plain_fields() {
    let s = SudokuSession {
        id: 1,
        player_name: "Arthur".to_string(),
        game_state: "serialized_game_state".to_string(),
    };
    assert_eq!(s.id, 1);
    assert_eq!(s.player_name, "Arthur");
    assert_eq!(s.game_state, "serialized_game_state");
}
