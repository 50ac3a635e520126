use sudoku_engine::GameLevel;
use sudoku_engine::Solver;
use sudoku_engine::SudokuError;
use sudoku_engine::SudokuGrid;
use sudoku_engine::SudokuGridFactory;
use sudoku_engine::Validator;

fn sequential_order() -> Vec<u8> {
    (1..=9).collect()
}

#[test]
fn can_place_scenario_row_conflict() {
    // row 0 = [5, 3, _, _, 7, _, _, _, _]
    let mut g = SudokuGrid::new();
    g.set_number(0, 0, 5).unwrap();
    g.set_number(0, 1, 3).unwrap();
    g.set_number(0, 4, 7).unwrap();
    assert!(!Validator::can_place(&g, 0, 2, 5));
    assert!(Validator::can_place(&g, 0, 2, 9));
}

#[test]
fn can_place_column_and_box_conflicts() {
    let mut g = SudokuGrid::new();
    g.set_number(5, 2, 4).unwrap(); // same column as (0, 2)
    g.set_number(1, 1, 6).unwrap(); // same box as (0, 2)
    assert!(!Validator::can_place(&g, 0, 2, 4));
    assert!(!Validator::can_place(&g, 0, 2, 6));
    assert!(Validator::can_place(&g, 0, 2, 1));
    // the target cell's own value is not considered
    g.set_number(0, 2, 8).unwrap();
    assert!(Validator::can_place(&g, 0, 2, 8));
}

#[test]
fn solver_completes_empty_grid() {
    let mut g = SudokuGrid::new();
    let order = sequential_order();
    assert!(Solver::complete(&mut g, &order).is_ok());
    for r in 0..9 {
        for c in 0..9 {
            let v = g.get_number(r, c).unwrap();
            assert!(matches!(v, Some(1..=9)));
        }
    }
    assert!(Validator::is_valid_grid(&g));
    // a full valid grid is its own single completion
    assert_eq!(Solver::count_solutions(&mut g, 2), 1);
}

#[test]
fn solver_reports_unsolvable() {
    let mut g = SudokuGrid::new();
    for c in 0..8usize {
        g.set_number(0, c, (c + 1) as u8).unwrap();
    }
    g.set_number(3, 8, 9).unwrap(); // now (0, 8) has no candidate left
    let order = sequential_order();
    assert_eq!(Solver::complete(&mut g, &order), Err(SudokuError::Unsolvable));
    // the failed search leaves the grid exactly as it was
    assert_eq!(g.get_number(0, 0), Ok(Some(1)));
    assert_eq!(g.get_number(0, 8), Ok(None));
    assert_eq!(g.get_number(3, 8), Ok(Some(9)));
}

#[test]
fn count_solutions_respects_cap() {
    let mut g = SudokuGrid::new();
    // an empty grid has a vast number of completions; the cap bounds the answer
    assert_eq!(Solver::count_solutions(&mut g, 2), 2);
    assert_eq!(Solver::count_solutions(&mut g, 1), 1);
    assert_eq!(Solver::count_solutions(&mut g, 0), 0);
    // counting leaves the grid exactly as it was
    assert_eq!(g.get_number(0, 0), Ok(None));
}

#[test]
fn validation_is_idempotent_on_full_grid() {
    let mut g = SudokuGrid::new();
    let order = sequential_order();
    Solver::complete(&mut g, &order).unwrap();
    assert!(Validator::is_valid_grid(&g));
    // re-validating an already-valid full grid reports no conflict
    assert!(Validator::is_valid_grid(&g));
    for r in 0..9 {
        for c in 0..9 {
            let v = g.get_number(r, c).unwrap().unwrap();
            assert!(Validator::can_place(&g, r, c, v));
        }
    }
}

fn clue_count(g: &SudokuGrid) -> usize {
    let mut n = 0;
    for r in 0..9 {
        for c in 0..9 {
            if g.get_number(r, c).unwrap().is_some() {
                n += 1;
            }
        }
    }
    n
}

fn check_generated(level: GameLevel, clears: usize) {
    let mut g = SudokuGridFactory::generate_grid(level);
    assert!(Validator::is_valid_grid(&g));
    assert!(clue_count(&g) >= 81 - clears);
    // the filled cells are exactly the given clues
    for r in 0..9 {
        for c in 0..9 {
            let filled = g.get_number(r, c).unwrap().is_some();
            assert_eq!(g.is_given(r, c).unwrap(), filled);
        }
    }
    // the puzzle keeps exactly one solution
    assert_eq!(Solver::count_solutions(&mut g, 2), 1);
}

#[test]
fn generator_easy_unique_solution() {
    check_generated(GameLevel::Easy, 40);
}

#[test]
fn generator_medium_unique_solution() {
    check_generated(GameLevel::Medium, 50);
}

#[test]
fn generator_hard_unique_solution() {
    check_generated(GameLevel::Hard, 60);
}

#[test]
fn generator_is_deterministic_for_fixed_inputs() {
    // the randomness is injected: equal candidate and removal orders give
    // identical puzzles, so a test can fix both
    let order: Vec<u8> = (1..=9).collect();
    let positions: Vec<usize> = (0..81).collect();
    let a = SudokuGridFactory::generate_grid_from(GameLevel::Medium, &order, &positions);
    let b = SudokuGridFactory::generate_grid_from(GameLevel::Medium, &order, &positions);
    for r in 0..9 {
        for c in 0..9 {
            assert_eq!(a.get_number(r, c).unwrap(), b.get_number(r, c).unwrap());
            assert_eq!(a.is_given(r, c).unwrap(), b.is_given(r, c).unwrap());
        }
    }
}

#[test]
fn generator_removal_is_maximal() {
    let order: Vec<u8> = (1..=9).collect();
    let positions: Vec<usize> = (0..81).collect();
    let mut g = SudokuGridFactory::generate_grid_from(GameLevel::Easy, &order, &positions);
    assert!(Validator::is_valid_grid(&g));
    assert_eq!(Solver::count_solutions(&mut g, 2), 1);
    let clues = clue_count(&g);
    assert!(clues >= 41);
    if clues != 41 {
        // fewer cells cleared than the target: every remaining clue must
        // be pinned, so clearing any one of them breaks uniqueness
        for r in 0..9 {
            for c in 0..9 {
                if let Some(v) = g.get_number(r, c).unwrap() {
                    g.clear_number(r, c).unwrap();
                    assert_eq!(Solver::count_solutions(&mut g, 2), 2);
                    g.set_number(r, c, v).unwrap();
                }
            }
        }
    }
}

#[test]
fn difficulty_fallback_is_easy() {
    assert_eq!(GameLevel::from_code(1), GameLevel::Easy);
    assert_eq!(GameLevel::from_code(2), GameLevel::Medium);
    assert_eq!(GameLevel::from_code(3), GameLevel::Hard);
    assert_eq!(GameLevel::from_code(0), GameLevel::Easy);
    assert_eq!(GameLevel::from_code(4), GameLevel::Easy);
    assert_eq!(GameLevel::from_code(255), GameLevel::Easy);
    assert_eq!(GameLevel::default(), GameLevel::Easy);
    assert_eq!(GameLevel::Easy.target_clears(), 40);
    assert_eq!(GameLevel::Medium.target_clears(), 50);
    assert_eq!(GameLevel::Hard.target_clears(), 60);
}
