//! The playing board: a grid that always satisfies the Sudoku invariant.
//! Player moves are validated before they are accepted, so a board mid-play
//! may be incomplete but never contradictory.

use vstd::prelude::*;

use crate::generator::lemma_empty_grid_solvable;
use crate::generator::shuffled_order;
use crate::grid::full;
use crate::grid::move_ok;
use crate::grid::valid_grid;
use crate::grid::Cell;
use crate::grid::SudokuGrid;
use crate::rng::new_rng;
use crate::solver::Solver;
use crate::validator::lemma_move_ok_iff;
use crate::validator::lemma_place_preserves_valid;
use crate::validator::Validator;

verus! {

/// A move is accepted when the coordinates are on the board, the value is
/// in 1..=9, the target cell is not a given clue, and no cell of the
/// target's row, column or box already holds the value.
pub open spec fn move_allowed(s: Seq<Cell>, row: int, col: int, value: u8) -> bool {
    &&& 0 <= row < 9
    &&& 0 <= col < 9
    &&& 1 <= value <= 9
    &&& !s[row * 9 + col].given
    &&& move_ok(s, row * 9 + col, value)
}

/// A board under play: its grid always satisfies the Sudoku invariant.
pub struct Board {
    grid: SudokuGrid,
}

impl View for Board {
    type V = Seq<Cell>;

    closed spec fn view(&self) -> Seq<Cell> {
        self.grid@
    }
}

impl Board {
    /// The board's invariant: a well-formed grid that is never
    /// contradictory.
    pub open spec fn wf(&self) -> bool {
        crate::grid::grid_wf(self@) && valid_grid(self@)
    }

    /// An empty board: no cell filled, no cell given.
    pub fn new() -> (b: Board)
        ensures
            b.wf(),
            forall|i: int| 0 <= i < 81 ==> b@[i] == (Cell { value: 0, given: false }),
    {
        let grid = SudokuGrid::new();
        let b = Board { grid };
        proof {
            assert(valid_grid(b@));
        }
        b
    }

    /// Read the cell at (row, col).
    pub fn get_cell(&self, row: usize, col: usize) -> (c: Cell)
        requires
            self.wf(),
            row < 9,
            col < 9,
        ensures
            c == self@[row * 9 + col],
    {
        self.grid.cell(row * 9 + col)
    }

    /// Replace the board's contents by a fully solved random grid with no
    /// cell marked given: the solver fills an empty grid with a shuffled
    /// candidate order.
    pub fn generate(&mut self)
        ensures
            final(self).wf(),
            full(final(self)@),
            forall|j: int| 0 <= j < 81 ==> !final(self)@[j].given,
            forall|j: int| 0 <= j < 81 ==> 1 <= #[trigger] final(self)@[j].value <= 9,
    {
        self.grid = SudokuGrid::new();
        let mut rng = new_rng();
        let order = shuffled_order(&mut rng);
        proof {
            lemma_empty_grid_solvable(self.grid@);
        }
        match Solver::complete(&mut self.grid, &order) {
            Ok(()) => (),
            Err(_) => {
                proof {
                    // Unreachable: an empty grid is always solvable, and
                    // the shuffled order offers every candidate value.
                    assert(false);
                }
            },
        }
    }

    /// True iff placing `value` at (row, col) would leave the board free
    /// of conflicts: the value occurs nowhere in the target's row, column
    /// or box, the target cell itself included.
    pub fn is_valid_move(&self, row: usize, col: usize, value: u8) -> (r: bool)
        requires
            self.wf(),
            row < 9,
            col < 9,
            1 <= value <= 9,
        ensures
            r <==> move_ok(self@, row * 9 + col, value),
    {
        let ok = Validator::can_place(&self.grid, row, col, value);
        let c = self.grid.cell(row * 9 + col);
        proof {
            lemma_move_ok_iff(self@, row * 9 + col, value);
        }
        ok && c.value != value
    }

    /// Apply a player move. The move is accepted, and the cell set, only
    /// when it is allowed: on the board, value in 1..=9, the target not a
    /// given clue, and conflict-free; otherwise the board is unchanged.
    pub fn make_move(&mut self, row: usize, col: usize, value: u8)
        requires
            old(self).wf(),
        ensures
            final(self).wf(),
            move_allowed(old(self)@, row as int, col as int, value) ==> final(self)@ == old(
                self,
            )@.update(row * 9 + col, (Cell { value: value, given: false })),
            !move_allowed(old(self)@, row as int, col as int, value) ==> final(self)@ == old(
                self,
            )@,
    {
        if row < 9 && col < 9 && 1 <= value && value <= 9 {
            let c = self.grid.cell(row * 9 + col);
            if !c.given && self.is_valid_move(row, col, value) {
                proof {
                    lemma_move_ok_iff(self@, row * 9 + col, value);
                    lemma_place_preserves_valid(
                        self@,
                        row * 9 + col,
                        Cell { value: value, given: false },
                    );
                }
                self.grid.set_value(row * 9 + col, value);
            }
        }
    }

    /// True iff no cell of the board is empty.
    pub fn is_complete(&self) -> (r: bool)
        requires
            self.wf(),
        ensures
            r <==> full(self@),
    {
        for i in 0..81usize
            invariant
                self.wf(),
                forall|m: int| 0 <= m < i ==> #[trigger] self@[m].value != 0,
        {
            let c = self.grid.cell(i);
            if c.value == 0 {
                return false;
            }
        }
        true
    }
}

} // verus!
