//! The 9x9 cell store: a fixed grid of optional values 1..=9, each cell
//! carrying a `given` flag, with bounds- and domain-checked accessors.

use vstd::prelude::*;

verus! {

/// Side length of the grid; the grid holds `SIZE * SIZE` cells.
pub const SIZE: usize = 9;

/// The internal representation of an empty cell.
pub const EMPTY_CELL: u8 = 0;

/// One cell: `value` is 0 when the cell is empty, otherwise 1..=9;
/// `given` marks a clue cell fixed at puzzle creation.
#[derive(Clone, Copy, PartialEq, Eq, Structural, Debug)]
pub struct Cell {
    pub value: u8,
    pub given: bool,
}

impl Cell {
    pub fn new(value: u8, given: bool) -> (c: Cell)
        ensures
            c.value == value,
            c.given == given,
    {
        Cell { value, given }
    }

    pub fn empty() -> (c: Cell)
        ensures
            c.value == 0,
            !c.given,
    {
        Cell { value: 0, given: false }
    }
}

/// Errors of the grid's checked accessors and of the solver.
#[derive(Clone, Copy, PartialEq, Eq, Structural, Debug)]
pub enum SudokuError {
    /// A coordinate was outside 0..9.
    InvalidPosition,
    /// A value outside 1..=9 was passed to `set_number`.
    InvalidNumber,
    /// The solver's complete mode found no assignment.
    Unsolvable,
}

/// Row index of the flat cell index `i`.
pub open spec fn row_of(i: int) -> int {
    i / 9
}

/// Column index of the flat cell index `i`.
pub open spec fn col_of(i: int) -> int {
    i % 9
}

/// The cells `i` and `j` lie in the same 3x3 box.
pub open spec fn same_box(i: int, j: int) -> bool {
    row_of(i) / 3 == row_of(j) / 3 && col_of(i) / 3 == col_of(j) / 3
}

/// Two cells are peers when they share a row, a column, or a box.
/// A cell is a peer of itself.
pub open spec fn peer(i: int, j: int) -> bool {
    row_of(i) == row_of(j) || col_of(i) == col_of(j) || same_box(i, j)
}

/// Row-major indexing: the cell at (r, c) has flat index r * 9 + c.
pub proof fn lemma_rc_index(r: int, c: int)
    requires
        0 <= r < 9,
        0 <= c < 9,
    ensures
        row_of(r * 9 + c) == r,
        col_of(r * 9 + c) == c,
{
    assert((r * 9 + c) / 9 == r && (r * 9 + c) % 9 == c) by (nonlinear_arith)
        requires
            0 <= r < 9,
            0 <= c < 9,
    ;
}

/// Every flat index decomposes into its row and column.
pub proof fn lemma_index_rc(j: int)
    requires
        0 <= j < 81,
    ensures
        j == 9 * row_of(j) + col_of(j),
        0 <= row_of(j) < 9,
        0 <= col_of(j) < 9,
{
    assert(j == 9 * (j / 9) + j % 9 && 0 <= j / 9 < 9 && 0 <= j % 9 < 9) by (nonlinear_arith)
        requires
            0 <= j < 81,
    ;
}

/// Adding an offset under 3 to a multiple of 3 does not change the
/// quotient by 3.
pub proof fn lemma_box_base(x: int, d: int)
    requires
        0 <= x,
        0 <= d < 3,
    ensures
        ((x / 3) * 3 + d) / 3 == x / 3,
{
    assert(((x / 3) * 3 + d) / 3 == x / 3) by (nonlinear_arith)
        requires
            0 <= x,
            0 <= d < 3,
    ;
}

/// Every non-negative integer lies within 3 of the triple of its
/// quotient by 3.
pub proof fn lemma_div3_range(x: int)
    requires
        0 <= x,
    ensures
        3 * (x / 3) <= x < 3 * (x / 3) + 3,
{
    assert(3 * (x / 3) <= x < 3 * (x / 3) + 3) by (nonlinear_arith)
        requires
            0 <= x,
    ;
}

/// The grid model: a sequence of exactly 81 cells, row-major.
pub open spec fn grid_wf(s: Seq<Cell>) -> bool {
    s.len() == 81
}

/// No value occurs twice among filled peer cells: the grid invariant.
pub open spec fn valid_grid(s: Seq<Cell>) -> bool {
    forall|i: int, j: int|
        0 <= i < 81 && 0 <= j < 81 && i != j && #[trigger] peer(i, j) && s[i].value != 0
            ==> s[i].value != s[j].value
}

/// `value` occurs in no cell that is a peer of `t`, the cell `t` itself excepted.
pub open spec fn can_place_at(s: Seq<Cell>, t: int, value: u8) -> bool {
    forall|j: int| 0 <= j < 81 && #[trigger] peer(t, j) && j != t ==> s[j].value != value
}

/// `value` occurs in no cell that is a peer of `t`, the cell `t` included.
pub open spec fn move_ok(s: Seq<Cell>, t: int, value: u8) -> bool {
    forall|j: int| 0 <= j < 81 && #[trigger] peer(t, j) ==> s[j].value != value
}

/// Every cell at index `k` or beyond is filled.
pub open spec fn full_from(s: Seq<Cell>, k: int) -> bool {
    forall|i: int| k <= i < 81 ==> #[trigger] s[i].value != 0
}

/// Every cell of the grid is filled.
pub open spec fn full(s: Seq<Cell>) -> bool {
    full_from(s, 0)
}

/// Every cell value of the grid lies in 0..=9.
pub open spec fn values_bounded(s: Seq<Cell>) -> bool {
    forall|j: int| 0 <= j < 81 ==> #[trigger] s[j].value <= 9
}

/// `h` is a way to fill the cells of `s` from index `k` on: it is a valid
/// grid, filled everywhere from `k`, holds only values 1..=9 there, agrees
/// with `s` cell for cell below `k`, and keeps every filled cell of `s`.
pub open spec fn completion_from(h: Seq<Cell>, s: Seq<Cell>, k: int) -> bool {
    &&& grid_wf(h)
    &&& valid_grid(h)
    &&& full_from(h, k)
    &&& values_bounded(h)
    &&& forall|j: int| 0 <= j < k ==> #[trigger] h[j].value == s[j].value
    &&& forall|j: int| k <= j < 81 && s[j].value != 0 ==> #[trigger] h[j].value == s[j].value
}

/// The grid `s` has at least one solution: a full valid grid that keeps
/// every filled cell of `s`.
pub open spec fn solvable(s: Seq<Cell>) -> bool {
    exists|h: Seq<Cell>| completion_from(h, s, 0)
}

/// Two grids hold the same value in every cell (their `given` flags may
/// differ).
pub open spec fn same_values(h1: Seq<Cell>, h2: Seq<Cell>) -> bool {
    forall|j: int| 0 <= j < 81 ==> h1[j].value == h2[j].value
}

/// A completion from past a filled cell is a completion from that cell.
pub proof fn lemma_completion_lower(h: Seq<Cell>, s: Seq<Cell>, t: int)
    requires
        0 <= t < 81,
        s[t].value != 0,
        completion_from(h, s, t + 1),
    ensures
        completion_from(h, s, t),
{
    assert(h[t].value == s[t].value);
}

/// A completion of the grid with a value placed at an empty cell is a
/// completion of the grid itself, from that cell on.
pub proof fn lemma_completion_after_place(h: Seq<Cell>, s: Seq<Cell>, t: int, c: Cell)
    requires
        grid_wf(s),
        0 <= t < 81,
        s[t].value == 0,
        c.value != 0,
        completion_from(h, s.update(t, c), t + 1),
    ensures
        completion_from(h, s, t),
{
    let placed = s.update(t, c);
    assert(h[t].value == placed[t].value);
    assert forall|j: int| t <= j < 81 && s[j].value != 0 implies #[trigger] h[j].value
        == s[j].value by {
        assert(placed[j].value == s[j].value);
    }
}

/// A completion survives the dropping of clues: whatever completes a grid
/// also completes any grid whose filled cells are a value-preserving
/// subset of it.
pub proof fn lemma_completion_weaken(h: Seq<Cell>, s1: Seq<Cell>, s2: Seq<Cell>)
    requires
        grid_wf(s2),
        completion_from(h, s1, 0),
        forall|i: int| 0 <= i < 81 && s2[i].value != 0 ==> #[trigger] s2[i].value == s1[i].value,
    ensures
        completion_from(h, s2, 0),
{
    assert forall|j: int| 0 <= j < 81 && s2[j].value != 0 implies #[trigger] h[j].value
        == s2[j].value by {
        assert(s1[j].value == s2[j].value);
        assert(h[j].value == s1[j].value);
    }
}

/// The grid `s` has two value-distinct solutions.
pub open spec fn ambiguous(s: Seq<Cell>) -> bool {
    exists|h1: Seq<Cell>, h2: Seq<Cell>|
        completion_from(h1, s, 0) && completion_from(h2, s, 0) && !same_values(h1, h2)
}

/// Clearing cell `j` of `s` would leave a puzzle with two value-distinct
/// solutions: the removal that uniqueness forbids.
pub open spec fn ambiguous_without(s: Seq<Cell>, j: int) -> bool {
    ambiguous(s.update(j, Cell { value: 0, given: false }))
}

/// Dropping clues keeps ambiguity: a cell whose clearing already allowed
/// two value-distinct solutions still allows them after further cells are
/// cleared.
pub proof fn lemma_ambiguous_monotone(s1: Seq<Cell>, s2: Seq<Cell>, j: int)
    requires
        grid_wf(s1),
        grid_wf(s2),
        0 <= j < 81,
        ambiguous_without(s1, j),
        forall|i: int| 0 <= i < 81 && s2[i].value != 0 ==> #[trigger] s2[i].value == s1[i].value,
    ensures
        ambiguous_without(s2, j),
{
    let c0 = Cell { value: 0, given: false };
    let u1 = s1.update(j, c0);
    let u2 = s2.update(j, c0);
    let (h1, h2) = choose|h1: Seq<Cell>, h2: Seq<Cell>|
        completion_from(h1, u1, 0) && completion_from(h2, u1, 0) && !same_values(h1, h2);
    assert forall|i: int| 0 <= i < 81 && u2[i].value != 0 implies #[trigger] u2[i].value
        == u1[i].value by {
        assert(i != j);
        assert(s2[i].value == s1[i].value);
    }
    lemma_completion_weaken(h1, u1, u2);
    lemma_completion_weaken(h2, u1, u2);
    assert(completion_from(h1, u2, 0) && completion_from(h2, u2, 0) && !same_values(h1, h2));
}

/// How many of the first `n` cells are filled.
pub open spec fn num_filled_upto(s: Seq<Cell>, n: int) -> int
    decreases n,
{
    if n <= 0 {
        0
    } else {
        num_filled_upto(s, n - 1) + if s[n - 1].value != 0 {
            1int
        } else {
            0int
        }
    }
}

/// How many cells of the grid are filled.
pub open spec fn num_filled(s: Seq<Cell>) -> int {
    num_filled_upto(s, 81)
}

/// A value written by `set_number` is retrievable unchanged: after the
/// update that a successful `set_number(row, col, value)` promises, the
/// model holds `value` at (row, col), which is exactly what `get_number`
/// promises to hand back.
pub proof fn lemma_set_number_retrievable(s: Seq<Cell>, row: int, col: int, value: u8)
    requires
        grid_wf(s),
        0 <= row < 9,
        0 <= col < 9,
        1 <= value <= 9,
    ensures
        s.update(row * 9 + col, Cell { value, given: s[row * 9 + col].given })[row * 9 + col].value
            == value,
{
}

/// The 9x9 grid itself. Its view is the flat, row-major cell sequence.
pub struct SudokuGrid {
    cells: Vec<Cell>,
}

impl View for SudokuGrid {
    type V = Seq<Cell>;

    closed spec fn view(&self) -> Seq<Cell> {
        self.cells@
    }
}

impl SudokuGrid {
    /// The grid always holds exactly 81 cells.
    pub open spec fn wf(&self) -> bool {
        grid_wf(self@)
    }

    /// A fresh grid: all 81 cells empty, none given.
    pub fn new() -> (g: SudokuGrid)
        ensures
            g.wf(),
            forall|i: int| 0 <= i < 81 ==> g@[i] == (Cell { value: 0, given: false }),
    {
        let mut cells: Vec<Cell> = Vec::new();
        for n in 0..81
            invariant
                cells@.len() == n,
                forall|i: int| 0 <= i < n ==> cells@[i] == (Cell { value: 0, given: false }),
        {
            cells.push(Cell::empty());
        }
        SudokuGrid { cells }
    }

    /// Unchecked read of the cell at flat index `i`; bounds proved statically.
    pub(crate) fn cell(&self, i: usize) -> (c: Cell)
        requires
            self.wf(),
            i < 81,
        ensures
            c == self@[i as int],
    {
        self.cells[i]
    }

    /// Unchecked write of the value of cell `i`, keeping its `given` flag.
    pub(crate) fn set_value(&mut self, i: usize, v: u8)
        requires
            old(self).wf(),
            i < 81,
        ensures
            final(self).wf(),
            final(self)@ == old(self)@.update(
                i as int,
                (Cell { value: v, given: old(self)@[i as int].given }),
            ),
    {
        let g = self.cells[i].given;
        self.cells.set(i, Cell { value: v, given: g });
    }

    /// Unchecked write of the `given` flag of cell `i`, keeping its value.
    pub(crate) fn set_given_flag(&mut self, i: usize, b: bool)
        requires
            old(self).wf(),
            i < 81,
        ensures
            final(self).wf(),
            final(self)@ == old(self)@.update(
                i as int,
                (Cell { value: old(self)@[i as int].value, given: b }),
            ),
    {
        let v = self.cells[i].value;
        self.cells.set(i, Cell { value: v, given: b });
    }

    /// True iff (row, col) lies inside the 9x9 grid. This check is the single
    /// source of truth for position validity across all consumers.
    pub fn is_valid_position(row: usize, col: usize) -> (r: bool)
        ensures
            r <==> (row < 9 && col < 9),
    {
        row < 9 && col < 9
    }

    /// Replace the value of the cell at (row, col) by `number`, leaving its
    /// `given` flag alone. Rejects coordinates outside the grid and values
    /// outside 1..=9; the rejected call leaves the grid unchanged.
    pub fn set_number(&mut self, row: usize, col: usize, number: u8) -> (r: Result<
        (),
        SudokuError,
    >)
        requires
            old(self).wf(),
        ensures
            final(self).wf(),
            (row >= 9 || col >= 9) ==> r == Err::<(), SudokuError>(SudokuError::InvalidPosition)
                && final(self)@ == old(self)@,
            (row < 9 && col < 9 && !(1 <= number && number <= 9)) ==> r == Err::<(), SudokuError>(
                SudokuError::InvalidNumber,
            ) && final(self)@ == old(self)@,
            (row < 9 && col < 9 && 1 <= number && number <= 9) ==> r == Ok::<(), SudokuError>(())
                && final(self)@ == old(self)@.update(
                row * 9 + col,
                (Cell { value: number, given: old(self)@[row * 9 + col].given }),
            ),
    {
        if !Self::is_valid_position(row, col) {
            return Err(SudokuError::InvalidPosition);
        }
        if number < 1 || number > 9 {
            return Err(SudokuError::InvalidNumber);
        }
        self.set_value(row * 9 + col, number);
        Ok(())
    }

    /// Read the cell value at (row, col): `Ok(None)` for an empty cell,
    /// `Ok(Some(v))` for a filled one. Rejects coordinates outside the grid,
    /// so a bad coordinate is observably distinct from an empty cell.
    pub fn get_number(&self, row: usize, col: usize) -> (r: Result<Option<u8>, SudokuError>)
        requires
            self.wf(),
        ensures
            (row >= 9 || col >= 9) ==> r == Err::<Option<u8>, SudokuError>(
                SudokuError::InvalidPosition,
            ),
            (row < 9 && col < 9) ==> r == Ok::<Option<u8>, SudokuError>(
                if self@[row * 9 + col].value == 0 {
                    None
                } else {
                    Some(self@[row * 9 + col].value)
                },
            ),
    {
        if !Self::is_valid_position(row, col) {
            return Err(SudokuError::InvalidPosition);
        }
        let c = self.cell(row * 9 + col);
        if c.value == 0 {
            Ok(None)
        } else {
            Ok(Some(c.value))
        }
    }

    /// Empty the cell at (row, col), leaving its `given` flag alone: the
    /// distinct clearing operation, so that `set_number` never needs a
    /// sentinel value for "empty".
    pub fn clear_number(&mut self, row: usize, col: usize) -> (r: Result<(), SudokuError>)
        requires
            old(self).wf(),
        ensures
            final(self).wf(),
            (row >= 9 || col >= 9) ==> r == Err::<(), SudokuError>(SudokuError::InvalidPosition)
                && final(self)@ == old(self)@,
            (row < 9 && col < 9) ==> r == Ok::<(), SudokuError>(()) && final(self)@ == old(
                self,
            )@.update(
                row * 9 + col,
                (Cell { value: 0, given: old(self)@[row * 9 + col].given }),
            ),
    {
        if !Self::is_valid_position(row, col) {
            return Err(SudokuError::InvalidPosition);
        }
        self.set_value(row * 9 + col, 0);
        Ok(())
    }

    /// Read the `given` flag of the cell at (row, col). Rejects
    /// coordinates outside the grid.
    pub fn is_given(&self, row: usize, col: usize) -> (r: Result<bool, SudokuError>)
        requires
            self.wf(),
        ensures
            (row >= 9 || col >= 9) ==> r == Err::<bool, SudokuError>(SudokuError::InvalidPosition),
            (row < 9 && col < 9) ==> r == Ok::<bool, SudokuError>(self@[row * 9 + col].given),
    {
        if !Self::is_valid_position(row, col) {
            return Err(SudokuError::InvalidPosition);
        }
        let c = self.cell(row * 9 + col);
        Ok(c.given)
    }

    /// Mark the cell at (row, col) as a given clue, leaving its value alone.
    pub fn mark_given(&mut self, row: usize, col: usize) -> (r: Result<(), SudokuError>)
        requires
            old(self).wf(),
        ensures
            final(self).wf(),
            (row >= 9 || col >= 9) ==> r == Err::<(), SudokuError>(SudokuError::InvalidPosition)
                && final(self)@ == old(self)@,
            (row < 9 && col < 9) ==> r == Ok::<(), SudokuError>(()) && final(self)@ == old(
                self,
            )@.update(
                row * 9 + col,
                (Cell { value: old(self)@[row * 9 + col].value, given: true }),
            ),
    {
        if !Self::is_valid_position(row, col) {
            return Err(SudokuError::InvalidPosition);
        }
        self.set_given_flag(row * 9 + col, true);
        Ok(())
    }
}

} // verus!
