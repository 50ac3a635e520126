//! The constraint validator: decides whether a value may legally occupy a
//! cell given the current grid contents (row, column and 3x3-box
//! uniqueness), and the lemmas that relate placement and clearing to the
//! grid invariant.

use vstd::prelude::*;

use crate::grid::can_place_at;
use crate::grid::col_of;
use crate::grid::grid_wf;
use crate::grid::lemma_box_base;
use crate::grid::lemma_div3_range;
use crate::grid::lemma_index_rc;
use crate::grid::lemma_rc_index;
use crate::grid::move_ok;
use crate::grid::peer;
use crate::grid::row_of;
use crate::grid::same_box;
use crate::grid::valid_grid;
use crate::grid::Cell;
use crate::grid::SudokuGrid;

verus! {

/// Placing a value that no peer holds keeps the grid invariant, whatever
/// the target cell held before.
pub proof fn lemma_place_preserves_valid(s: Seq<Cell>, t: int, c: Cell)
    requires
        grid_wf(s),
        valid_grid(s),
        0 <= t < 81,
        c.value != 0,
        can_place_at(s, t, c.value),
    ensures
        valid_grid(s.update(t, c)),
{
    let s2 = s.update(t, c);
    assert forall|i: int, j: int|
        0 <= i < 81 && 0 <= j < 81 && i != j && #[trigger] peer(i, j) && s2[i].value != 0
            implies s2[i].value != s2[j].value by {
        if i == t {
            assert(peer(t, j));
            assert(s[j].value != c.value);
        } else if j == t {
            assert(peer(t, i));
            assert(s[i].value != c.value);
        } else {
            assert(s2[i] == s[i] && s2[j] == s[j]);
        }
    }
}

/// Emptying a cell keeps the grid invariant.
pub proof fn lemma_clear_preserves_valid(s: Seq<Cell>, t: int, c: Cell)
    requires
        grid_wf(s),
        valid_grid(s),
        0 <= t < 81,
        c.value == 0,
    ensures
        valid_grid(s.update(t, c)),
{
    let s2 = s.update(t, c);
    assert forall|i: int, j: int|
        0 <= i < 81 && 0 <= j < 81 && i != j && #[trigger] peer(i, j) && s2[i].value != 0
            implies s2[i].value != s2[j].value by {
        if i != t && j != t {
            assert(s2[i] == s[i] && s2[j] == s[j]);
        }
    }
}

/// The grid invariant cares only about cell values: a grid with the same
/// values cell for cell (the `given` flags may differ) is valid whenever
/// the original is.
pub proof fn lemma_same_values_valid(s: Seq<Cell>, s2: Seq<Cell>)
    requires
        grid_wf(s),
        grid_wf(s2),
        valid_grid(s),
        forall|i: int| 0 <= i < 81 ==> s2[i].value == s[i].value,
    ensures
        valid_grid(s2),
{
    assert forall|i: int, j: int|
        0 <= i < 81 && 0 <= j < 81 && i != j && #[trigger] peer(i, j) && s2[i].value != 0
            implies s2[i].value != s2[j].value by {
        assert(s[i].value != 0);
    }
}

/// The grid invariant is exactly: every filled cell's value could be placed
/// in its own cell afresh. This is also the idempotence of validation: on a
/// valid grid, re-checking any filled cell reports no conflict.
pub proof fn lemma_valid_iff_each_cell(s: Seq<Cell>)
    requires
        grid_wf(s),
    ensures
        valid_grid(s) <==> (forall|i: int|
            0 <= i < 81 && s[i].value != 0 ==> can_place_at(s, i, #[trigger] s[i].value)),
{
    if valid_grid(s) {
        assert forall|i: int| 0 <= i < 81 && s[i].value != 0 implies can_place_at(
            s,
            i,
            #[trigger] s[i].value,
        ) by {
            assert forall|j: int| 0 <= j < 81 && #[trigger] peer(i, j) && j != i implies s[j].value
                != s[i].value by {
                assert(peer(i, j));
            }
        }
    }
    if (forall|i: int|
        0 <= i < 81 && s[i].value != 0 ==> can_place_at(s, i, #[trigger] s[i].value)) {
        assert forall|i: int, j: int|
            0 <= i < 81 && 0 <= j < 81 && i != j && #[trigger] peer(i, j) && s[i].value != 0
                implies s[i].value != s[j].value by {
            assert(can_place_at(s, i, s[i].value));
        }
    }
}

/// A move is acceptable iff the value could be placed among the peers and
/// the target cell itself does not already hold it.
pub proof fn lemma_move_ok_iff(s: Seq<Cell>, t: int, value: u8)
    requires
        grid_wf(s),
        0 <= t < 81,
    ensures
        move_ok(s, t, value) <==> (can_place_at(s, t, value) && s[t].value != value),
{
    assert(peer(t, t));
    if can_place_at(s, t, value) && s[t].value != value {
        assert forall|j: int| 0 <= j < 81 && #[trigger] peer(t, j) implies s[j].value != value by {
            if j != t {
                assert(s[j].value != value);
            }
        }
    }
}

/// The pure placement check of the validator.
pub struct Validator;

impl Validator {
    /// True iff no other cell in the same row, column or box as (row, col)
    /// already holds `value`. The target cell's own content is not
    /// considered: placing into an already-filled cell is the caller's
    /// decision.
    pub fn can_place(grid: &SudokuGrid, row: usize, col: usize, value: u8) -> (r: bool)
        requires
            grid.wf(),
            row < 9,
            col < 9,
            value >= 1,
        ensures
            r <==> can_place_at(grid@, row * 9 + col, value),
    {
        let t: usize = row * 9 + col;
        // Row scan.
        for k in 0..9usize
            invariant
                grid.wf(),
                row < 9,
                col < 9,
                t == row * 9 + col,
                forall|j: int|
                    #![trigger grid@[j]]
                    9 * row <= j < 9 * row + k && j != (t as int) ==> grid@[j].value != value,
        {
            if k != col {
                let c = grid.cell(row * 9 + k);
                if c.value == value {
                    proof {
                        let jj: int = row * 9 + k;
                        lemma_rc_index(row as int, k as int);
                        lemma_rc_index(row as int, col as int);
                        assert(row_of(jj) == row && row_of((t as int)) == row);
                        assert(peer((t as int), jj) && jj != (t as int));
                        assert(!can_place_at(grid@, (t as int), value));
                    }
                    return false;
                }
            }
        }
        // Column scan.
        for k in 0..9usize
            invariant
                grid.wf(),
                row < 9,
                col < 9,
                t == row * 9 + col,
                forall|j: int|
                    #![trigger grid@[j]]
                    0 <= j < 9 * k && col_of(j) == col && j != (t as int) ==> grid@[j].value != value,
        {
            if k != row {
                let c = grid.cell(k * 9 + col);
                if c.value == value {
                    proof {
                        let jj: int = k * 9 + col;
                        lemma_rc_index(k as int, col as int);
                        lemma_rc_index(row as int, col as int);
                        assert(col_of(jj) == col && col_of((t as int)) == col);
                        assert(peer((t as int), jj) && jj != (t as int));
                        assert(!can_place_at(grid@, (t as int), value));
                    }
                    return false;
                }
            }
            proof {
                assert forall|j: int|
                    #![trigger grid@[j]]
                    0 <= j < 9 * (k + 1) && col_of(j) == col && j != (t as int) implies grid@[j].value
                    != value by {
                    if j >= 9 * k {
                        lemma_index_rc(j);
                        assert(j == 9 * k + col);
                    }
                }
            }
        }
        // Box scan.
        let br: usize = (row / 3) * 3;
        let bc: usize = (col / 3) * 3;
        for a in 0..3usize
            invariant
                grid.wf(),
                row < 9,
                col < 9,
                t == row * 9 + col,
                br == (row / 3) * 3,
                bc == (col / 3) * 3,
                forall|j: int|
                    #![trigger grid@[j]]
                    0 <= j < 81 && br <= row_of(j) < br + a && bc <= col_of(j) < bc + 3 && j != (t as int)
                        ==> grid@[j].value != value,
        {
            for b in 0..3usize
                invariant
                    grid.wf(),
                    row < 9,
                    col < 9,
                    a < 3,
                    t == row * 9 + col,
                    br == (row / 3) * 3,
                    bc == (col / 3) * 3,
                    forall|j: int|
                        #![trigger grid@[j]]
                        0 <= j < 81 && br <= row_of(j) < br + a && bc <= col_of(j) < bc + 3 && j
                            != (t as int) ==> grid@[j].value != value,
                    forall|j: int|
                        #![trigger grid@[j]]
                        0 <= j < 81 && row_of(j) == br + a && bc <= col_of(j) < bc + b && j != (t as int)
                            ==> grid@[j].value != value,
            {
                let rr = br + a;
                let cc = bc + b;
                if !(rr == row && cc == col) {
                    let c = grid.cell(rr * 9 + cc);
                    if c.value == value {
                        proof {
                            let jj: int = rr * 9 + cc;
                            lemma_rc_index(rr as int, cc as int);
                            lemma_rc_index(row as int, col as int);
                            assert(row_of(jj) == rr as int && col_of(jj) == cc as int);
                            assert(row_of((t as int)) == row && col_of((t as int)) == col);
                            lemma_box_base(row as int, a as int);
                            lemma_box_base(col as int, b as int);
                            assert(same_box((t as int), jj));
                            assert(peer((t as int), jj) && jj != (t as int));
                            assert(!can_place_at(grid@, (t as int), value));
                        }
                        return false;
                    }
                }
                proof {
                    assert forall|j: int|
                        #![trigger grid@[j]]
                        0 <= j < 81 && row_of(j) == br + a && bc <= col_of(j) < bc + b + 1 && j
                            != (t as int) implies grid@[j].value != value by {
                        if col_of(j) >= bc + b {
                            lemma_index_rc(j);
                            assert(j == (br + a) * 9 + (bc + b));
                        }
                    }
                }
            }
        }
        proof {
            let s = grid@;
            assert forall|j: int| 0 <= j < 81 && #[trigger] peer((t as int), j) && j != (t as int) implies s[j].value
                != value by {
                lemma_index_rc(j);
                lemma_rc_index(row as int, col as int);
                assert(j == 9 * row_of(j) + col_of(j));
                assert(0 <= row_of(j) < 9 && 0 <= col_of(j) < 9);
                assert(row_of((t as int)) == row && col_of((t as int)) == col);
                if row_of(j) == row {
                    assert(9 * row <= j < 9 * row + 9);
                } else if col_of(j) == col {
                    assert(0 <= j < 81);
                } else {
                    assert(same_box((t as int), j));
                    lemma_div3_range(row_of(j));
                    lemma_div3_range(col_of(j));
                    assert(br <= row_of(j) < br + 3);
                    assert(bc <= col_of(j) < bc + 3);
                }
            }
            assert(can_place_at(grid@, (t as int), value));
        }
        true
    }

    /// True iff the whole grid satisfies the invariant: no value occurs
    /// twice within any row, column or box.
    pub fn is_valid_grid(grid: &SudokuGrid) -> (r: bool)
        requires
            grid.wf(),
        ensures
            r <==> valid_grid(grid@),
    {
        for i in 0..81usize
            invariant
                grid.wf(),
                forall|m: int|
                    0 <= m < i && grid@[m].value != 0 ==> can_place_at(
                        grid@,
                        m,
                        #[trigger] grid@[m].value,
                    ),
        {
            let c = grid.cell(i);
            if c.value != 0 {
                let row = i / 9;
                let col = i % 9;
                proof {
                    lemma_index_rc(i as int);
                    assert(row * 9 + col == i);
                }
                if !Validator::can_place(grid, row, col, c.value) {
                    proof {
                        assert(grid@[i as int].value == c.value);
                        assert(!can_place_at(grid@, i as int, grid@[i as int].value));
                        lemma_valid_iff_each_cell(grid@);
                    }
                    return false;
                }
            }
        }
        proof {
            lemma_valid_iff_each_cell(grid@);
        }
        true
    }
}

} // verus!
