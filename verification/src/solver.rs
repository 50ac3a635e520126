//! The backtracking solver. Complete mode fills every empty cell of a
//! valid grid, trying candidate values in a caller-supplied order; count
//! mode counts completions up to a cap, which the generator uses with a
//! cap of two to test a puzzle for uniqueness.

use vstd::prelude::*;

use crate::grid::can_place_at;
use crate::grid::completion_from;
use crate::grid::full;
use crate::grid::full_from;
use crate::grid::lemma_completion_after_place;
use crate::grid::lemma_completion_lower;
use crate::grid::lemma_index_rc;
use crate::grid::peer;
use crate::grid::same_values;
use crate::grid::solvable;
use crate::grid::valid_grid;
use crate::grid::values_bounded;
use crate::grid::Cell;
use crate::grid::SudokuError;
use crate::grid::SudokuGrid;
use crate::validator::lemma_place_preserves_valid;
use crate::validator::Validator;

verus! {

/// The candidate order offers every value 1..=9 somewhere: the search can
/// then miss no solution.
pub open spec fn order_complete(o: Seq<u8>) -> bool {
    forall|v: u8| 1 <= v <= 9 ==> #[trigger] o.contains(v)
}

/// Depth-first search over the cells at `idx` and beyond, in row-major
/// order. On success the grid is a valid extension of the input with every
/// cell from `idx` on filled; on failure the grid is put back exactly as
/// it was. Cells filled on entry, and every `given` flag, are never
/// touched.
fn solve_rec(grid: &mut SudokuGrid, idx: usize, order: &Vec<u8>) -> (found: bool)
    requires
        old(grid).wf(),
        valid_grid(old(grid)@),
        idx <= 81,
        forall|m: int| 0 <= m < order@.len() ==> 1 <= #[trigger] order@[m] <= 9,
    ensures
        final(grid).wf(),
        forall|j: int|
            0 <= j < 81 && old(grid)@[j].value != 0 ==> final(grid)@[j] == old(grid)@[j],
        forall|j: int| 0 <= j < 81 ==> final(grid)@[j].given == old(grid)@[j].given,
        found ==> valid_grid(final(grid)@) && full_from(final(grid)@, idx as int),
        forall|j: int|
            0 <= j < 81 ==> final(grid)@[j].value <= 9 || final(grid)@[j].value == old(
                grid,
            )@[j].value,
        !found ==> final(grid)@ == old(grid)@,
        (exists|h: Seq<Cell>| completion_from(h, old(grid)@, idx as int)) && order_complete(
            order@,
        ) ==> found,
    decreases 81 - idx,
{
    if idx == 81 {
        return true;
    }
    let c = grid.cell(idx);
    if c.value != 0 {
        proof {
            if exists|h: Seq<Cell>| completion_from(h, grid@, idx as int) {
                let h = choose|h: Seq<Cell>| completion_from(h, grid@, idx as int);
                assert(h[idx as int].value == grid@[idx as int].value);
                assert(completion_from(h, grid@, idx + 1));
            }
        }
        let found = solve_rec(grid, idx + 1, order);
        return found;
    }
    let row = idx / 9;
    let col = idx % 9;
    proof {
        lemma_index_rc(idx as int);
    }
    let mut m: usize = 0;
    while m < order.len()
        invariant
            grid.wf(),
            valid_grid(grid@),
            grid@ == old(grid)@,
            old(grid)@[idx as int].value == 0,
            idx < 81,
            row == idx / 9,
            col == idx % 9,
            row * 9 + col == idx,
            row < 9,
            col < 9,
            m <= order@.len(),
            forall|q: int| 0 <= q < order@.len() ==> 1 <= #[trigger] order@[q] <= 9,
            order_complete(order@) ==> (forall|h: Seq<Cell>, q: int|
                #![trigger completion_from(h, old(grid)@, idx as int), order@[q]]
                completion_from(h, old(grid)@, idx as int) && 0 <= q < m ==> h[idx as int].value
                    != order@[q]),
        decreases order@.len() - m,
    {
        let v = order[m];
        if Validator::can_place(grid, row, col, v) {
            let ghost before = grid@;
            grid.set_value(idx, v);
            proof {
                lemma_place_preserves_valid(
                    before,
                    idx as int,
                    Cell { value: v, given: before[idx as int].given },
                );
            }
            let ok = solve_rec(grid, idx + 1, order);
            if ok {
                proof {
                    assert(grid@[idx as int].value == v);
                    assert(full_from(grid@, idx as int));
                }
                return true;
            }
            grid.set_value(idx, 0);
            proof {
                assert(grid@ =~= before);
                // The sub-search was exhaustive: no completion places v
                // here, else it would complete the grid with v placed.
                let placed = before.update(
                    idx as int,
                    Cell { value: v, given: before[idx as int].given },
                );
                if order_complete(order@) {
                    assert forall|h: Seq<Cell>|
                        completion_from(h, old(grid)@, idx as int) implies h[idx as int].value
                        != v by {
                        if h[idx as int].value == v {
                            assert(completion_from(h, placed, idx + 1));
                            assert(false);
                        }
                    }
                }
            }
        } else {
            proof {
                // No completion places v here either: its peers filled in
                // the grid would already conflict with it.
                let s0 = grid@;
                assert forall|h: Seq<Cell>|
                    completion_from(h, old(grid)@, idx as int) implies h[idx as int].value != v by {
                    if h[idx as int].value == v {
                        assert forall|j: int|
                            0 <= j < 81 && #[trigger] peer(idx as int, j) && j != idx
                                implies s0[j].value != v by {
                            if s0[j].value != 0 {
                                assert(h[j].value == s0[j].value);
                                assert(peer(j, idx as int));
                                assert(h[j].value != h[idx as int].value);
                            }
                        }
                        assert(can_place_at(s0, idx as int, v));
                        assert(false);
                    }
                }
            }
        }
        m = m + 1;
    }
    proof {
        // Every candidate was refused, and a complete order offers every
        // value a completion could place here: there is no completion.
        if (exists|h: Seq<Cell>| completion_from(h, old(grid)@, idx as int)) && order_complete(
            order@,
        ) {
            let h = choose|h: Seq<Cell>| completion_from(h, old(grid)@, idx as int);
            let hv = h[idx as int].value;
            assert(h[idx as int].value != 0);
            assert(1 <= hv <= 9);
            assert(order@.contains(hv));
            let q = choose|q: int| 0 <= q < order@.len() && order@[q] == hv;
            assert(h[idx as int].value != order@[q]);
            assert(false);
        }
    }
    false
}

/// Count completions of the cells at `idx` and beyond, stopping once `cap`
/// are found. The grid is handed back exactly as it came in.
fn count_rec(grid: &mut SudokuGrid, idx: usize, cap: u32) -> (n: u32)
    requires
        old(grid).wf(),
        valid_grid(old(grid)@),
        idx <= 81,
    ensures
        final(grid).wf(),
        final(grid)@ == old(grid)@,
        n <= cap,
        full_from(old(grid)@, idx as int) && cap >= 1 ==> n == 1,
        (exists|h: Seq<Cell>| completion_from(h, old(grid)@, idx as int)) && cap >= 1 ==> n >= 1,
        (exists|h1: Seq<Cell>, h2: Seq<Cell>|
            completion_from(h1, old(grid)@, idx as int) && completion_from(
                h2,
                old(grid)@,
                idx as int,
            ) && !same_values(h1, h2)) && cap >= 2 ==> n >= 2,
        values_bounded(old(grid)@) && n >= 1 ==> exists|h: Seq<Cell>|
            completion_from(h, old(grid)@, idx as int),
        values_bounded(old(grid)@) && n >= 2 ==> exists|h1: Seq<Cell>, h2: Seq<Cell>|
            completion_from(h1, old(grid)@, idx as int) && completion_from(
                h2,
                old(grid)@,
                idx as int,
            ) && !same_values(h1, h2),
    decreases 81 - idx,
{
    if cap == 0 {
        return 0;
    }
    if idx == 81 {
        proof {
            // The grid itself witnesses its one completion from the end.
            if values_bounded(grid@) {
                assert(completion_from(grid@, grid@, idx as int));
            }
            // Every completion from the end agrees with the grid cell for
            // cell, so no two completions can differ in value.
            if exists|h1: Seq<Cell>, h2: Seq<Cell>|
                completion_from(h1, grid@, idx as int) && completion_from(h2, grid@, idx as int)
                    && !same_values(h1, h2) {
                let (h1, h2) = choose|h1: Seq<Cell>, h2: Seq<Cell>|
                    completion_from(h1, grid@, idx as int) && completion_from(h2, grid@, idx as int)
                        && !same_values(h1, h2);
                assert forall|j: int| 0 <= j < 81 implies h1[j].value == h2[j].value by {
                    assert(h1[j].value == grid@[j].value);
                    assert(h2[j].value == grid@[j].value);
                }
                assert(same_values(h1, h2));
                assert(false);
            }
        }
        return 1;
    }
    let c = grid.cell(idx);
    if c.value != 0 {
        proof {
            if exists|h: Seq<Cell>| completion_from(h, grid@, idx as int) {
                let h = choose|h: Seq<Cell>| completion_from(h, grid@, idx as int);
                assert(h[idx as int].value == grid@[idx as int].value);
                assert(completion_from(h, grid@, idx + 1));
            }
            if exists|h1: Seq<Cell>, h2: Seq<Cell>|
                completion_from(h1, grid@, idx as int) && completion_from(h2, grid@, idx as int)
                    && !same_values(h1, h2) {
                let (h1, h2) = choose|h1: Seq<Cell>, h2: Seq<Cell>|
                    completion_from(h1, grid@, idx as int) && completion_from(h2, grid@, idx as int)
                        && !same_values(h1, h2);
                assert(h1[idx as int].value == grid@[idx as int].value);
                assert(h2[idx as int].value == grid@[idx as int].value);
                assert(completion_from(h1, grid@, idx + 1));
                assert(completion_from(h2, grid@, idx + 1));
            }
        }
        let n = count_rec(grid, idx + 1, cap);
        proof {
            // Whatever the sub-count completed from the next cell is a
            // completion from this filled one.
            if values_bounded(old(grid)@) {
                let kk: int = idx as int + 1;
                if n >= 1 {
                    let h = choose|h: Seq<Cell>| completion_from(h, old(grid)@, kk);
                    lemma_completion_lower(h, old(grid)@, idx as int);
                }
                if n >= 2 {
                    let (h1, h2) = choose|h1: Seq<Cell>, h2: Seq<Cell>|
                        completion_from(h1, old(grid)@, kk) && completion_from(h2, old(grid)@, kk)
                            && !same_values(h1, h2);
                    lemma_completion_lower(h1, old(grid)@, idx as int);
                    lemma_completion_lower(h2, old(grid)@, idx as int);
                }
            }
        }
        return n;
    }
    let row = idx / 9;
    let col = idx % 9;
    proof {
        lemma_index_rc(idx as int);
    }
    let mut total: u32 = 0;
    let mut v: u8 = 1;
    while v <= 9
        invariant
            grid.wf(),
            valid_grid(grid@),
            grid@ == old(grid)@,
            old(grid)@[idx as int].value == 0,
            idx < 81,
            row * 9 + col == idx,
            row < 9,
            col < 9,
            cap >= 1,
            1 <= v <= 10,
            total <= cap,
            total >= 1 || (forall|h: Seq<Cell>|
                #[trigger] completion_from(h, old(grid)@, idx as int) ==> !(1 <= h[idx as int].value
                    < v)),
            cap >= 2 ==> (forall|h1: Seq<Cell>, h2: Seq<Cell>|
                #![trigger completion_from(h1, old(grid)@, idx as int), completion_from(h2, old(grid)@, idx as int)]
                completion_from(h1, old(grid)@, idx as int) && completion_from(
                    h2,
                    old(grid)@,
                    idx as int,
                ) && !same_values(h1, h2) ==> total >= 2 || (h1[idx as int].value >= v
                    && h2[idx as int].value >= v) || (h1[idx as int].value != h2[idx as int].value
                    && total >= 1 && (h1[idx as int].value >= v || h2[idx as int].value >= v))),
            values_bounded(old(grid)@) && total >= 1 ==> exists|h: Seq<Cell>|
                completion_from(h, old(grid)@, idx as int) && h[idx as int].value < v,
            values_bounded(old(grid)@) && total >= 2 ==> exists|h1: Seq<Cell>, h2: Seq<Cell>|
                completion_from(h1, old(grid)@, idx as int) && completion_from(
                    h2,
                    old(grid)@,
                    idx as int,
                ) && !same_values(h1, h2),
        decreases 10 - v,
    {
        if total < cap {
            if Validator::can_place(grid, row, col, v) {
                let ghost before = grid@;
                grid.set_value(idx, v);
                proof {
                    lemma_place_preserves_valid(
                        before,
                        idx as int,
                        Cell { value: v, given: before[idx as int].given },
                    );
                }
                let sub = count_rec(grid, idx + 1, cap - total);
                grid.set_value(idx, 0);
                proof {
                    assert(grid@ =~= before);
                    let placed = before.update(
                        idx as int,
                        Cell { value: v, given: before[idx as int].given },
                    );
                    if sub == 0 {
                        // The sub-count was exhaustive: no completion
                        // places v here, else it would complete the grid
                        // with v placed.
                        assert forall|h: Seq<Cell>|
                            completion_from(h, old(grid)@, idx as int) implies h[idx as int].value
                            != v by {
                            if h[idx as int].value == v {
                                assert(completion_from(h, placed, idx + 1));
                                assert(false);
                            }
                        }
                    }
                    // A completion that places v here is found by the
                    // sub-count; two value-distinct ones force two finds.
                    assert forall|h: Seq<Cell>|
                        completion_from(h, old(grid)@, idx as int) && h[idx as int].value == v
                            implies sub >= 1 by {
                        assert(completion_from(h, placed, idx + 1));
                    }
                    if cap >= 2 {
                        assert forall|h1: Seq<Cell>, h2: Seq<Cell>|
                            completion_from(h1, old(grid)@, idx as int) && completion_from(
                                h2,
                                old(grid)@,
                                idx as int,
                            ) && !same_values(h1, h2) && h1[idx as int].value == v
                                && h2[idx as int].value == v implies total + sub >= 2 by {
                            assert(completion_from(h1, placed, idx + 1));
                            assert(completion_from(h2, placed, idx + 1));
                            assert(sub >= 1);
                            if total == 0 {
                                assert(sub >= 2);
                            }
                        }
                    }
                    // The converse: the sub-count counts only grids it
                    // actually completed, so each counted find yields a
                    // completion that places v here.
                    if values_bounded(old(grid)@) {
                        assert forall|j: int| 0 <= j < 81 implies #[trigger] placed[j].value
                            <= 9 by {
                            if j != idx {
                                assert(old(grid)@[j].value <= 9);
                            }
                        }
                        let kk: int = idx as int + 1;
                        let cv = Cell { value: v, given: before[idx as int].given };
                        if sub >= 1 {
                            let h = choose|h: Seq<Cell>| completion_from(h, placed, kk);
                            lemma_completion_after_place(h, old(grid)@, idx as int, cv);
                            assert(h[idx as int].value == v);
                            assert(completion_from(h, old(grid)@, idx as int) && h[idx
                                as int].value < v + 1);
                        }
                        if sub >= 2 {
                            let (h1, h2) = choose|h1: Seq<Cell>, h2: Seq<Cell>|
                                completion_from(h1, placed, kk) && completion_from(h2, placed, kk)
                                    && !same_values(h1, h2);
                            lemma_completion_after_place(h1, old(grid)@, idx as int, cv);
                            lemma_completion_after_place(h2, old(grid)@, idx as int, cv);
                        }
                        if total >= 1 && sub >= 1 {
                            let ho = choose|h: Seq<Cell>|
                                completion_from(h, old(grid)@, idx as int) && h[idx as int].value
                                    < v;
                            let hn = choose|h: Seq<Cell>| completion_from(h, placed, kk);
                            lemma_completion_after_place(hn, old(grid)@, idx as int, cv);
                            assert(hn[idx as int].value == v);
                            if same_values(ho, hn) {
                                assert(ho[idx as int].value == hn[idx as int].value);
                            }
                            assert(!same_values(ho, hn));
                        }
                    }
                }
                total = total + sub;
            } else {
                proof {
                    // No completion places v here: its peers filled in the
                    // grid would already conflict with it.
                    let s0 = grid@;
                    assert forall|h: Seq<Cell>|
                        completion_from(h, old(grid)@, idx as int) implies h[idx as int].value
                        != v by {
                        if h[idx as int].value == v {
                            assert forall|j: int|
                                0 <= j < 81 && #[trigger] peer(idx as int, j) && j != idx
                                    implies s0[j].value != v by {
                                if s0[j].value != 0 {
                                    assert(h[j].value == s0[j].value);
                                    assert(peer(j, idx as int));
                                    assert(h[j].value != h[idx as int].value);
                                }
                            }
                            assert(can_place_at(s0, idx as int, v));
                            assert(false);
                        }
                    }
                }
            }
        }
        v = v + 1;
    }
    proof {
        // Every value 1..=9 was either counted or refuted, so a completion
        // forces at least one counted solution, and a value-distinct pair
        // of completions forces two.
        if total == 0 && (exists|h: Seq<Cell>| completion_from(h, old(grid)@, idx as int)) {
            let h = choose|h: Seq<Cell>| completion_from(h, old(grid)@, idx as int);
            assert(h[idx as int].value != 0);
            assert(1 <= h[idx as int].value <= 9);
            assert(false);
        }
        if values_bounded(old(grid)@) && total >= 1 {
            let h = choose|h: Seq<Cell>|
                completion_from(h, old(grid)@, idx as int) && h[idx as int].value < v;
            assert(completion_from(h, old(grid)@, idx as int));
        }
        if total < 2 && cap >= 2 && (exists|h1: Seq<Cell>, h2: Seq<Cell>|
            completion_from(h1, old(grid)@, idx as int) && completion_from(
                h2,
                old(grid)@,
                idx as int,
            ) && !same_values(h1, h2)) {
            let (h1, h2) = choose|h1: Seq<Cell>, h2: Seq<Cell>|
                completion_from(h1, old(grid)@, idx as int) && completion_from(
                    h2,
                    old(grid)@,
                    idx as int,
                ) && !same_values(h1, h2);
            assert(h1[idx as int].value != 0 && h2[idx as int].value != 0);
            assert(1 <= h1[idx as int].value <= 9 && 1 <= h2[idx as int].value <= 9);
            assert(false);
        }
    }
    total
}

/// The two-mode search over a grid.
pub struct Solver;

impl Solver {
    /// Complete mode: fill every empty cell of `grid` so that the grid
    /// invariant holds everywhere, trying candidates at each cell in the
    /// order given by `order` (sequential for determinism, shuffled for a
    /// randomised solved grid). On `Ok` the grid is a full, valid
    /// extension of its old contents with every `given` flag unchanged; on
    /// `Err(Unsolvable)` the search was exhaustive and the grid is left
    /// exactly as it was.
    pub fn complete(grid: &mut SudokuGrid, order: &Vec<u8>) -> (r: Result<(), SudokuError>)
        requires
            old(grid).wf(),
            valid_grid(old(grid)@),
            forall|m: int| 0 <= m < order@.len() ==> 1 <= #[trigger] order@[m] <= 9,
        ensures
            final(grid).wf(),
            r is Ok ==> valid_grid(final(grid)@) && full(final(grid)@) && (forall|j: int|
                0 <= j < 81 && old(grid)@[j].value != 0 ==> final(grid)@[j] == old(grid)@[j])
                && (forall|j: int| 0 <= j < 81 ==> final(grid)@[j].given == old(grid)@[j].given),
            forall|j: int|
                0 <= j < 81 ==> final(grid)@[j].value <= 9 || final(grid)@[j].value == old(
                    grid,
                )@[j].value,
            r is Err ==> final(grid)@ == old(grid)@ && r == Err::<(), SudokuError>(
                SudokuError::Unsolvable,
            ),
            solvable(old(grid)@) && order_complete(order@) ==> r is Ok,
    {
        if solve_rec(grid, 0, order) {
            Ok(())
        } else {
            Err(SudokuError::Unsolvable)
        }
    }

    /// Count mode: how many ways the empty cells of `grid` can be filled
    /// so that the invariant holds everywhere, counting up to `cap` (the
    /// uniqueness check passes 2 and asks whether the answer is 1). The
    /// grid is handed back exactly as it came in; a full valid grid counts
    /// as its own single completion.
    pub fn count_solutions(grid: &mut SudokuGrid, cap: u32) -> (n: u32)
        requires
            old(grid).wf(),
            valid_grid(old(grid)@),
        ensures
            final(grid).wf(),
            final(grid)@ == old(grid)@,
            n <= cap,
            full(old(grid)@) && cap >= 1 ==> n == 1,
            solvable(old(grid)@) && cap >= 1 ==> n >= 1,
            (exists|h1: Seq<Cell>, h2: Seq<Cell>|
                completion_from(h1, old(grid)@, 0) && completion_from(h2, old(grid)@, 0)
                    && !same_values(h1, h2)) && cap >= 2 ==> n >= 2,
            values_bounded(old(grid)@) && n >= 1 ==> solvable(old(grid)@),
            values_bounded(old(grid)@) && n >= 2 ==> exists|h1: Seq<Cell>, h2: Seq<Cell>|
                completion_from(h1, old(grid)@, 0) && completion_from(h2, old(grid)@, 0)
                    && !same_values(h1, h2),
    {
        count_rec(grid, 0, cap)
    }
}

} // verus!
