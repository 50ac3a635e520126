//! The puzzle generator: builds a fully solved random grid through the
//! solver, marks every cell as given, then clears random cells one at a
//! time, keeping a clearance only when the solver's count mode still finds
//! exactly one completion, down to a difficulty-determined number of
//! clearances.

use vstd::prelude::*;

use crate::grid::ambiguous;
use crate::grid::ambiguous_without;
use crate::grid::col_of;
use crate::grid::completion_from;
use crate::grid::full;
use crate::grid::grid_wf;
use crate::grid::lemma_ambiguous_monotone;
use crate::grid::lemma_index_rc;
use crate::grid::num_filled;
use crate::grid::num_filled_upto;
use crate::grid::peer;
use crate::grid::row_of;
use crate::grid::same_box;
use crate::grid::same_values;
use crate::grid::solvable;
use crate::grid::valid_grid;
use crate::grid::values_bounded;
use crate::grid::Cell;
use crate::grid::SudokuGrid;
use crate::rng::new_rng;
use crate::rng::rand_below;
use crate::solver::order_complete;
use crate::solver::Solver;
use crate::validator::lemma_clear_preserves_valid;
use crate::validator::lemma_same_values_valid;

verus! {

/// Wrap a sum of a shift and a column back into 0..9.
pub open spec fn wrap9(x: int) -> int {
    if x < 9 {
        x
    } else {
        x - 9
    }
}

/// The cyclic shift of row `r` in the base pattern.
pub open spec fn base_shift(r: int) -> int {
    3 * (r % 3) + r / 3
}

/// The value of cell (r, c) in the deterministic base pattern, a solved
/// grid that exists for every position: 1 + ((3 * (r mod 3) + r div 3 + c) mod 9).
pub open spec fn base_value(r: int, c: int) -> int {
    1 + wrap9(base_shift(r) + c)
}

proof fn lemma_div3_decomp(x: int)
    requires
        0 <= x,
    ensures
        x == 3 * (x / 3) + x % 3,
        0 <= x % 3 < 3,
        0 <= x / 3,
{
    assert(x == 3 * (x / 3) + x % 3 && 0 <= x % 3 < 3 && 0 <= x / 3) by (nonlinear_arith)
        requires
            0 <= x,
    ;
}

proof fn lemma_shift_facts(r: int)
    requires
        0 <= r < 9,
    ensures
        0 <= base_shift(r) <= 8,
{
    lemma_div3_decomp(r);
}

/// The base pattern is a full, valid grid: the witness that an empty grid
/// always has a completion.
pub proof fn lemma_base_pattern_valid(s: Seq<Cell>)
    requires
        grid_wf(s),
        forall|j: int| 0 <= j < 81 ==> s[j].value == base_value(row_of(j), col_of(j)),
    ensures
        valid_grid(s),
        full(s),
{
    assert forall|j: int| 0 <= j < 81 implies #[trigger] s[j].value != 0 by {
        lemma_index_rc(j);
        lemma_shift_facts(row_of(j));
    }
    assert forall|i: int, j: int|
        0 <= i < 81 && 0 <= j < 81 && i != j && #[trigger] peer(i, j) && s[i].value != 0
            implies s[i].value != s[j].value by {
        lemma_index_rc(i);
        lemma_index_rc(j);
        let r1 = row_of(i);
        let c1 = col_of(i);
        let r2 = row_of(j);
        let c2 = col_of(j);
        lemma_shift_facts(r1);
        lemma_shift_facts(r2);
        lemma_div3_decomp(r1);
        lemma_div3_decomp(r2);
        lemma_div3_decomp(c1);
        lemma_div3_decomp(c2);
        let x1 = base_shift(r1) + c1;
        let x2 = base_shift(r2) + c2;
        assert(!(r1 == r2 && c1 == c2));
        if r1 == r2 {
            assert(x1 != x2 && -9 < x1 - x2 < 9);
        } else if c1 == c2 {
            assert(base_shift(r1) != base_shift(r2));
            assert(x1 != x2 && -9 < x1 - x2 < 9);
        } else {
            assert(same_box(i, j));
            assert(c1 - c2 == c1 % 3 - c2 % 3);
            if x1 == x2 {
                assert(3 * (r1 % 3) - 3 * (r2 % 3) == c2 - c1);
                assert(r1 % 3 == r2 % 3);
                assert(r1 == r2);
                assert(false);
            }
            assert(-9 < x1 - x2 < 9);
        }
        assert(wrap9(x1) != wrap9(x2));
    }
}

/// An empty grid always has a solution: the base pattern is one. With a
/// complete candidate order, the solver's complete mode therefore cannot
/// fail on an empty grid.
pub proof fn lemma_empty_grid_solvable(s: Seq<Cell>)
    requires
        grid_wf(s),
        forall|j: int| 0 <= j < 81 ==> #[trigger] s[j].value == 0,
    ensures
        solvable(s),
{
    let h = Seq::new(
        81,
        |j: int| Cell { value: base_value(row_of(j), col_of(j)) as u8, given: false },
    );
    assert forall|j: int| 0 <= j < 81 implies h[j].value == base_value(
        row_of(j),
        #[trigger] col_of(j),
    ) && h[j].value <= 9 by {
        lemma_index_rc(j);
        lemma_shift_facts(row_of(j));
    }
    lemma_base_pattern_valid(h);
    assert(completion_from(h, s, 0));
}

/// Swapping two positions of a sequence leaves its multiset of elements
/// unchanged.
proof fn lemma_swap_to_multiset<T>(s: Seq<T>, i: int, j: int)
    requires
        0 <= i < s.len(),
        0 <= j < s.len(),
    ensures
        s.update(i, s[j]).update(j, s[i]).to_multiset() == s.to_multiset(),
{
    broadcast use vstd::seq_lib::group_to_multiset_ensures;
    broadcast use vstd::multiset::group_multiset_axioms;

    if i == j {
        assert(s.update(i, s[j]).update(j, s[i]) =~= s);
    } else {
        let s1 = s.update(i, s[j]);
        let s2 = s1.update(j, s[i]);
        assert(s1.to_multiset() == s.to_multiset().insert(s[j]).remove(s[i]));
        assert(s1[j] == s[j]);
        assert(s2.to_multiset() == s1.to_multiset().insert(s[i]).remove(s[j]));
        assert(s.contains(s[i]));
        assert(s.to_multiset().count(s[i]) > 0);
        assert(s2.to_multiset() =~= s.to_multiset());
    }
}

/// A property of every element survives any reordering that keeps the
/// multiset of elements.
proof fn lemma_multiset_elems<T>(s1: Seq<T>, s2: Seq<T>, p: spec_fn(T) -> bool)
    requires
        s1.to_multiset() == s2.to_multiset(),
        forall|m: int| 0 <= m < s1.len() ==> #[trigger] p(s1[m]),
    ensures
        forall|k: int| 0 <= k < s2.len() ==> #[trigger] p(s2[k]),
{
    broadcast use vstd::seq_lib::group_to_multiset_ensures;

    assert forall|k: int| 0 <= k < s2.len() implies #[trigger] p(s2[k]) by {
        let x = s2[k];
        assert(s2.contains(x));
        assert(s2.to_multiset().count(x) > 0);
        assert(s1.to_multiset().count(x) > 0);
        assert(s1.contains(x));
        let m = choose|m: int| 0 <= m < s1.len() && s1[m] == x;
        assert(p(s1[m]));
    }
}

/// Put the elements of `v` in a random order (Fisher-Yates): the multiset
/// of elements is kept exactly.
fn shuffle<T: Copy>(v: &mut Vec<T>, rng: &mut rand::rngs::ThreadRng)
    ensures
        final(v)@.len() == old(v)@.len(),
        final(v)@.to_multiset() == old(v)@.to_multiset(),
{
    let n = v.len();
    for i in 0..n
        invariant
            v@.len() == n,
            v@.to_multiset() == old(v)@.to_multiset(),
    {
        let d = rand_below(rng, n - i);
        let j = i + d;
        let a = v[i];
        let b = v[j];
        let ghost before = v@;
        v.set(i, b);
        v.set(j, a);
        proof {
            lemma_swap_to_multiset(before, i as int, j as int);
        }
    }
}

/// How many of the first `n` cells are filled after one cell changes.
proof fn lemma_num_filled_update(s: Seq<Cell>, k: int, c: Cell, n: int)
    requires
        s.len() == 81,
        0 <= k < 81,
        0 <= n <= 81,
    ensures
        num_filled_upto(s.update(k, c), n) == num_filled_upto(s, n) + if k < n {
            (if c.value != 0 {
                1int
            } else {
                0int
            }) - (if s[k].value != 0 {
                1int
            } else {
                0int
            })
        } else {
            0int
        },
    decreases n,
{
    if n > 0 {
        lemma_num_filled_update(s, k, c, n - 1);
    }
}

/// A full grid has all of its first `n` cells filled.
proof fn lemma_num_filled_full(s: Seq<Cell>, n: int)
    requires
        s.len() == 81,
        0 <= n <= 81,
        full(s),
    ensures
        num_filled_upto(s, n) == n,
    decreases n,
{
    if n > 0 {
        lemma_num_filled_full(s, n - 1);
        assert(s[n - 1].value != 0);
    }
}

/// Game difficulty: decides how many cells the generator tries to clear.
#[derive(Clone, Copy, PartialEq, Eq, Structural, Debug)]
pub enum GameLevel {
    Easy,
    Medium,
    Hard,
}

/// The number of cells the generator tries to clear for a difficulty.
pub open spec fn clears_of(level: GameLevel) -> int {
    match level {
        GameLevel::Easy => 40,
        GameLevel::Medium => 50,
        GameLevel::Hard => 60,
    }
}

impl GameLevel {
    /// Map a numeric difficulty code to a level: 1 is Easy, 2 is Medium,
    /// 3 is Hard, and every other code falls back to Easy.
    pub fn from_code(code: u8) -> (level: GameLevel)
        ensures
            level == (if code == 2 {
                GameLevel::Medium
            } else if code == 3 {
                GameLevel::Hard
            } else {
                GameLevel::Easy
            }),
    {
        if code == 2 {
            GameLevel::Medium
        } else if code == 3 {
            GameLevel::Hard
        } else {
            GameLevel::Easy
        }
    }

    /// The clear count of this level: 40 for Easy, 50 for Medium, 60 for
    /// Hard.
    pub fn target_clears(&self) -> (n: u8)
        ensures
            n as int == clears_of(*self),
    {
        match self {
            GameLevel::Easy => 40,
            GameLevel::Medium => 50,
            GameLevel::Hard => 60,
        }
    }
}

impl Default for GameLevel {
    /// The default difficulty is Easy, so an absent choice clears 40 cells.
    fn default() -> (level: GameLevel)
        ensures
            level == GameLevel::Easy,
    {
        GameLevel::Easy
    }
}

/// A random permutation of the candidate values 1..=9.
pub(crate) fn shuffled_order(rng: &mut rand::rngs::ThreadRng) -> (order: Vec<u8>)
    ensures
        order@.len() == 9,
        forall|m: int| 0 <= m < order@.len() ==> 1 <= #[trigger] order@[m] <= 9,
        order_complete(order@),
{
    let mut order: Vec<u8> = Vec::new();
    for v in 1..10u8
        invariant
            order@.len() == v - 1,
            forall|m: int| 0 <= m < order@.len() ==> #[trigger] order@[m] == m + 1,
    {
        order.push(v);
    }
    let ghost order0 = order@;
    shuffle(&mut order, rng);
    proof {
        let p = |x: u8| 1 <= x <= 9;
        assert forall|m: int| 0 <= m < order0.len() implies #[trigger] p(order0[m]) by {
            assert(order0[m] == m + 1);
        }
        lemma_multiset_elems(order0, order@, p);
        assert forall|m: int| 0 <= m < order@.len() implies 1 <= #[trigger] order@[m] <= 9 by {
            assert(p(order@[m]));
        }
        broadcast use vstd::seq_lib::group_to_multiset_ensures;

        assert forall|v: u8| 1 <= v <= 9 implies #[trigger] order@.contains(v) by {
            assert(order0[v - 1] == v);
            assert(order0.contains(v));
            assert(order0.to_multiset().count(v) > 0);
            assert(order@.to_multiset().count(v) > 0);
        }
    }
    order
}

/// A random permutation of the 81 cell positions: every position occurs,
/// each exactly once.
pub(crate) fn shuffled_positions(rng: &mut rand::rngs::ThreadRng) -> (positions: Vec<usize>)
    ensures
        positions@.len() == 81,
        forall|m: int| 0 <= m < positions@.len() ==> #[trigger] positions@[m] < 81,
        forall|x: usize| x < 81 ==> #[trigger] positions@.contains(x),
{
    let mut positions: Vec<usize> = Vec::new();
    for p in 0..81usize
        invariant
            positions@.len() == p,
            forall|m: int| 0 <= m < positions@.len() ==> #[trigger] positions@[m] == m,
    {
        positions.push(p);
    }
    let ghost positions0 = positions@;
    shuffle(&mut positions, rng);
    proof {
        let q = |x: usize| x < 81;
        assert forall|m: int| 0 <= m < positions0.len() implies #[trigger] q(positions0[m]) by {
            assert(positions0[m] == m);
        }
        lemma_multiset_elems(positions0, positions@, q);
        assert forall|m: int| 0 <= m < positions@.len() implies #[trigger] positions@[m] < 81 by {
            assert(q(positions@[m]));
        }
        broadcast use vstd::seq_lib::group_to_multiset_ensures;

        assert forall|x: usize| x < 81 implies #[trigger] positions@.contains(x) by {
            assert(positions0[x as int] == x);
            assert(positions0.contains(x));
            assert(positions0.to_multiset().count(x) > 0);
            assert(positions@.to_multiset().count(x) > 0);
        }
    }
    positions
}

/// Factory that generates puzzles at a requested difficulty.
pub struct SudokuGridFactory;

impl SudokuGridFactory {
    /// The deterministic generator core: `order` drives the solver's
    /// candidate choice and `positions` the order in which cells are tried
    /// for removal, so equal inputs give equal puzzles and a test can fix
    /// both. The result is a valid grid whose filled cells are exactly its
    /// given clues, with exactly one solution; either exactly the
    /// difficulty's clear count of cells was cleared, or every remaining
    /// clue is pinned: clearing it would leave two value-distinct
    /// solutions.
    pub fn generate_grid_from(
        difficulty: GameLevel,
        order: &Vec<u8>,
        positions: &Vec<usize>,
    ) -> (g: SudokuGrid)
        requires
            forall|m: int| 0 <= m < order@.len() ==> 1 <= #[trigger] order@[m] <= 9,
            order_complete(order@),
            positions@.len() == 81,
            forall|m: int| 0 <= m < positions@.len() ==> #[trigger] positions@[m] < 81,
            forall|x: usize| x < 81 ==> #[trigger] positions@.contains(x),
        ensures
            g.wf(),
            valid_grid(g@),
            forall|j: int| 0 <= j < 81 ==> #[trigger] g@[j].value <= 9,
            num_filled(g@) >= 81 - clears_of(difficulty),
            forall|j: int| 0 <= j < 81 ==> (g@[j].given <==> g@[j].value != 0),
            solvable(g@),
            forall|h1: Seq<Cell>, h2: Seq<Cell>|
                completion_from(h1, g@, 0) && completion_from(h2, g@, 0) ==> same_values(h1, h2),
            num_filled(g@) == 81 - clears_of(difficulty) || (forall|j: int|
                0 <= j < 81 && g@[j].value != 0 ==> ambiguous_without(g@, j)),
    {
        let mut grid = SudokuGrid::new();
        proof {
            lemma_empty_grid_solvable(grid@);
        }
        match Solver::complete(&mut grid, order) {
            Ok(()) => (),
            Err(_) => {
                proof {
                    // Unreachable: an empty grid is always solvable, and
                    // the order offers every candidate value.
                    assert(false);
                }
            },
        }
        let ghost solved = grid@;
        for i in 0..81usize
            invariant
                grid.wf(),
                forall|m: int| 0 <= m < 81 ==> grid@[m].value == solved[m].value,
                forall|m: int| 0 <= m < i ==> grid@[m].given,
                grid_wf(solved),
                valid_grid(solved),
                full(solved),
                forall|m: int| 0 <= m < 81 ==> #[trigger] solved[m].value <= 9,
        {
            grid.set_given_flag(i, true);
        }
        proof {
            lemma_same_values_valid(solved, grid@);
            assert forall|j: int| 0 <= j < 81 implies #[trigger] grid@[j].value != 0 by {
                assert(solved[j].value != 0);
            }
            lemma_num_filled_full(grid@, 81);
        }
        // The solved grid stays a completion of the puzzle throughout the
        // removal loop: clearing a cell can never leave it unsolvable.
        let ghost base = grid@;
        proof {
            assert forall|m: int| 0 <= m < 81 implies #[trigger] base[m].value <= 9 by {
                assert(grid@[m].value == solved[m].value);
                assert(solved[m].value <= 9);
            }
            // A full grid pins every completion: the solution is unique
            // before any cell is cleared.
            assert forall|h1: Seq<Cell>, h2: Seq<Cell>|
                completion_from(h1, grid@, 0) && completion_from(h2, grid@, 0) implies same_values(
                h1,
                h2,
            ) by {
                assert forall|j: int| 0 <= j < 81 implies h1[j].value == h2[j].value by {
                    assert(grid@[j].value != 0);
                    assert(h1[j].value == grid@[j].value);
                    assert(h2[j].value == grid@[j].value);
                }
            }
        }
        let target: usize = difficulty.target_clears() as usize;
        let mut cleared: usize = 0;
        let mut k: usize = 0;
        while k < positions.len() && cleared < target
            invariant
                grid.wf(),
                valid_grid(grid@),
                forall|j: int| 0 <= j < 81 ==> (grid@[j].given <==> grid@[j].value != 0),
                num_filled(grid@) == 81 - cleared,
                cleared <= target,
                target <= 60,
                k <= positions@.len(),
                positions@.len() == 81,
                forall|m: int| 0 <= m < positions@.len() ==> #[trigger] positions@[m] < 81,
                grid_wf(base),
                valid_grid(base),
                full(base),
                forall|m: int| 0 <= m < 81 ==> #[trigger] base[m].value <= 9,
                forall|j: int|
                    0 <= j < 81 && grid@[j].value != 0 ==> #[trigger] grid@[j].value
                        == base[j].value,
                forall|h1: Seq<Cell>, h2: Seq<Cell>|
                    #![trigger completion_from(h1, grid@, 0), completion_from(h2, grid@, 0)]
                    completion_from(h1, grid@, 0) && completion_from(h2, grid@, 0) ==> same_values(
                        h1,
                        h2,
                    ),
                forall|t: int|
                    #![trigger positions@[t]]
                    0 <= t < k && grid@[positions@[t] as int].value != 0 ==> ambiguous_without(
                        grid@,
                        positions@[t] as int,
                    ),
            decreases positions@.len() - k,
        {
            let pos = positions[k];
            let c = grid.cell(pos);
            if c.value != 0 {
                let ghost before = grid@;
                grid.set_value(pos, 0);
                grid.set_given_flag(pos, false);
                proof {
                    lemma_clear_preserves_valid(
                        before,
                        pos as int,
                        Cell { value: 0, given: before[pos as int].given },
                    );
                    lemma_same_values_valid(
                        before.update(
                            pos as int,
                            Cell { value: 0, given: before[pos as int].given },
                        ),
                        grid@,
                    );
                    assert(completion_from(base, grid@, 0));
                    assert forall|i: int| 0 <= i < 81 implies #[trigger] grid@[i].value <= 9 by {
                        if grid@[i].value != 0 {
                            assert(grid@[i].value == base[i].value);
                        }
                    }
                    assert(values_bounded(grid@));
                }
                let ghost trial = grid@;
                let n = Solver::count_solutions(&mut grid, 2);
                proof {
                    // Zero solutions cannot occur: the solved grid still
                    // completes the puzzle after any clearing.
                    assert(n >= 1);
                }
                if n == 1 {
                    // The puzzle still has exactly one completion: keep
                    // the cell cleared.
                    cleared = cleared + 1;
                    proof {
                        assert forall|h1: Seq<Cell>, h2: Seq<Cell>|
                            completion_from(h1, grid@, 0) && completion_from(h2, grid@, 0)
                                implies same_values(h1, h2) by {
                            if !same_values(h1, h2) {
                                // the count would then have found two
                                assert(false);
                            }
                        }
                        lemma_num_filled_update(
                            before,
                            pos as int,
                            Cell { value: 0, given: before[pos as int].given },
                            81,
                        );
                        lemma_num_filled_update(
                            before.update(
                                pos as int,
                                Cell { value: 0, given: before[pos as int].given },
                            ),
                            pos as int,
                            Cell { value: 0, given: false },
                            81,
                        );
                        // Cells already found irremovable stay so: their
                        // two completions survive the further clearing.
                        assert forall|i: int|
                            0 <= i < 81 && grid@[i].value != 0 implies #[trigger] grid@[i].value
                            == before[i].value by {
                            assert(i != pos);
                        }
                        assert forall|t: int|
                            #![trigger positions@[t]]
                            0 <= t < k + 1 && grid@[positions@[t] as int].value != 0
                                implies ambiguous_without(grid@, positions@[t] as int) by {
                            let pj = positions@[t] as int;
                            assert(grid@[pj].value != 0);
                            assert(pj != pos);
                            assert(t < k);
                            assert(before[pj].value != 0);
                            assert(ambiguous_without(before, pj));
                            lemma_ambiguous_monotone(before, grid@, pj);
                        }
                    }
                } else {
                    // Ambiguous: a second solution appeared (a count of
                    // zero is proved impossible above), so this cell is
                    // pinned. Restore it, with its given flag, and try
                    // another cell.
                    grid.set_value(pos, c.value);
                    grid.set_given_flag(pos, true);
                    proof {
                        assert(grid@ =~= before);
                        assert(n == 2);
                        let (h1, h2) = choose|h1: Seq<Cell>, h2: Seq<Cell>|
                            completion_from(h1, trial, 0) && completion_from(h2, trial, 0)
                                && !same_values(h1, h2);
                        assert(trial =~= before.update(
                            pos as int,
                            (Cell { value: 0, given: false }),
                        ));
                        assert(ambiguous(before.update(
                            pos as int,
                            (Cell { value: 0, given: false }),
                        )));
                        assert(ambiguous_without(before, pos as int));
                        assert forall|t: int|
                            #![trigger positions@[t]]
                            0 <= t < k + 1 && grid@[positions@[t] as int].value != 0
                                implies ambiguous_without(grid@, positions@[t] as int) by {
                            let pj = positions@[t] as int;
                            if t < k {
                                assert(ambiguous_without(before, pj));
                            } else {
                                assert(pj == pos);
                            }
                        }
                    }
                }
            }
            k = k + 1;
        }
        proof {
            assert(completion_from(base, grid@, 0));
            assert forall|j: int| 0 <= j < 81 implies #[trigger] grid@[j].value <= 9 by {
                if grid@[j].value != 0 {
                    assert(grid@[j].value == base[j].value);
                }
            }
            if cleared < target {
                // Every position was tried once, so each remaining clue
                // is pinned: the removal was maximal.
                assert forall|j: int| 0 <= j < 81 && grid@[j].value != 0 implies ambiguous_without(
                    grid@,
                    j,
                ) by {
                    let x: usize = j as usize;
                    assert(positions@.contains(x));
                    let t = choose|t: int| 0 <= t < positions@.len() && positions@[t] == x;
                    assert(positions@[t] as int == j);
                    assert(grid@[positions@[t] as int].value != 0);
                    assert(ambiguous_without(grid@, positions@[t] as int));
                }
            }
        }
        grid
    }

    /// Generate a puzzle at the requested difficulty, drawing the solver's
    /// candidate order and the removal order afresh, so successive calls
    /// yield distinct puzzles with overwhelming probability. The guarantees
    /// are those of the deterministic core.
    pub fn generate_grid(difficulty: GameLevel) -> (g: SudokuGrid)
        ensures
            g.wf(),
            valid_grid(g@),
            forall|j: int| 0 <= j < 81 ==> #[trigger] g@[j].value <= 9,
            num_filled(g@) >= 81 - clears_of(difficulty),
            forall|j: int| 0 <= j < 81 ==> (g@[j].given <==> g@[j].value != 0),
            solvable(g@),
            forall|h1: Seq<Cell>, h2: Seq<Cell>|
                completion_from(h1, g@, 0) && completion_from(h2, g@, 0) ==> same_values(h1, h2),
            num_filled(g@) == 81 - clears_of(difficulty) || (forall|j: int|
                0 <= j < 81 && g@[j].value != 0 ==> ambiguous_without(g@, j)),
    {
        let mut rng = new_rng();
        let order = shuffled_order(&mut rng);
        let positions = shuffled_positions(&mut rng);
        Self::generate_grid_from(difficulty, &order, &positions)
    }
}

} // verus!
