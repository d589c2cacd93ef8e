//! Almost locked sets and the XZ rule, and puzzles that need it.
//!
//! An almost locked set is a set of open cells of one unit that have one candidate more
//! than there are cells. Take two of them without a common cell, and a digit `x` of both
//! whose places in the one all see its places in the other. One of the sets then lacks `x`
//! and holds all its other candidates, so another common digit `z` goes in one of them, and
//! nowhere that all places of `z` in the two sets see.

use super::combos;
use super::combos::combinations;
use super::geometry;
use super::geometry::Dims;
use super::grid::Grid;
use super::guided_removal;
use super::guided_removal::Probe;
use super::masks;
use super::peer_tables;
use super::rater::{RateResult, Rater};
use super::reverse_construct;
use super::rng;
use super::reverse_construct::{batch, judged, Construct, ReverseResult};
use super::solutions;
use super::techniques::{TechniqueId, Tier};
use super::text;
use rand_xoshiro::Xoshiro256PlusPlus;
use vstd::prelude::*;
use vstd::set_lib::*;

verus! {

broadcast use masks::group_masks;

/// The largest set that is looked at.
pub const MAX_ALS_SIZE: usize = 4;

/// What a puzzle has to be like.
#[derive(Clone, Copy, Debug)]
pub struct AlsXzReverseSpec {
    /// The tier of the puzzle, which is that of the rule.
    pub target_tier: Tier,
    pub clue_min: u32,
    pub clue_max: u32,
    /// Limits on the size of the smaller of the two sets.
    pub als_size_min: u32,
    pub als_size_max: u32,
    pub max_attempts: u32,
    /// The puzzle has to be of a harder tier without the rule.
    pub require_load_bearing: bool,
    /// The number of clues that are tried for each seed, `0` for all.
    pub greedy_max_trials: u32,
}

impl AlsXzReverseSpec {
    pub fn new_t3(clue_min: u32, clue_max: u32, max_attempts: u32) -> (r: Self)
        ensures
            r.target_tier == Tier::T3,
            r.clue_min == clue_min,
            r.clue_max == clue_max,
            r.als_size_min == 1,
            r.als_size_max == 4,
            r.max_attempts == max_attempts,
            r.require_load_bearing,
            r.greedy_max_trials == 0,
    {
        AlsXzReverseSpec {
            target_tier: Tier::T3,
            clue_min,
            clue_max,
            als_size_min: 1,
            als_size_max: 4,
            max_attempts,
            require_load_bearing: true,
            greedy_max_trials: 0,
        }
    }

    pub open spec fn is_valid(&self) -> bool {
        &&& self.clue_min <= self.clue_max
        &&& self.target_tier == Tier::T3
        &&& 1 <= self.als_size_min <= self.als_size_max <= 4
    }

    /// Whether the specification can be met; else what is wrong with it first.
    pub fn validate(&self) -> (r: Result<(), String>)
        ensures
            r is Ok == self.is_valid(),
            r matches Err(m) ==> m@ == if self.clue_min > self.clue_max {
                text::band_message(
                    "clue_min"@,
                    self.clue_min as nat,
                    "clue_max"@,
                    self.clue_max as nat,
                )
            } else if self.target_tier != Tier::T3 {
                "target_tier must be T3 (AlsXz is T3)"@
            } else if self.als_size_min == 0 {
                "als_size_min must be >= 1"@
            } else if self.als_size_min > self.als_size_max {
                text::band_message(
                    "als_size_min"@,
                    self.als_size_min as nat,
                    "als_size_max"@,
                    self.als_size_max as nat,
                )
            } else {
                "als_size_max ("@ + text::decimal(self.als_size_max as nat)
                    + ") > 4 — production AlsXz enumerates only sizes 1..=4"@
            },
    {
        if self.clue_min > self.clue_max {
            return Err(
                text::inverted_band(
                    "clue_min",
                    self.clue_min as u64,
                    "clue_max",
                    self.clue_max as u64,
                ),
            );
        }
        if self.target_tier != Tier::T3 {
            return Err(text::owned("target_tier must be T3 (AlsXz is T3)"));
        }
        if self.als_size_min == 0 {
            return Err(text::owned("als_size_min must be >= 1"));
        }
        if self.als_size_min > self.als_size_max {
            return Err(
                text::inverted_band(
                    "als_size_min",
                    self.als_size_min as u64,
                    "als_size_max",
                    self.als_size_max as u64,
                ),
            );
        }
        if self.als_size_max > 4 {
            return Err(
                text::around_number(
                    "als_size_max (",
                    self.als_size_max as u64,
                    ") > 4 — production AlsXz enumerates only sizes 1..=4",
                ),
            );
        }
        Ok(())
    }
}

/// The cells as integers.
pub open spec fn cell_ints(s: Seq<u16>) -> Seq<int> {
    Seq::new(s.len(), |i: int| s[i] as int)
}

/// Some cell has the candidate `d`.
pub open spec fn has_digit(c: Seq<u32>, cells: Seq<u16>, d: int) -> bool {
    exists|k: int| 0 <= k < cells.len() && masks::holds(c[#[trigger] cells[k] as int], d)
}

/// The candidates of several cells together.
pub open spec fn digits_in(c: Seq<u32>, cells: Seq<u16>) -> Set<int> {
    Set::new(|d: int| has_digit(c, cells, d))
}

/// All cells belong to unit `u`.
pub open spec fn all_in_unit(g: Dims, u: int, cells: Seq<u16>) -> bool {
    forall|k: int| 0 <= k < cells.len() ==> g.in_unit(u, #[trigger] cells[k] as int)
}

/// `u` is the first unit that all cells belong to.
pub open spec fn is_first_unit(g: Dims, u: int, cells: Seq<u16>) -> bool {
    &&& g.is_unit(u)
    &&& all_in_unit(g, u, cells)
    &&& forall|v: int| 0 <= v < u ==> !#[trigger] all_in_unit(g, v, cells)
}

/// Open cells in ascending order.
pub open spec fn is_open_list(g: Dims, solved: Seq<int>, cells: Seq<u16>) -> bool {
    &&& combos::increasing(cell_ints(cells))
    &&& forall|k: int|
        0 <= k < cells.len() ==> g.is_cell(#[trigger] cells[k] as int) && solved[cells[k] as int] == 0
}

/// An almost locked set of `size` cells that is met first in unit `u`.
pub open spec fn is_als_at(
    g: Dims,
    c: Seq<u32>,
    solved: Seq<int>,
    cells: Seq<u16>,
    u: int,
    size: int,
) -> bool {
    &&& cells.len() == size
    &&& 1 <= size <= MAX_ALS_SIZE
    &&& is_open_list(g, solved, cells)
    &&& is_first_unit(g, u, cells)
    &&& digits_in(c, cells).len() == size + 1
}

/// An almost locked set.
pub open spec fn is_als(g: Dims, c: Seq<u32>, solved: Seq<int>, cells: Seq<u16>) -> bool {
    exists|u: int| #[trigger] is_als_at(g, c, solved, cells, u, cells.len() as int)
}

/// The order in which the sets are met: by the first unit, then by size, then by cells.
pub open spec fn als_before(g: Dims, a: Seq<u16>, b: Seq<u16>) -> bool {
    exists|u: int, v: int|
        #[trigger] is_first_unit(g, u, a) && #[trigger] is_first_unit(g, v, b) && (u < v || (u == v
            && (a.len() < b.len() || (a.len() == b.len() && combos::lex_lt(
            cell_ints(a),
            cell_ints(b),
        )))))
}

/// `l` lists all almost locked sets in their order.
pub open spec fn lists_alses(g: Dims, c: Seq<u32>, solved: Seq<int>, l: Seq<Seq<u16>>) -> bool {
    &&& forall|k: int| 0 <= k < l.len() ==> is_als(g, c, solved, #[trigger] l[k])
    &&& forall|i: int, j: int| 0 <= i < j < l.len() ==> als_before(g, l[i], l[j])
    &&& forall|a: Seq<u16>| #[trigger] is_als(g, c, solved, a) ==> l.contains(a)
}

/// The two sets share no cell.
pub open spec fn no_common_cell(a: Seq<u16>, b: Seq<u16>) -> bool {
    forall|i: int, j: int| 0 <= i < a.len() && 0 <= j < b.len() ==> a[i] != b[j]
}

/// `x` is a candidate of both, and its places in the one see its places in the other.
pub open spec fn is_restricted_common(g: Dims, c: Seq<u32>, a: Seq<u16>, b: Seq<u16>, x: int) -> bool {
    &&& has_digit(c, a, x)
    &&& has_digit(c, b, x)
    &&& forall|i: int, j: int|
        0 <= i < a.len() && 0 <= j < b.len() && masks::holds(c[#[trigger] a[i] as int], x)
            && masks::holds(c[#[trigger] b[j] as int], x) ==> g.peer(a[i] as int, b[j] as int)
}

/// The open cell `cell` lies outside both sets, has the candidate `z`, and sees all places
/// of `z` in them.
pub open spec fn sees_all(
    g: Dims,
    c: Seq<u32>,
    solved: Seq<int>,
    a: Seq<u16>,
    b: Seq<u16>,
    z: int,
    cell: int,
) -> bool {
    &&& g.is_cell(cell)
    &&& solved[cell] == 0
    &&& masks::holds(c[cell], z)
    &&& forall|i: int|
        0 <= i < a.len() ==> #[trigger] a[i] != cell && (masks::holds(c[a[i] as int], z) ==> g.peer(
            cell,
            a[i] as int,
        ))
    &&& forall|j: int|
        0 <= j < b.len() ==> #[trigger] b[j] != cell && (masks::holds(c[b[j] as int], z) ==> g.peer(
            cell,
            b[j] as int,
        ))
}

/// The rule with the digits `x` and `z` rules `z` out in `cell`.
pub open spec fn xz_kills(
    g: Dims,
    c: Seq<u32>,
    solved: Seq<int>,
    a: Seq<u16>,
    b: Seq<u16>,
    x: int,
    z: int,
    cell: int,
) -> bool {
    &&& no_common_cell(a, b)
    &&& x != z
    &&& is_restricted_common(g, c, a, b, x)
    &&& has_digit(c, a, z)
    &&& has_digit(c, b, z)
    &&& sees_all(g, c, solved, a, b, z, cell)
}

/// The rule rules something out for the sets `a` and `b`.
pub open spec fn xz_fires(
    g: Dims,
    c: Seq<u32>,
    solved: Seq<int>,
    a: Seq<u16>,
    b: Seq<u16>,
) -> bool {
    exists|x: int, z: int, cell: int| #[trigger] xz_kills(g, c, solved, a, b, x, z, cell)
}

/// An almost locked set without one of its candidates holds each of the others.
proof fn lemma_locked(
    g: Dims,
    c: Seq<u32>,
    solved: Seq<int>,
    cells: Seq<u16>,
    s: Seq<int>,
    z: int,
    x: int,
) -> (i: int)
    requires
        g.ok(),
        solutions::solutions(g, c).contains(s),
        is_als(g, c, solved, cells),
        has_digit(c, cells, z),
        has_digit(c, cells, x),
        x != z,
        forall|k: int| 0 <= k < cells.len() ==> s[#[trigger] cells[k] as int] != z,
    ensures
        0 <= i < cells.len(),
        s[cells[i] as int] == x,
{
    let u = choose|u: int| #[trigger] is_als_at(g, c, solved, cells, u, cells.len() as int);
    let all = digits_in(c, cells);
    lemma_int_range(1, 33);
    assert(all.subset_of(set_int_range(1, 33)));
    lemma_set_subset_finite(set_int_range(1, 33), all);
    let rest = all.remove(z);
    let f = Seq::new(cells.len(), |k: int| s[cells[k] as int]);
    assert forall|k: int| 0 <= k < f.len() implies rest.contains(#[trigger] f[k]) by {
        assert(g.is_cell(cells[k] as int));
        assert(masks::holds(c[cells[k] as int], s[cells[k] as int]));
    }
    assert forall|k: int, l: int| 0 <= k < l < f.len() implies f[k] != f[l] by {
        let p = cells[k] as int;
        let q = cells[l] as int;
        assert(cell_ints(cells)[k] < cell_ints(cells)[l]);
        assert(g.is_cell(p) && g.is_cell(q));
        assert(g.in_unit(u, p) && g.in_unit(u, q));
        geometry::lemma_peer_unit(g, p, q);
    }
    assert(f.no_duplicates());
    solutions::lemma_pigeonhole(f, rest, x)
}

/// The rule is right: no solution has `z` in a cell where the rule takes it away.
pub proof fn law_als_xz_sound(
    g: Dims,
    c: Seq<u32>,
    solved: Seq<int>,
    a: Seq<u16>,
    b: Seq<u16>,
    x: int,
    z: int,
    cell: int,
    s: Seq<int>,
)
    requires
        g.ok(),
        is_als(g, c, solved, a),
        is_als(g, c, solved, b),
        xz_kills(g, c, solved, a, b, x, z, cell),
        solutions::solutions(g, c).contains(s),
    ensures
        s[cell] != z,
{
    if s[cell] == z {
        assert forall|k: int| 0 <= k < a.len() implies s[#[trigger] a[k] as int] != z by {
            let u = choose|u: int| #[trigger] is_als_at(g, c, solved, a, u, a.len() as int);
            assert(g.is_cell(a[k] as int));
            assert(masks::holds(c[a[k] as int], s[a[k] as int]));
            if s[a[k] as int] == z {
                assert(g.peer(cell, a[k] as int));
            }
        }
        assert forall|k: int| 0 <= k < b.len() implies s[#[trigger] b[k] as int] != z by {
            let u = choose|u: int| #[trigger] is_als_at(g, c, solved, b, u, b.len() as int);
            assert(g.is_cell(b[k] as int));
            assert(masks::holds(c[b[k] as int], s[b[k] as int]));
            if s[b[k] as int] == z {
                assert(g.peer(cell, b[k] as int));
            }
        }
        let i = lemma_locked(g, c, solved, a, s, z, x);
        let j = lemma_locked(g, c, solved, b, s, z, x);
        let ua = choose|u: int| #[trigger] is_als_at(g, c, solved, a, u, a.len() as int);
        let ub = choose|u: int| #[trigger] is_als_at(g, c, solved, b, u, b.len() as int);
        assert(g.is_cell(a[i] as int) && g.is_cell(b[j] as int));
        assert(masks::holds(c[a[i] as int], s[a[i] as int]));
        assert(masks::holds(c[b[j] as int], s[b[j] as int]));
        assert(g.peer(a[i] as int, b[j] as int));
    }
}

/// The candidates of several cells together.
fn mask_of<const N: usize, const BR: usize, const BC: usize>(
    grid: &Grid<N, BR, BC>,
    cells: &[u16],
) -> (m: u32)
    requires
        grid.wf(),
        forall|k: int| 0 <= k < cells@.len() ==> (#[trigger] cells@[k]) < N * N,
    ensures
        forall|d: int| #[trigger] masks::holds(m, d) == has_digit(grid.candidates@, cells@, d),
{
    let ghost c = grid.candidates@;
    let mut m: u32 = 0;
    let mut k: usize = 0;
    while k < cells.len()
        invariant
            grid.wf(),
            c == grid.candidates@,
            forall|j: int| 0 <= j < cells@.len() ==> (#[trigger] cells@[j]) < N * N,
            k <= cells@.len(),
            forall|d: int| #[trigger]
                masks::holds(m, d) == exists|j: int|
                    0 <= j < k && masks::holds(c[#[trigger] cells@[j] as int], d),
        decreases cells@.len() - k,
    {
        let ghost m0 = m;
        assert(cells@[k as int] < N * N);
        m = m | grid.candidates[cells[k] as usize];
        proof {
            assert forall|d: int| #[trigger] masks::holds(m, d) == exists|j: int|
                0 <= j < k + 1 && masks::holds(c[#[trigger] cells@[j] as int], d) by {
                if masks::holds(m0, d) {
                    let j = choose|j: int|
                        0 <= j < k && masks::holds(c[#[trigger] cells@[j] as int], d);
                    assert(masks::holds(c[cells@[j] as int], d));
                } else if masks::holds(c[cells@[k as int] as int], d) {
                    assert(masks::holds(m, d));
                }
            }
        }
        k += 1;
    }
    m
}

/// Whether two cells are peers.
pub fn shares_unit<const N: usize, const BR: usize, const BC: usize>(
    grid: &Grid<N, BR, BC>,
    a: usize,
    b: usize,
) -> (r: bool)
    requires
        grid.wf(),
        a < N * N,
        b < N * N,
    ensures
        r == Grid::<N, BR, BC>::shape().peer(a as int, b as int),
{
    let x = &grid.table.cells[a];
    let y = &grid.table.cells[b];
    proof {
        assert(x.wf(Grid::<N, BR, BC>::shape(), a as int));
        assert(y.wf(Grid::<N, BR, BC>::shape(), b as int));
    }
    a != b && (x.row == y.row || x.col == y.col || x.block == y.block)
}

/// Whether the places of `x` in `a` all see its places in `b`.
fn restricted_common<const N: usize, const BR: usize, const BC: usize>(
    grid: &Grid<N, BR, BC>,
    a: &[u16],
    b: &[u16],
    x: u8,
) -> (r: bool)
    requires
        grid.wf(),
        1 <= x <= 32,
        forall|k: int| 0 <= k < a@.len() ==> (#[trigger] a@[k]) < N * N,
        forall|k: int| 0 <= k < b@.len() ==> (#[trigger] b@[k]) < N * N,
        has_digit(grid.candidates@, a@, x as int),
        has_digit(grid.candidates@, b@, x as int),
    ensures
        r == is_restricted_common(
            Grid::<N, BR, BC>::shape(),
            grid.candidates@,
            a@,
            b@,
            x as int,
        ),
{
    let ghost g = Grid::<N, BR, BC>::shape();
    let ghost c = grid.candidates@;
    let bit: u32 = masks::digit_bit(x);
    let mut i: usize = 0;
    while i < a.len()
        invariant
            grid.wf(),
            g == Grid::<N, BR, BC>::shape(),
            c == grid.candidates@,
            bit == masks::bit(x as int),
            1 <= x <= 32,
            forall|k: int| 0 <= k < a@.len() ==> (#[trigger] a@[k]) < N * N,
            forall|k: int| 0 <= k < b@.len() ==> (#[trigger] b@[k]) < N * N,
            i <= a@.len(),
            forall|k: int, l: int|
                0 <= k < i && 0 <= l < b@.len() && masks::holds(c[#[trigger] a@[k] as int], x as int)
                    && masks::holds(c[#[trigger] b@[l] as int], x as int) ==> g.peer(
                    a@[k] as int,
                    b@[l] as int,
                ),
        decreases a@.len() - i,
    {
        assert(a@[i as int] < N * N);
        let p: usize = a[i] as usize;
        if grid.candidates[p] & bit != 0 {
            assert(masks::holds(c[a@[i as int] as int], x as int));
            let mut j: usize = 0;
            while j < b.len()
                invariant
                    grid.wf(),
                    g == Grid::<N, BR, BC>::shape(),
                    c == grid.candidates@,
                    bit == masks::bit(x as int),
                    1 <= x <= 32,
                    i < a@.len(),
                    p == a@[i as int],
                    p < N * N,
                    masks::holds(c[a@[i as int] as int], x as int),
                    forall|k: int| 0 <= k < b@.len() ==> (#[trigger] b@[k]) < N * N,
                    j <= b@.len(),
                    forall|l: int|
                        0 <= l < j && masks::holds(c[#[trigger] b@[l] as int], x as int) ==> g.peer(
                            p as int,
                            b@[l] as int,
                        ),
                decreases b@.len() - j,
            {
                assert(b@[j as int] < N * N);
                let q: usize = b[j] as usize;
                if grid.candidates[q] & bit != 0 {
                    assert(masks::holds(c[b@[j as int] as int], x as int));
                    if !shares_unit(grid, p, q) {
                        return false;
                    }
                } else {
                    assert(!masks::holds(c[b@[j as int] as int], x as int));
                }
                j += 1;
            }
        } else {
            assert(!masks::holds(c[a@[i as int] as int], x as int));
        }
        i += 1;
    }
    true
}

/// Whether `cell` lies outside the set and sees all places of `z` in it.
fn sees_set<const N: usize, const BR: usize, const BC: usize>(
    grid: &Grid<N, BR, BC>,
    cells: &[u16],
    bit: u32,
    cell: usize,
    Ghost(z): Ghost<int>,
) -> (r: bool)
    requires
        grid.wf(),
        cell < N * N,
        1 <= z <= 32,
        bit == masks::bit(z),
        forall|k: int| 0 <= k < cells@.len() ==> (#[trigger] cells@[k]) < N * N,
    ensures
        r == forall|i: int|
            0 <= i < cells@.len() ==> #[trigger] cells@[i] != cell && (masks::holds(
                grid.candidates@[cells@[i] as int],
                z,
            ) ==> Grid::<N, BR, BC>::shape().peer(cell as int, cells@[i] as int)),
{
    let ghost g = Grid::<N, BR, BC>::shape();
    let ghost c = grid.candidates@;
    let mut k: usize = 0;
    while k < cells.len()
        invariant
            grid.wf(),
            g == Grid::<N, BR, BC>::shape(),
            c == grid.candidates@,
            cell < N * N,
            1 <= z <= 32,
            bit == masks::bit(z),
            forall|k: int| 0 <= k < cells@.len() ==> (#[trigger] cells@[k]) < N * N,
            k <= cells@.len(),
            forall|i: int|
                0 <= i < k ==> #[trigger] cells@[i] != cell && (masks::holds(
                    c[cells@[i] as int],
                    z,
                ) ==> g.peer(cell as int, cells@[i] as int)),
        decreases cells@.len() - k,
    {
        assert(cells@[k as int] < N * N);
        let p: usize = cells[k] as usize;
        if p == cell {
            assert(cells@[k as int] == cell);
            return false;
        }
        if grid.candidates[p] & bit != 0 {
            assert(masks::holds(c[cells@[k as int] as int], z));
            if !shares_unit(grid, cell, p) {
                return false;
            }
        } else {
            assert(!masks::holds(c[cells@[k as int] as int], z));
        }
        k += 1;
    }
    true
}

/// The first cell in which the rule with `z` rules it out.
fn find_cell<const N: usize, const BR: usize, const BC: usize>(
    grid: &Grid<N, BR, BC>,
    a: &[u16],
    b: &[u16],
    z: u8,
) -> (r: Option<usize>)
    requires
        grid.wf(),
        1 <= z <= 32,
        forall|k: int| 0 <= k < a@.len() ==> (#[trigger] a@[k]) < N * N,
        forall|k: int| 0 <= k < b@.len() ==> (#[trigger] b@[k]) < N * N,
    ensures
        r matches Some(cell) ==> sees_all(
            Grid::<N, BR, BC>::shape(),
            grid.candidates@,
            solutions::digits_of(grid.solved@),
            a@,
            b@,
            z as int,
            cell as int,
        ),
        r is None ==> forall|cell: int| !#[trigger] sees_all(
            Grid::<N, BR, BC>::shape(),
            grid.candidates@,
            solutions::digits_of(grid.solved@),
            a@,
            b@,
            z as int,
            cell,
        ),
{
    let ghost g = Grid::<N, BR, BC>::shape();
    let ghost c = grid.candidates@;
    let ghost t = solutions::digits_of(grid.solved@);
    proof {
        peer_tables::lemma_cells_bound(g);
    }
    let bit: u32 = masks::digit_bit(z);
    let nn: usize = N * N;
    let mut cell: usize = 0;
    while cell < nn
        invariant
            grid.wf(),
            g == Grid::<N, BR, BC>::shape(),
            c == grid.candidates@,
            t == solutions::digits_of(grid.solved@),
            nn == N * N,
            nn == g.cells(),
            1 <= z <= 32,
            bit == masks::bit(z as int),
            forall|k: int| 0 <= k < a@.len() ==> (#[trigger] a@[k]) < N * N,
            forall|k: int| 0 <= k < b@.len() ==> (#[trigger] b@[k]) < N * N,
            cell <= nn,
            forall|x: int|
                0 <= x < cell ==> !#[trigger] sees_all(g, c, t, a@, b@, z as int, x),
        decreases nn - cell,
    {
        assert(t[cell as int] == grid.solved@[cell as int]);
        if grid.solved[cell] == 0 && grid.candidates[cell] & bit != 0 {
            assert(masks::holds(c[cell as int], z as int));
            if sees_set(grid, a, bit, cell, Ghost(z as int)) && sees_set(
                grid,
                b,
                bit,
                cell,
                Ghost(z as int),
            ) {
                return Some(cell);
            }
        } else if grid.solved[cell] == 0 {
            assert(!masks::holds(c[cell as int], z as int));
        }
        cell += 1;
    }
    None
}

/// Whether the sets share no cell.
fn are_disjoint(a: &[u16], b: &[u16]) -> (r: bool)
    ensures
        r == no_common_cell(a@, b@),
{
    let mut i: usize = 0;
    while i < a.len()
        invariant
            i <= a@.len(),
            forall|k: int, l: int| 0 <= k < i && 0 <= l < b@.len() ==> a@[k] != b@[l],
        decreases a@.len() - i,
    {
        let mut j: usize = 0;
        while j < b.len()
            invariant
                i < a@.len(),
                j <= b@.len(),
                forall|l: int| 0 <= l < j ==> a@[i as int] != b@[l],
            decreases b@.len() - j,
        {
            if a[i] == b[j] {
                return false;
            }
            j += 1;
        }
        i += 1;
    }
    true
}

/// The first digit and cell that the rule rules out for the sets `a` and `b`: by the digit
/// `x`, then by `z`, then by the cell.
fn find_xz<const N: usize, const BR: usize, const BC: usize>(
    grid: &Grid<N, BR, BC>,
    a: &[u16],
    b: &[u16],
) -> (r: Option<(u8, u8, usize)>)
    requires
        grid.wf(),
        forall|k: int| 0 <= k < a@.len() ==> (#[trigger] a@[k]) < N * N,
        forall|k: int| 0 <= k < b@.len() ==> (#[trigger] b@[k]) < N * N,
    ensures
        r is Some == xz_fires(
            Grid::<N, BR, BC>::shape(),
            grid.candidates@,
            solutions::digits_of(grid.solved@),
            a@,
            b@,
        ),
        r matches Some((x, z, cell)) ==> xz_kills(
            Grid::<N, BR, BC>::shape(),
            grid.candidates@,
            solutions::digits_of(grid.solved@),
            a@,
            b@,
            x as int,
            z as int,
            cell as int,
        ),
{
    let ghost g = Grid::<N, BR, BC>::shape();
    let ghost c = grid.candidates@;
    let ghost t = solutions::digits_of(grid.solved@);
    if !are_disjoint(a, b) {
        return None;
    }
    let common: u32 = mask_of(grid, a) & mask_of(grid, b);
    let mut x: u8 = 1;
    while x <= 32
        invariant
            grid.wf(),
            g == Grid::<N, BR, BC>::shape(),
            c == grid.candidates@,
            t == solutions::digits_of(grid.solved@),
            forall|k: int| 0 <= k < a@.len() ==> (#[trigger] a@[k]) < N * N,
            forall|k: int| 0 <= k < b@.len() ==> (#[trigger] b@[k]) < N * N,
            no_common_cell(a@, b@),
            forall|d: int| #[trigger]
                masks::holds(common, d) == (has_digit(c, a@, d) && has_digit(c, b@, d)),
            1 <= x <= 33,
            forall|y: int, z: int, cell: int|
                y < x ==> !#[trigger] xz_kills(g, c, t, a@, b@, y, z, cell),
        decreases 33 - x,
    {
        let x_bit: u32 = masks::digit_bit(x);
        if common & x_bit != 0 {
            assert(masks::holds(common, x as int));
            if restricted_common(grid, a, b, x) {
                let mut z: u8 = 1;
                while z <= 32
                    invariant
                        grid.wf(),
                        g == Grid::<N, BR, BC>::shape(),
                        c == grid.candidates@,
                        t == solutions::digits_of(grid.solved@),
                        forall|k: int| 0 <= k < a@.len() ==> (#[trigger] a@[k]) < N * N,
                        forall|k: int| 0 <= k < b@.len() ==> (#[trigger] b@[k]) < N * N,
                        no_common_cell(a@, b@),
                        forall|d: int| #[trigger]
                            masks::holds(common, d) == (has_digit(c, a@, d) && has_digit(c, b@, d)),
                        1 <= x <= 32,
                        is_restricted_common(g, c, a@, b@, x as int),
                        1 <= z <= 33,
                        forall|y: int, cell: int|
                            y < z ==> !#[trigger] xz_kills(g, c, t, a@, b@, x as int, y, cell),
                    decreases 33 - z,
                {
                    let z_bit: u32 = masks::digit_bit(z);
                    if z != x && common & z_bit != 0 {
                        assert(masks::holds(common, z as int));
                        if let Some(cell) = find_cell(grid, a, b, z) {
                            assert(xz_kills(
                                g,
                                c,
                                t,
                                a@,
                                b@,
                                x as int,
                                z as int,
                                cell as int,
                            ));
                            return Some((x, z, cell));
                        }
                    } else if z != x {
                        assert(!masks::holds(common, z as int));
                    }
                    z += 1;
                }
                assert forall|y: int, cell: int| !#[trigger] xz_kills(
                    g,
                    c,
                    t,
                    a@,
                    b@,
                    x as int,
                    y,
                    cell,
                ) by {
                    if y > 32 {
                        assert(!has_digit(c, a@, y));
                    }
                }
            }
        } else {
            assert(!masks::holds(common, x as int));
        }
        x += 1;
    }
    proof {
        assert forall|y: int, z: int, cell: int| !#[trigger] xz_kills(g, c, t, a@, b@, y, z, cell) by {
            if y > 32 {
                assert(!has_digit(c, a@, y));
            }
        }
    }
    None
}

/// Whether the rule rules something out for the sets `a` and `b`. Nothing is changed.
pub fn try_als_xz_eliminate_dryrun<const N: usize, const BR: usize, const BC: usize>(
    grid: &Grid<N, BR, BC>,
    a_cells: &[u16],
    b_cells: &[u16],
) -> (r: bool)
    requires
        grid.wf(),
        forall|k: int| 0 <= k < a_cells@.len() ==> (#[trigger] a_cells@[k]) < N * N,
        forall|k: int| 0 <= k < b_cells@.len() ==> (#[trigger] b_cells@[k]) < N * N,
    ensures
        r == xz_fires(
            Grid::<N, BR, BC>::shape(),
            grid.candidates@,
            solutions::digits_of(grid.solved@),
            a_cells@,
            b_cells@,
        ),
{
    find_xz(grid, a_cells, b_cells).is_some()
}

/// The open cells of a unit in ascending order.
fn open_cells<const N: usize, const BR: usize, const BC: usize>(
    grid: &Grid<N, BR, BC>,
    u: usize,
) -> (v: Vec<u16>)
    requires
        grid.wf(),
        u < 3 * N,
    ensures
        is_open_list(
            Grid::<N, BR, BC>::shape(),
            solutions::digits_of(grid.solved@),
            v@,
        ),
        all_in_unit(Grid::<N, BR, BC>::shape(), u as int, v@),
        forall|i: int|
            Grid::<N, BR, BC>::shape().is_cell(i) && grid.solved@[i] == 0
                && #[trigger] Grid::<N, BR, BC>::shape().in_unit(u as int, i) ==> cell_ints(
                v@,
            ).contains(i),
        v@.len() <= N,
{
    let ghost g = Grid::<N, BR, BC>::shape();
    let ghost t = solutions::digits_of(grid.solved@);
    let ghost ui = u as int;
    assert(peer_tables::lists_unit(g, ui, grid.table.units@[ui]@));
    let mut v: Vec<u16> = Vec::new();
    let mut k: usize = 0;
    while k < N
        invariant
            grid.wf(),
            g == Grid::<N, BR, BC>::shape(),
            t == solutions::digits_of(grid.solved@),
            ui == u,
            g.is_unit(ui),
            u < grid.table.units@.len(),
            peer_tables::lists_unit(g, ui, grid.table.units@[ui]@),
            k <= N,
            v@.len() <= k,
            is_open_list(g, t, v@),
            all_in_unit(g, ui, v@),
            forall|j: int|
                0 <= j < v@.len() ==> k < N ==> (#[trigger] v@[j]) < g.unit_cell(ui, k as int),
            forall|l: int|
                0 <= l < k && t[#[trigger] g.unit_cell(ui, l)] == 0 ==> cell_ints(v@).contains(
                    g.unit_cell(ui, l),
                ),
        decreases N - k,
    {
        let ghost v0 = v@;
        let ghost cell = g.unit_cell(ui, k as int);
        proof {
            geometry::lemma_unit_cell(g, ui, k as int);
            assert(grid.table.units@[ui]@[k as int] == cell);
            if k + 1 < N {
                geometry::lemma_unit_ascending(g, ui, k as int, k as int + 1);
            }
        }
        let c: u16 = grid.table.units[u][k];
        assert(t[cell] == grid.solved@[cell]);
        if grid.solved[c as usize] == 0 {
            v.push(c);
        }
        proof {
            assert forall|i: int, j: int| 0 <= i < j < v@.len() implies cell_ints(v@)[i] < cell_ints(
                v@,
            )[j] by {
                if j < v0.len() {
                    assert(cell_ints(v0)[i] < cell_ints(v0)[j]);
                }
            }
            assert forall|l: int| 0 <= l < k + 1 && t[#[trigger] g.unit_cell(ui, l)] == 0 implies cell_ints(
                v@,
            ).contains(g.unit_cell(ui, l)) by {
                if l == k {
                    assert(cell_ints(v@)[v@.len() - 1] == cell);
                } else {
                    let x = g.unit_cell(ui, l);
                    assert(cell_ints(v0).contains(x));
                    let j = choose|j: int| 0 <= j < cell_ints(v0).len() && cell_ints(v0)[j] == x;
                    assert(cell_ints(v@)[j] == x);
                }
            }
        }
        k += 1;
    }
    proof {
        assert forall|i: int|
            g.is_cell(i) && grid.solved@[i] == 0 && #[trigger] g.in_unit(ui, i) implies cell_ints(
            v@,
        ).contains(i) by {
            geometry::lemma_unit_pos(g, ui, i);
            assert(t[g.unit_cell(ui, g.unit_pos(ui, i))] == 0);
        }
    }
    v
}

/// Whether all cells belong to a unit before `u`.
fn met_before<const N: usize, const BR: usize, const BC: usize>(
    grid: &Grid<N, BR, BC>,
    cells: &Vec<u16>,
    u: usize,
) -> (r: bool)
    requires
        grid.wf(),
        u < 3 * N,
        0 < cells@.len(),
        forall|k: int| 0 <= k < cells@.len() ==> (#[trigger] cells@[k]) < N * N,
    ensures
        r == exists|v: int|
            0 <= v < u && #[trigger] all_in_unit(Grid::<N, BR, BC>::shape(), v, cells@),
{
    let ghost g = Grid::<N, BR, BC>::shape();
    assert(cells@[0] < N * N);
    let first = &grid.table.cells[cells[0] as usize];
    assert(first.wf(g, cells@[0] as int));
    let mut same_row: bool = true;
    let mut same_col: bool = true;
    let mut same_block: bool = true;
    let mut k: usize = 0;
    while k < cells.len()
        invariant
            grid.wf(),
            g == Grid::<N, BR, BC>::shape(),
            0 < cells@.len(),
            forall|j: int| 0 <= j < cells@.len() ==> (#[trigger] cells@[j]) < N * N,
            first.wf(g, cells@[0] as int),
            k <= cells@.len(),
            same_row == forall|j: int|
                0 <= j < k ==> g.row(#[trigger] cells@[j] as int) == first.row,
            same_col == forall|j: int|
                0 <= j < k ==> g.col(#[trigger] cells@[j] as int) == first.col,
            same_block == forall|j: int|
                0 <= j < k ==> g.box_of(#[trigger] cells@[j] as int) == first.block,
        decreases cells@.len() - k,
    {
        assert(cells@[k as int] < N * N);
        let x = &grid.table.cells[cells[k] as usize];
        assert(x.wf(g, cells@[k as int] as int));
        same_row = same_row && x.row == first.row;
        same_col = same_col && x.col == first.col;
        same_block = same_block && x.block == first.block;
        k += 1;
    }
    let row_unit: usize = first.row as usize;
    proof {
        geometry::lemma_cell_parts(g, cells@[0] as int);
    }
    let col_unit: usize = N + first.col as usize;
    let block_unit: usize = 2 * N + first.block as usize;
    let r: bool = (same_row && row_unit < u) || (same_col && col_unit < u) || (same_block
        && block_unit < u);
    proof {
        if same_row && row_unit < u {
            assert(all_in_unit(g, row_unit as int, cells@));
        }
        if same_col && col_unit < u {
            assert(all_in_unit(g, col_unit as int, cells@));
        }
        if same_block && block_unit < u {
            assert(all_in_unit(g, block_unit as int, cells@));
        }
        if exists|v: int| 0 <= v < u && #[trigger] all_in_unit(g, v, cells@) {
            let v = choose|v: int| 0 <= v < u && #[trigger] all_in_unit(g, v, cells@);
            assert(g.in_unit(v, cells@[0] as int));
            assert forall|j: int| 0 <= j < cells@.len() implies g.in_unit(
                v,
                #[trigger] cells@[j] as int,
            ) by {}
        }
    }
    r
}

/// The almost locked sets of one size that are met first in unit `u`, in lexicographic
/// order.
fn alses_of<const N: usize, const BR: usize, const BC: usize>(
    grid: &Grid<N, BR, BC>,
    u: usize,
    size: usize,
    open: &Vec<u16>,
) -> (out: Vec<Vec<u16>>)
    requires
        grid.wf(),
        u < 3 * N,
        1 <= size <= MAX_ALS_SIZE,
        is_open_list(
            Grid::<N, BR, BC>::shape(),
            solutions::digits_of(grid.solved@),
            open@,
        ),
        all_in_unit(Grid::<N, BR, BC>::shape(), u as int, open@),
        forall|i: int|
            Grid::<N, BR, BC>::shape().is_cell(i) && grid.solved@[i] == 0
                && #[trigger] Grid::<N, BR, BC>::shape().in_unit(u as int, i) ==> cell_ints(
                open@,
            ).contains(i),
        open@.len() <= N,
    ensures
        forall|k: int|
            0 <= k < out@.len() ==> is_als_at(
                Grid::<N, BR, BC>::shape(),
                grid.candidates@,
                solutions::digits_of(grid.solved@),
                (#[trigger] out@[k])@,
                u as int,
                size as int,
            ),
        forall|i: int, j: int|
            0 <= i < j < out@.len() ==> combos::lex_lt(
                cell_ints(out@[i]@),
                cell_ints(out@[j]@),
            ),
        forall|a: Seq<u16>| #[trigger]
            is_als_at(
                Grid::<N, BR, BC>::shape(),
                grid.candidates@,
                solutions::digits_of(grid.solved@),
                a,
                u as int,
                size as int,
            ) ==> exists|k: int| 0 <= k < out@.len() && (#[trigger] out@[k])@ == a,
{
    let ghost g = Grid::<N, BR, BC>::shape();
    let ghost c = grid.candidates@;
    let ghost t = solutions::digits_of(grid.solved@);
    let ghost list = cell_ints(open@);
    let all: Vec<Vec<usize>> = combinations(open.len(), size);
    let mut out: Vec<Vec<u16>> = Vec::new();
    let mut i: usize = 0;
    while i < all.len()
        invariant
            grid.wf(),
            g == Grid::<N, BR, BC>::shape(),
            c == grid.candidates@,
            t == solutions::digits_of(grid.solved@),
            u < 3 * N,
            1 <= size <= MAX_ALS_SIZE,
            list == cell_ints(open@),
            is_open_list(g, t, open@),
            all_in_unit(g, u as int, open@),
            combos::lists_combos(all@, open@.len() as int, size as int),
            i <= all@.len(),
            forall|k: int|
                0 <= k < out@.len() ==> is_als_at(
                    g,
                    c,
                    t,
                    (#[trigger] out@[k])@,
                    u as int,
                    size as int,
                ),
            forall|k: int|
                0 <= k < out@.len() ==> i < all@.len() ==> combos::lex_lt(
                    cell_ints((#[trigger] out@[k])@),
                    combos::picked(list, all@[i as int]@),
                ),
            forall|k: int, l: int|
                0 <= k < l < out@.len() ==> combos::lex_lt(
                    cell_ints(out@[k]@),
                    cell_ints(out@[l]@),
                ),
            forall|a: Seq<u16>, k: int|
                0 <= k < i && #[trigger] is_als_at(g, c, t, a, u as int, size as int) && cell_ints(a)
                    == combos::picked(list, (#[trigger] all@[k])@) ==> exists|l: int|
                    0 <= l < out@.len() && (#[trigger] out@[l])@ == a,
        decreases all@.len() - i,
    {
        let idx = &all[i];
        let ghost p = combos::picked(list, idx@);
        assert(combos::is_combo(all@[i as int]@, open@.len() as int));
        let mut cells: Vec<u16> = Vec::new();
        let mut k: usize = 0;
        while k < size
            invariant
                idx@.len() == size,
                combos::is_combo(idx@, open@.len() as int),
                list == cell_ints(open@),
                p == combos::picked(list, idx@),
                k <= size,
                cells@.len() == k,
                forall|j: int| 0 <= j < k ==> (#[trigger] cells@[j]) == p[j],
            decreases size - k,
        {
            assert(idx@[k as int] < open@.len());
            cells.push(open[idx[k]]);
            k += 1;
        }
        let ghost a = cells@;
        proof {
            assert(cell_ints(a) =~= p);
            combos::lemma_picked(list, idx@);
            assert forall|j: int| 0 <= j < a.len() implies g.is_cell(#[trigger] a[j] as int) && t[a[j] as int]
                == 0 && g.in_unit(u as int, a[j] as int) by {
                assert(idx@[j] < open@.len());
                assert(a[j] == open@[idx@[j] as int]);
            }
            assert(is_open_list(g, t, a));
            assert forall|j: int| 0 <= j < a.len() implies (#[trigger] a[j]) < N * N by {
                assert(g.is_cell(a[j] as int));
            }
        }
        let mask: u32 = mask_of(grid, &cells);
        assert(masks::digits(mask) =~= digits_in(c, a));
        let count: u32 = mask.count_ones();
        let ghost out0 = out@;
        let keep: bool = count as usize == size + 1 && !met_before(grid, &cells, u);
        if keep {
            assert(is_als_at(g, c, t, a, u as int, size as int));
            out.push(cells);
            assert(out@[out0.len() as int]@ == a);
        }
        proof {
            assert forall|b: Seq<u16>, k: int|
                0 <= k < i + 1 && #[trigger] is_als_at(g, c, t, b, u as int, size as int)
                    && cell_ints(b) == combos::picked(list, (#[trigger] all@[k])@) implies exists|l: int|
                0 <= l < out@.len() && (#[trigger] out@[l])@ == b by {
                if k == i {
                    lemma_cell_ints_injective(a, b);
                    assert(keep);
                    assert(out@[out0.len() as int]@ == b);
                } else {
                    let l = choose|l: int| 0 <= l < out0.len() && (#[trigger] out0[l])@ == b;
                    assert(out@[l]@ == b);
                }
            }
            if i + 1 < all@.len() {
                let q = combos::picked(list, all@[i + 1]@);
                assert(combos::is_combo(all@[i + 1]@, open@.len() as int));
                combos::lemma_picked_order(list, idx@, all@[i + 1]@);
                assert forall|k: int| 0 <= k < out@.len() implies combos::lex_lt(
                    cell_ints((#[trigger] out@[k])@),
                    q,
                ) by {
                    if k < out0.len() {
                        assert(out@[k] == out0[k]);
                        combos::lemma_lex_transitive(cell_ints(out0[k]@), p, q);
                    }
                }
            }
            assert forall|k: int, l: int| 0 <= k < l < out@.len() implies combos::lex_lt(
                cell_ints(out@[k]@),
                cell_ints(out@[l]@),
            ) by {
                if l == out0.len() {
                    assert(combos::lex_lt(cell_ints(out0[k]@), p));
                } else {
                    assert(out@[k] == out0[k] && out@[l] == out0[l]);
                }
            }
        }
        i += 1;
    }
    proof {
        assert forall|a: Seq<u16>| #[trigger]
            is_als_at(g, c, t, a, u as int, size as int) implies exists|k: int|
            0 <= k < out@.len() && (#[trigger] out@[k])@ == a by {
            let ia = cell_ints(a);
            assert forall|j: int| 0 <= j < ia.len() implies list.contains(#[trigger] ia[j]) by {
                assert(g.in_unit(u as int, a[j] as int));
                assert(g.is_cell(a[j] as int));
                assert(t[a[j] as int] == grid.solved@[a[j] as int]);
            }
            let x = combos::lemma_positions(list, ia);
            let k = choose|k: int| 0 <= k < all@.len() && (#[trigger] all@[k])@ == x;
            assert(cell_ints(a) == combos::picked(list, all@[k]@));
        }
    }
    out
}

proof fn lemma_cell_ints_injective(a: Seq<u16>, b: Seq<u16>)
    ensures
        cell_ints(a) == cell_ints(b) <==> a == b,
{
    if cell_ints(a) == cell_ints(b) {
        assert(cell_ints(a).len() == cell_ints(b).len());
        assert forall|i: int| 0 <= i < a.len() implies a[i] == b[i] by {
            assert(cell_ints(a)[i] == cell_ints(b)[i]);
        }
        assert(a =~= b);
    }
}

/// The contents of a list of lists.
pub open spec fn views(l: Seq<Vec<u16>>) -> Seq<Seq<u16>> {
    Seq::new(l.len(), |i: int| l[i]@)
}

/// The sets that are met before unit `u` and size `size`.
spec fn met_upto(g: Dims, c: Seq<u32>, t: Seq<int>, a: Seq<u16>, u: int, size: int) -> bool {
    exists|v: int, z: int|
        #[trigger] is_als_at(g, c, t, a, v, z) && (v < u || (v == u && z < size))
}

/// The list `l` holds the sets that are met before unit `u` and size `size`, in order.
spec fn lists_upto(
    g: Dims,
    c: Seq<u32>,
    t: Seq<int>,
    l: Seq<Vec<u16>>,
    u: int,
    size: int,
) -> bool {
    &&& forall|k: int| 0 <= k < l.len() ==> met_upto(g, c, t, (#[trigger] l[k])@, u, size)
    &&& forall|i: int, j: int| 0 <= i < j < l.len() ==> als_before(g, l[i]@, l[j]@)
    &&& forall|a: Seq<u16>| #[trigger]
        met_upto(g, c, t, a, u, size) ==> exists|k: int| 0 <= k < l.len() && (#[trigger] l[k])@ == a
}

/// The sets of the next size follow those that were met.
proof fn lemma_extend(
    g: Dims,
    c: Seq<u32>,
    t: Seq<int>,
    l: Seq<Vec<u16>>,
    m: Seq<Vec<u16>>,
    u: int,
    size: int,
)
    requires
        lists_upto(g, c, t, l, u, size),
        1 <= size <= MAX_ALS_SIZE,
        forall|k: int| 0 <= k < m.len() ==> is_als_at(g, c, t, (#[trigger] m[k])@, u, size),
        forall|i: int, j: int|
            0 <= i < j < m.len() ==> combos::lex_lt(cell_ints(m[i]@), cell_ints(m[j]@)),
        forall|a: Seq<u16>| #[trigger]
            is_als_at(g, c, t, a, u, size) ==> exists|k: int|
                0 <= k < m.len() && (#[trigger] m[k])@ == a,
    ensures
        lists_upto(g, c, t, l + m, u, size + 1),
{
    let n = l + m;
    assert forall|k: int| 0 <= k < n.len() implies met_upto(g, c, t, (#[trigger] n[k])@, u, size + 1) by {
        if k < l.len() {
            assert(n[k] == l[k]);
            assert(met_upto(g, c, t, l[k]@, u, size));
        } else {
            assert(n[k] == m[k - l.len()]);
            assert(is_als_at(g, c, t, m[k - l.len()]@, u, size));
        }
    }
    assert forall|i: int, j: int| 0 <= i < j < n.len() implies als_before(g, n[i]@, n[j]@) by {
        if j < l.len() {
            assert(n[i] == l[i] && n[j] == l[j]);
        } else if i >= l.len() {
            let a = m[i - l.len()];
            let b = m[j - l.len()];
            assert(n[i] == a && n[j] == b);
            assert(is_als_at(g, c, t, a@, u, size));
            assert(is_als_at(g, c, t, b@, u, size));
            assert(is_first_unit(g, u, a@) && is_first_unit(g, u, b@));
        } else {
            let b = m[j - l.len()];
            assert(n[i] == l[i] && n[j] == b);
            assert(met_upto(g, c, t, l[i]@, u, size));
            let (v, z) = choose|v: int, z: int|
                #[trigger] is_als_at(g, c, t, l[i]@, v, z) && (v < u || (v == u && z < size));
            assert(is_als_at(g, c, t, b@, u, size));
            assert(is_first_unit(g, v, l[i]@) && is_first_unit(g, u, b@));
        }
    }
    assert forall|a: Seq<u16>| #[trigger]
        met_upto(g, c, t, a, u, size + 1) implies exists|k: int|
        0 <= k < n.len() && (#[trigger] n[k])@ == a by {
        let (v, z) = choose|v: int, z: int|
            #[trigger] is_als_at(g, c, t, a, v, z) && (v < u || (v == u && z < size + 1));
        if v == u && z == size {
            let k = choose|k: int| 0 <= k < m.len() && (#[trigger] m[k])@ == a;
            assert(n[k + l.len()]@ == a);
        } else {
            assert(met_upto(g, c, t, a, u, size));
            let k = choose|k: int| 0 <= k < l.len() && (#[trigger] l[k])@ == a;
            assert(n[k]@ == a);
        }
    }
}

/// All sizes of a unit are met before the next unit.
proof fn lemma_next_unit(g: Dims, c: Seq<u32>, t: Seq<int>, l: Seq<Vec<u16>>, u: int)
    requires
        lists_upto(g, c, t, l, u, MAX_ALS_SIZE + 1),
    ensures
        lists_upto(g, c, t, l, u + 1, 1),
{
    assert forall|a: Seq<u16>| #[trigger] met_upto(g, c, t, a, u + 1, 1) implies met_upto(
        g,
        c,
        t,
        a,
        u,
        MAX_ALS_SIZE + 1,
    ) by {
        let (v, z) = choose|v: int, z: int|
            #[trigger] is_als_at(g, c, t, a, v, z) && (v < u + 1 || (v == u + 1 && z < 1));
    }
    assert forall|k: int| 0 <= k < l.len() implies met_upto(g, c, t, (#[trigger] l[k])@, u + 1, 1) by {
        assert(met_upto(g, c, t, l[k]@, u, MAX_ALS_SIZE + 1));
        let (v, z) = choose|v: int, z: int|
            #[trigger] is_als_at(g, c, t, l[k]@, v, z) && (v < u || (v == u && z < MAX_ALS_SIZE
                + 1));
    }
}

/// All almost locked sets in their order.
pub fn enumerate_alses<const N: usize, const BR: usize, const BC: usize>(
    grid: &Grid<N, BR, BC>,
) -> (out: Vec<Vec<u16>>)
    requires
        grid.wf(),
    ensures
        lists_alses(
            Grid::<N, BR, BC>::shape(),
            grid.candidates@,
            solutions::digits_of(grid.solved@),
            views(out@),
        ),
        forall|k: int, i: int|
            0 <= k < out@.len() && 0 <= i < out@[k]@.len() ==> (#[trigger] out@[k]@[i]) < N * N,
{
    let ghost g = Grid::<N, BR, BC>::shape();
    let ghost c = grid.candidates@;
    let ghost t = solutions::digits_of(grid.solved@);
    let mut out: Vec<Vec<u16>> = Vec::new();
    let mut u: usize = 0;
    assert(lists_upto(g, c, t, out@, 0, 1)) by {
        assert forall|a: Seq<u16>| !#[trigger] met_upto(g, c, t, a, 0, 1) by {
            if met_upto(g, c, t, a, 0, 1) {
                let (v, z) = choose|v: int, z: int|
                    #[trigger] is_als_at(g, c, t, a, v, z) && (v < 0 || (v == 0 && z < 1));
            }
        }
    }
    while u < 3 * N
        invariant
            grid.wf(),
            g == Grid::<N, BR, BC>::shape(),
            c == grid.candidates@,
            t == solutions::digits_of(grid.solved@),
            u <= 3 * N,
            lists_upto(g, c, t, out@, u as int, 1),
        decreases 3 * N - u,
    {
        let open: Vec<u16> = open_cells(grid, u);
        let mut size: usize = 1;
        while size <= MAX_ALS_SIZE
            invariant
                grid.wf(),
                g == Grid::<N, BR, BC>::shape(),
                c == grid.candidates@,
                t == solutions::digits_of(grid.solved@),
                u < 3 * N,
                1 <= size <= MAX_ALS_SIZE + 1,
                is_open_list(g, t, open@),
                all_in_unit(g, u as int, open@),
                forall|i: int|
                    g.is_cell(i) && grid.solved@[i] == 0 && #[trigger] g.in_unit(u as int, i)
                        ==> cell_ints(open@).contains(i),
                open@.len() <= N,
                lists_upto(g, c, t, out@, u as int, size as int),
            decreases MAX_ALS_SIZE + 1 - size,
        {
            let mut more: Vec<Vec<u16>> = alses_of(grid, u, size, &open);
            proof {
                lemma_extend(g, c, t, out@, more@, u as int, size as int);
            }
            out.append(&mut more);
            size += 1;
        }
        proof {
            lemma_next_unit(g, c, t, out@, u as int);
        }
        u += 1;
    }
    proof {
        let l = views(out@);
        assert forall|k: int| 0 <= k < l.len() implies is_als(g, c, t, #[trigger] l[k]) by {
            assert(met_upto(g, c, t, out@[k]@, 3 * N, 1));
            let (v, z) = choose|v: int, z: int|
                #[trigger] is_als_at(g, c, t, out@[k]@, v, z) && (v < 3 * N || (v == 3 * N && z
                    < 1));
            assert(is_als_at(g, c, t, l[k], v, l[k].len() as int));
        }
        assert forall|a: Seq<u16>| #[trigger] is_als(g, c, t, a) implies l.contains(a) by {
            let v = choose|v: int| #[trigger] is_als_at(g, c, t, a, v, a.len() as int);
            assert(met_upto(g, c, t, a, 3 * N, 1));
            let k = choose|k: int| 0 <= k < out@.len() && (#[trigger] out@[k])@ == a;
            assert(l[k] == a);
        }
        assert forall|k: int, i: int|
            0 <= k < out@.len() && 0 <= i < out@[k]@.len() implies (#[trigger] out@[k]@[i]) < N * N by {
            assert(is_als(g, c, t, l[k]));
            let v = choose|v: int| #[trigger] is_als_at(g, c, t, l[k], v, l[k].len() as int);
            assert(g.is_cell(l[k][i] as int));
        }
    }
    out
}

/// The first pair of a list for which the rule rules something out.
pub open spec fn is_first_pair(
    g: Dims,
    c: Seq<u32>,
    solved: Seq<int>,
    l: Seq<Seq<u16>>,
    i: int,
    j: int,
) -> bool {
    &&& 0 <= i < j < l.len()
    &&& xz_fires(g, c, solved, l[i], l[j])
    &&& forall|x: int, y: int|
        0 <= x < y < l.len() && (x < i || (x == i && y < j)) ==> !xz_fires(
            g,
            c,
            solved,
            #[trigger] l[x],
            #[trigger] l[y],
        )
}

/// The sizes of the first pair of almost locked sets for which the rule rules something
/// out, the smaller first.
pub open spec fn is_first_als_xz(
    g: Dims,
    c: Seq<u32>,
    solved: Seq<int>,
    l: Seq<Seq<u16>>,
    r: Option<(int, int)>,
) -> bool {
    &&& lists_alses(g, c, solved, l)
    &&& match r {
        Some((lo, hi)) => exists|i: int, j: int|
            #[trigger] is_first_pair(g, c, solved, l, i, j) && lo == if l[i].len() <= l[j].len() {
                l[i].len() as int
            } else {
                l[j].len() as int
            } && hi == if l[i].len() <= l[j].len() {
                l[j].len() as int
            } else {
                l[i].len() as int
            },
        None => forall|x: int, y: int|
            0 <= x < y < l.len() ==> !xz_fires(g, c, solved, #[trigger] l[x], #[trigger] l[y]),
    }
}

/// What the rule finds in the list of all almost locked sets is `r`.
pub open spec fn is_first(g: Dims, c: Seq<u32>, solved: Seq<int>, r: Option<(int, int)>) -> bool {
    exists|l: Seq<Seq<u16>>| #[trigger] is_first_als_xz(g, c, solved, l, r)
}

/// The sizes of the first pair of almost locked sets for which the rule rules something
/// out, the smaller first.
pub open spec fn first_als_xz(g: Dims, c: Seq<u32>, solved: Seq<int>) -> Option<(int, int)> {
    choose|r: Option<(int, int)>| #[trigger] is_first(g, c, solved, r)
}

/// The order of the sets is strict.
proof fn lemma_als_order(g: Dims, a: Seq<u16>, b: Seq<u16>, c: Seq<u16>)
    ensures
        !als_before(g, a, a),
        als_before(g, a, b) && als_before(g, b, c) ==> als_before(g, a, c),
{
    if als_before(g, a, a) {
        let (u, v) = choose|u: int, v: int|
            #[trigger] is_first_unit(g, u, a) && #[trigger] is_first_unit(g, v, a) && (u < v || (u
                == v && (a.len() < a.len() || (a.len() == a.len() && combos::lex_lt(
                cell_ints(a),
                cell_ints(a),
            )))));
        combos::lemma_lex_irreflexive(cell_ints(a));
        if u < v {
            assert(!all_in_unit(g, u, a));
        }
    }
    if als_before(g, a, b) && als_before(g, b, c) {
        let (u, v) = choose|u: int, v: int|
            #[trigger] is_first_unit(g, u, a) && #[trigger] is_first_unit(g, v, b) && (u < v || (u
                == v && (a.len() < b.len() || (a.len() == b.len() && combos::lex_lt(
                cell_ints(a),
                cell_ints(b),
            )))));
        let (w, x) = choose|w: int, x: int|
            #[trigger] is_first_unit(g, w, b) && #[trigger] is_first_unit(g, x, c) && (w < x || (w
                == x && (b.len() < c.len() || (b.len() == c.len() && combos::lex_lt(
                cell_ints(b),
                cell_ints(c),
            )))));
        if v < w {
            assert(!all_in_unit(g, v, b));
        }
        if w < v {
            assert(!all_in_unit(g, w, b));
        }
        if combos::lex_lt(cell_ints(a), cell_ints(b)) && combos::lex_lt(cell_ints(b), cell_ints(c)) {
            combos::lemma_lex_transitive(cell_ints(a), cell_ints(b), cell_ints(c));
        }
        assert(is_first_unit(g, u, a) && is_first_unit(g, x, c));
    }
}

/// There is only one list of the almost locked sets, and only one first pair.
proof fn lemma_first_unique(
    g: Dims,
    c: Seq<u32>,
    solved: Seq<int>,
    l: Seq<Seq<u16>>,
    m: Seq<Seq<u16>>,
    r: Option<(int, int)>,
    q: Option<(int, int)>,
)
    requires
        is_first_als_xz(g, c, solved, l, r),
        is_first_als_xz(g, c, solved, m, q),
    ensures
        r == q,
{
    let lt = |a: Seq<u16>, b: Seq<u16>| als_before(g, a, b);
    assert forall|x: Seq<u16>| !#[trigger] lt(x, x) by {
        lemma_als_order(g, x, x, x);
    }
    assert forall|x: Seq<u16>, y: Seq<u16>, z: Seq<u16>| #[trigger] lt(x, y) && #[trigger] lt(
        y,
        z,
    ) implies lt(x, z) by {
        lemma_als_order(g, x, y, z);
    }
    assert forall|x: Seq<u16>| l.contains(x) <==> m.contains(x) by {
        if l.contains(x) {
            let k = choose|k: int| 0 <= k < l.len() && l[k] == x;
            assert(is_als(g, c, solved, l[k]));
        }
        if m.contains(x) {
            let k = choose|k: int| 0 <= k < m.len() && m[k] == x;
            assert(is_als(g, c, solved, m[k]));
        }
    }
    combos::lemma_ordered_lists_equal(l, m, lt);
    if r is Some && q is Some {
        let (i, j) = choose|i: int, j: int| #[trigger] is_first_pair(g, c, solved, l, i, j);
        assert(is_first_pair(g, c, solved, l, i, j));
        assert forall|x: int, y: int| #[trigger] is_first_pair(g, c, solved, l, x, y) implies x == i
            && y == j by {
            if x < i || (x == i && y < j) {
                assert(!xz_fires(g, c, solved, l[x], l[y]));
            }
            if i < x || (i == x && j < y) {
                assert(!xz_fires(g, c, solved, l[i], l[j]));
            }
        }
    } else if r is Some {
        let (i, j) = choose|i: int, j: int| #[trigger] is_first_pair(g, c, solved, l, i, j);
        assert(xz_fires(g, c, solved, l[i], l[j]));
    } else if q is Some {
        let (i, j) = choose|i: int, j: int| #[trigger] is_first_pair(g, c, solved, l, i, j);
        assert(xz_fires(g, c, solved, l[i], l[j]));
    }
}

/// The positions of the first pair of a list for which the rule rules something out.
fn first_pair<const N: usize, const BR: usize, const BC: usize>(
    grid: &Grid<N, BR, BC>,
    alses: &Vec<Vec<u16>>,
) -> (r: Option<(usize, usize)>)
    requires
        grid.wf(),
        forall|k: int, i: int|
            0 <= k < alses@.len() && 0 <= i < alses@[k]@.len() ==> (#[trigger] alses@[k]@[i]) < N * N,
    ensures
        r matches Some((i, j)) ==> is_first_pair(
            Grid::<N, BR, BC>::shape(),
            grid.candidates@,
            solutions::digits_of(grid.solved@),
            views(alses@),
            i as int,
            j as int,
        ),
        r is None ==> forall|x: int, y: int|
            0 <= x < y < alses@.len() ==> !xz_fires(
                Grid::<N, BR, BC>::shape(),
                grid.candidates@,
                solutions::digits_of(grid.solved@),
                #[trigger] views(alses@)[x],
                #[trigger] views(alses@)[y],
            ),
{
    let ghost g = Grid::<N, BR, BC>::shape();
    let ghost c = grid.candidates@;
    let ghost t = solutions::digits_of(grid.solved@);
    let ghost l = views(alses@);
    let n: usize = alses.len();
    let mut i: usize = 0;
    while i < n
        invariant
            grid.wf(),
            g == Grid::<N, BR, BC>::shape(),
            c == grid.candidates@,
            t == solutions::digits_of(grid.solved@),
            l == views(alses@),
            n == alses@.len(),
            forall|k: int, i: int|
                0 <= k < alses@.len() && 0 <= i < alses@[k]@.len() ==> (#[trigger] alses@[k]@[i]) < N
                    * N,
            i <= n,
            forall|x: int, y: int|
                0 <= x < i && x < y < l.len() ==> !xz_fires(
                    g,
                    c,
                    t,
                    #[trigger] l[x],
                    #[trigger] l[y],
                ),
        decreases n - i,
    {
        let mut j: usize = i + 1;
        while j < n
            invariant
                grid.wf(),
                g == Grid::<N, BR, BC>::shape(),
                c == grid.candidates@,
                t == solutions::digits_of(grid.solved@),
                l == views(alses@),
                n == alses@.len(),
                forall|k: int, i: int|
                    0 <= k < alses@.len() && 0 <= i < alses@[k]@.len() ==> (#[trigger] alses@[k]@[i])
                        < N * N,
                i < j <= n,
                forall|x: int, y: int|
                    0 <= x < y < l.len() && (x < i || (x == i && y < j)) ==> !xz_fires(
                        g,
                        c,
                        t,
                        #[trigger] l[x],
                        #[trigger] l[y],
                    ),
            decreases n - j,
        {
            assert(l[i as int] == alses@[i as int]@ && l[j as int] == alses@[j as int]@);
            if try_als_xz_eliminate_dryrun(grid, alses[i].as_slice(), alses[j].as_slice()) {
                assert(is_first_pair(g, c, t, l, i as int, j as int));
                return Some((i, j));
            }
            j += 1;
        }
        i += 1;
    }
    None
}

/// The sizes of the first pair of almost locked sets for which the rule rules something
/// out, the smaller first; `None` if it rules nothing out.
pub fn find_first_als_xz<const N: usize, const BR: usize, const BC: usize>(
    grid: &Grid<N, BR, BC>,
) -> (r: Option<(usize, usize)>)
    requires
        grid.wf(),
    ensures
        ({
            let first = first_als_xz(
                Grid::<N, BR, BC>::shape(),
                grid.candidates@,
                solutions::digits_of(grid.solved@),
            );
            match r {
                Some((lo, hi)) => first == Some((lo as int, hi as int)),
                None => first is None,
            }
        }),
        is_first(
            Grid::<N, BR, BC>::shape(),
            grid.candidates@,
            solutions::digits_of(grid.solved@),
            match r {
                Some((lo, hi)) => Some((lo as int, hi as int)),
                None => None,
            },
        ),
{
    let ghost g = Grid::<N, BR, BC>::shape();
    let ghost c = grid.candidates@;
    let ghost t = solutions::digits_of(grid.solved@);
    let alses: Vec<Vec<u16>> = enumerate_alses(grid);
    let ghost l = views(alses@);
    match first_pair(grid, &alses) {
        Some((i, j)) => {
            assert(is_first_pair(g, c, t, l, i as int, j as int));
            let a: usize = alses[i].len();
            let b: usize = alses[j].len();
            let r: (usize, usize) = if a <= b {
                (a, b)
            } else {
                (b, a)
            };
            proof {
                assert(l[i as int].len() == a && l[j as int].len() == b);
                let v: Option<(int, int)> = Some((r.0 as int, r.1 as int));
                assert(is_first_als_xz(g, c, t, l, v));
                lemma_first_is(g, c, t, l, v);
            }
            Some(r)
        },
        None => {
            proof {
                let v: Option<(int, int)> = None;
                assert(is_first_als_xz(g, c, t, l, v));
                lemma_first_is(g, c, t, l, v);
            }
            None
        },
    }
}

proof fn lemma_first_is(
    g: Dims,
    c: Seq<u32>,
    solved: Seq<int>,
    l: Seq<Seq<u16>>,
    r: Option<(int, int)>,
)
    requires
        is_first_als_xz(g, c, solved, l, r),
    ensures
        first_als_xz(g, c, solved) == r,
{
    assert(is_first(g, c, solved, r));
    let q = first_als_xz(g, c, solved);
    let m = choose|m: Seq<Seq<u16>>| #[trigger] is_first_als_xz(g, c, solved, m, q);
    lemma_first_unique(g, c, solved, l, m, r, q);
}

/// Two almost locked sets rule `d` out in `cell`.
pub open spec fn als_excludes(g: Dims, c: Seq<u32>, solved: Seq<int>, cell: int, d: int) -> bool {
    exists|a: Seq<u16>, b: Seq<u16>, x: int|
        is_als(g, c, solved, a) && is_als(g, c, solved, b) && #[trigger] xz_kills(
            g,
            c,
            solved,
            a,
            b,
            x,
            d,
            cell,
        )
}

/// Takes away one candidate that the rule rules out: the cell, and the digit.
pub fn apply_als_xz<const N: usize, const BR: usize, const BC: usize>(
    grid: &mut Grid<N, BR, BC>,
) -> (r: Option<(usize, u8)>)
    requires
        old(grid).wf(),
    ensures
        final(grid).wf(),
        r is Some == first_als_xz(
            Grid::<N, BR, BC>::shape(),
            old(grid).candidates@,
            solutions::digits_of(old(grid).solved@),
        ) is Some,
        r is None ==> final(grid).same(old(grid)),
        r matches Some((cell, d)) ==> {
            &&& cell < N * N
            &&& 1 <= d <= 32
            &&& masks::holds(old(grid).candidates@[cell as int], d as int)
            &&& als_excludes(
                Grid::<N, BR, BC>::shape(),
                old(grid).candidates@,
                solutions::digits_of(old(grid).solved@),
                cell as int,
                d as int,
            )
            &&& final(grid).solved@ == old(grid).solved@
            &&& final(grid).candidates@ == old(grid).candidates@.update(
                cell as int,
                old(grid).candidates@[cell as int] & !masks::bit(d as int),
            )
        },
        final(grid).solutions() == old(grid).solutions(),
{
    let ghost g = Grid::<N, BR, BC>::shape();
    let ghost c = grid.candidates@;
    let ghost t = solutions::digits_of(grid.solved@);
    let alses: Vec<Vec<u16>> = enumerate_alses(grid);
    let ghost l = views(alses@);
    match first_pair(grid, &alses) {
        Some((i, j)) => {
            let ghost a = l[i as int];
            let ghost b = l[j as int];
            assert(a == alses@[i as int]@ && b == alses@[j as int]@);
            match find_xz(grid, alses[i].as_slice(), alses[j].as_slice()) {
                Some((x, z, cell)) => {
                    proof {
                        assert(is_als(g, c, t, l[i as int]));
                        assert(is_als(g, c, t, l[j as int]));
                        assert(xz_kills(g, c, t, a, b, x as int, z as int, cell as int));
                        assert forall|s: Seq<int>| solutions::solutions(g, c).contains(
                            s,
                        ) implies s[cell as int] != z by {
                            law_als_xz_sound(
                                g,
                                c,
                                t,
                                a,
                                b,
                                x as int,
                                z as int,
                                cell as int,
                                s,
                            );
                        }
                        assert(t[cell as int] == grid.solved@[cell as int]);
                        assert(g.is_digit(z as int));
                        solutions::lemma_eliminate_solutions(g, c, cell as int, z as int);
                        assert(als_excludes(g, c, t, cell as int, z as int));
                        let v: Option<(int, int)> = Some(
                            if a.len() <= b.len() {
                                (a.len() as int, b.len() as int)
                            } else {
                                (b.len() as int, a.len() as int)
                            },
                        );
                        assert(is_first_als_xz(g, c, t, l, v));
                        lemma_first_is(g, c, t, l, v);
                    }
                    let _ = grid.eliminate(cell, z);
                    Some((cell, z))
                },
                None => {
                    assert(false);
                    None
                },
            }
        },
        None => {
            proof {
                let v: Option<(int, int)> = None;
                assert(is_first_als_xz(g, c, t, l, v));
                lemma_first_is(g, c, t, l, v);
            }
            None
        },
    }
}

/// The search for a pair of sets whose smaller one has a size within limits.
pub struct AlsProbe {
    pub size_min: u32,
    pub size_max: u32,
}

impl<const N: usize, const BR: usize, const BC: usize> Probe<N, BR, BC> for AlsProbe {
    /// Two if the rule rules something out with a first pair of the sizes sought, one if it
    /// does with another, else zero.
    open spec fn score(&self, c: Seq<u32>, solved: Seq<int>) -> int {
        match first_als_xz(Grid::<N, BR, BC>::shape(), c, solved) {
            Some((lo, hi)) => if self.size_min <= lo <= self.size_max {
                2
            } else {
                1
            },
            None => 0,
        }
    }

    /// A pair that was found is not lost, and the sizes sought neither.
    open spec fn accepts(&self, current: int, next: int) -> bool {
        if current == 0 {
            true
        } else if current == 1 {
            next >= 1
        } else {
            next == 2
        }
    }

    open spec fn ready(&self) -> bool {
        true
    }

    fn score_of(&mut self, g: &Grid<N, BR, BC>) -> (r: u64) {
        match find_first_als_xz(g) {
            Some((lo, _hi)) => if self.size_min as usize <= lo && lo <= self.size_max as usize {
                2
            } else {
                1
            },
            None => 0,
        }
    }

    fn accept(&self, current: u64, next: u64) -> (r: bool) {
        if current == 0 {
            true
        } else if current == 1 {
            next >= 1
        } else {
            next == 2
        }
    }
}

/// The rating and the candidates of a puzzle are those sought.
pub open spec fn als_xz_fits<const N: usize, const BR: usize, const BC: usize>(
    spec: AlsXzReverseSpec,
    rate: RateResult,
    puzzle: Grid<N, BR, BC>,
) -> bool {
    &&& reverse_construct::rated_at(rate, spec.target_tier, TechniqueId::AlsXz)
    &&& first_als_xz(
        Grid::<N, BR, BC>::shape(),
        puzzle.candidates@,
        solutions::digits_of(puzzle.solved@),
    ) matches Some((lo, hi)) && spec.als_size_min <= lo <= spec.als_size_max
}

/// Whether the rating and the candidates of a puzzle are those sought.
pub fn is_als_xz_puzzle<const N: usize, const BR: usize, const BC: usize>(
    spec: &AlsXzReverseSpec,
    rate: &RateResult,
    puzzle: &Grid<N, BR, BC>,
) -> (r: bool)
    requires
        spec.is_valid(),
        puzzle.wf(),
    ensures
        r == als_xz_fits(*spec, *rate, *puzzle),
{
    if !reverse_construct::is_rated_at(rate, spec.target_tier, TechniqueId::AlsXz) {
        return false;
    }
    match find_first_als_xz(puzzle) {
        Some((lo, _hi)) => spec.als_size_min as usize <= lo && lo <= spec.als_size_max as usize,
        None => false,
    }
}

/// What a result has to be besides well formed.
pub open spec fn als_result_ok<const N: usize, const BR: usize, const BC: usize>(
    spec: AlsXzReverseSpec,
    r: ReverseResult<N, BR, BC>,
) -> bool {
    spec.is_valid() && als_xz_fits(spec, r.rate, r.puzzle)
}

/// The puzzle and its solution come out of the `n`-th attempt of a generator that held the
/// words `words` before the first.
pub open spec fn als_is_drawn<const N: usize, const BR: usize, const BC: usize>(
    spec: AlsXzReverseSpec,
    x: ReverseResult<N, BR, BC>,
    words: Seq<u64>,
    n: nat,
) -> bool {
    guided_removal::is_attempt::<N, BR, BC, AlsProbe>(
        (AlsProbe { size_min: spec.als_size_min, size_max: spec.als_size_max }),
        x.puzzle,
        x.solution,
        spec.clue_min,
        spec.clue_max,
        guided_removal::trial_cap(spec.greedy_max_trials),
        words,
        n,
    )
}

/// The `n`-th attempt of a generator that held the words `words` before the first led to `x`, with
/// ratings that a rater can give.
pub open spec fn als_is_tried<const N: usize, const BR: usize, const BC: usize, R: Rater<N, BR, BC>>(
    spec: AlsXzReverseSpec,
    words: Seq<u64>,
    n: nat,
    x: ReverseResult<N, BR, BC>,
    without: Option<RateResult>,
) -> bool {
    &&& x.wf()
    &&& x.attempts_taken == n
    &&& als_is_drawn(spec, x, words, n)
    &&& reverse_construct::are_answers::<N, BR, BC, R>(
        als_xz_fits(spec, x.rate, x.puzzle),
        spec.require_load_bearing,
        TechniqueId::AlsXz,
        without,
        x,
    )
}

/// The `n`-th attempt of a generator that held the words `words` before the first can lead to `r`.
pub open spec fn als_leads_to<const N: usize, const BR: usize, const BC: usize, R: Rater<N, BR, BC>>(
    spec: AlsXzReverseSpec,
    words: Seq<u64>,
    n: nat,
    r: Option<ReverseResult<N, BR, BC>>,
) -> bool {
    exists|x: ReverseResult<N, BR, BC>, without: Option<RateResult>| #[trigger]
        als_is_tried::<N, BR, BC, R>(spec, words, n, x, without) && r == reverse_construct::outcome(
            als_xz_fits(spec, x.rate, x.puzzle),
            spec.require_load_bearing,
            spec.target_tier,
            without,
            x,
        )
}

/// The limit on the attempts makes no difference to what one of them leads to.
proof fn lemma_limit<const N: usize, const BR: usize, const BC: usize, R: Rater<N, BR, BC>>(
    spec: AlsXzReverseSpec,
    max_attempts: u32,
    words: Seq<u64>,
    n: nat,
    r: Option<ReverseResult<N, BR, BC>>,
)
    requires
        als_leads_to::<N, BR, BC, R>(AlsXzReverseSpec { max_attempts, ..spec }, words, n, r),
    ensures
        als_leads_to::<N, BR, BC, R>(spec, words, n, r),
{
    let other = AlsXzReverseSpec { max_attempts, ..spec };
    let (x, without) = choose|x: ReverseResult<N, BR, BC>, without: Option<RateResult>| #[trigger]
        als_is_tried::<N, BR, BC, R>(other, words, n, x, without) && r == reverse_construct::outcome(
            als_xz_fits(other, x.rate, x.puzzle),
            other.require_load_bearing,
            other.target_tier,
            without,
            x,
        );
    assert(als_is_tried::<N, BR, BC, R>(spec, words, n, x, without));
}

/// Searches for a puzzle that needs the rule with a pair of sets of the sizes sought.
pub fn als_xz_reverse_construct<
    const N: usize,
    const BR: usize,
    const BC: usize,
    R: Rater<N, BR, BC>,
>(rng: &mut Xoshiro256PlusPlus, rater: &mut R, spec: &AlsXzReverseSpec) -> (r: Option<
    ReverseResult<N, BR, BC>,
>)
    requires
        Grid::<N, BR, BC>::shape().ok(),
    ensures
        !spec.is_valid() || spec.max_attempts == 0 ==> r is None,
        r matches Some(x) ==> x.wf() && als_result_ok(*spec, x) && 1 <= x.attempts_taken
            <= spec.max_attempts,
        r matches Some(x) ==> als_is_drawn(
            *spec,
            x,
            rng::state(*old(rng)),
            x.attempts_taken as nat,
        ),
        spec.is_valid() ==> rng::state(*final(rng)) == guided_removal::words_after(
            Grid::<N, BR, BC>::shape(),
            spec.clue_max,
            rng::state(*old(rng)),
            match r {
                Some(x) => x.attempts_taken as nat,
                None => spec.max_attempts as nat,
            },
        ),
        !spec.is_valid() ==> rng::state(*final(rng)) == rng::state(*old(rng)),
        r matches Some(x) ==> als_leads_to::<N, BR, BC, R>(
            *spec,
            rng::state(*old(rng)),
            x.attempts_taken as nat,
            r,
        ),
        spec.is_valid() ==> forall|i: nat|
            1 <= i <= (match r {
                Some(x) => x.attempts_taken - 1,
                None => spec.max_attempts as int,
            }) ==> #[trigger] als_leads_to::<N, BR, BC, R>(*spec, rng::state(*old(rng)), i, None),
{
    if spec.validate().is_err() {
        return None;
    }
    let mut probe = AlsProbe { size_min: spec.als_size_min, size_max: spec.als_size_max };
    let ghost sh = Grid::<N, BR, BC>::shape();
    let ghost first = probe;
    let mut attempt: u32 = 0;
    while attempt < spec.max_attempts
        invariant
            sh == Grid::<N, BR, BC>::shape(),
            first == (AlsProbe { size_min: spec.als_size_min, size_max: spec.als_size_max }),
            forall|c: Seq<u32>, t: Seq<int>| #[trigger]
                <AlsProbe as Probe<N, BR, BC>>::score(&probe, c, t) == <AlsProbe as Probe<
                    N,
                    BR,
                    BC,
                >>::score(&first, c, t),
            forall|a: int, b: int| #[trigger]
                <AlsProbe as Probe<N, BR, BC>>::accepts(&probe, a, b) == <AlsProbe as Probe<
                    N,
                    BR,
                    BC,
                >>::accepts(&first, a, b),
            rng::state(*rng) == guided_removal::words_after(
                sh,
                spec.clue_max,
                rng::state(*old(rng)),
                attempt as nat,
            ),
            Grid::<N, BR, BC>::shape().ok(),
            spec.is_valid(),
            attempt <= spec.max_attempts,
            forall|i: nat|
                1 <= i <= attempt ==> #[trigger] als_leads_to::<N, BR, BC, R>(
                    *spec,
                    rng::state(*old(rng)),
                    i,
                    None,
                ),
        decreases spec.max_attempts - attempt,
    {
        attempt += 1;
        let ghost now = probe;
        let ghost words = rng::state(*rng);
        let (puzzle, solution, clue_count) = guided_removal::carve_attempt::<N, BR, BC, AlsProbe>(
            rng,
            &mut probe,
            spec.clue_min,
            spec.clue_max,
            spec.greedy_max_trials,
        );
        proof {
            let drawn = guided_removal::drawn_attempt(sh, spec.clue_max, words);
            guided_removal::lemma_same_probe::<N, BR, BC, AlsProbe>(
                now,
                first,
                puzzle,
                solution,
                spec.clue_min,
                guided_removal::trial_cap(spec.greedy_max_trials),
                drawn.1,
                drawn.2,
            );
        }
        let rate = rater.rate(&puzzle);
        let fits: bool = is_als_xz_puzzle(spec, &rate, &puzzle);
        let without: Option<RateResult> = if fits && spec.require_load_bearing {
            let ids: Vec<TechniqueId> = vec![TechniqueId::AlsXz];
            assert(ids@ =~= seq![TechniqueId::AlsXz]);
            Some(rater.rate_excluding(&puzzle, &ids))
        } else {
            None
        };
        let x = ReverseResult { puzzle, solution, rate, clue_count, attempts_taken: attempt };
        let ghost tried = x;
        let ghost said = without;
        let found = judged(
            fits,
            spec.require_load_bearing,
            spec.target_tier,
            without,
            x,
        );
        assert(als_is_tried::<N, BR, BC, R>(
            *spec,
            rng::state(*old(rng)),
            attempt as nat,
            tried,
            said,
        ));
        assert(als_leads_to::<N, BR, BC, R>(
            *spec,
            rng::state(*old(rng)),
            attempt as nat,
            found,
        ));
        if found.is_some() {
            return found;
        }
    }
    None
}

/// The search as a job for `batch`.
pub struct AlsJob<R> {
    pub spec: AlsXzReverseSpec,
    pub rater: R,
}

impl<const N: usize, const BR: usize, const BC: usize, R: Rater<N, BR, BC>> Construct<N, BR, BC> for AlsJob<
    R,
> {
    open spec fn accepts(&self, x: ReverseResult<N, BR, BC>) -> bool {
        als_result_ok(self.spec, x)
    }

    open spec fn is_possible(&self) -> bool {
        self.spec.is_valid()
    }

    open spec fn most_clues(&self) -> u32 {
        self.spec.clue_max
    }

    open spec fn draws(&self, x: ReverseResult<N, BR, BC>, words: Seq<u64>, n: nat) -> bool {
        als_is_drawn(self.spec, x, words, n)
    }

    open spec fn leads_to(
        &self,
        words: Seq<u64>,
        n: nat,
        r: Option<ReverseResult<N, BR, BC>>,
    ) -> bool {
        als_leads_to::<N, BR, BC, R>(self.spec, words, n, r)
    }

    fn construct(&mut self, rng: &mut Xoshiro256PlusPlus, max_attempts: u32) -> (r: Option<
        ReverseResult<N, BR, BC>,
    >) {
        let mut spec = self.spec;
        spec.max_attempts = max_attempts;
        let r = als_xz_reverse_construct(rng, &mut self.rater, &spec);
        proof {
            let words = rng::state(*old(rng));
            assert(spec == (AlsXzReverseSpec { max_attempts, ..self.spec }));
            assert forall|i: nat, x: Option<ReverseResult<N, BR, BC>>|
                als_leads_to::<N, BR, BC, R>(spec, words, i, x) implies #[trigger] als_leads_to::<
                N,
                BR,
                BC,
                R,
            >(self.spec, words, i, x) by {
                lemma_limit::<N, BR, BC, R>(self.spec, max_attempts, words, i, x);
            }
            if self.spec.is_valid() {
                assert forall|i: nat|
                    1 <= i <= (match r {
                        Some(x) => x.attempts_taken - 1,
                        None => max_attempts as int,
                    }) implies #[trigger] als_leads_to::<N, BR, BC, R>(
                    self.spec,
                    words,
                    i,
                    None,
                ) by {
                    assert(als_leads_to::<N, BR, BC, R>(spec, words, i, None));
                }
            }
        }
        r
    }
}

/// The result comes out of an attempt of one of the workers, whose attempts do not exceed its
/// share.
pub open spec fn als_comes_from_worker<const N: usize, const BR: usize, const BC: usize>(
    spec: AlsXzReverseSpec,
    x: ReverseResult<N, BR, BC>,
    seed: u64,
    threads: usize,
) -> bool {
    exists|w: int, m: nat|
        0 <= w < reverse_construct::workers_for(threads) && m + x.attempts_taken
            <= reverse_construct::share_of_attempts(
            spec.max_attempts,
            reverse_construct::workers_for(threads),
        ) && #[trigger] als_is_drawn(
            spec,
            x,
            reverse_construct::worker_words(
                Grid::<N, BR, BC>::shape(),
                spec.clue_max,
                seed,
                w,
                m,
            ),
            x.attempts_taken as nat,
        )
}

/// Searches for up to `num_puzzles` puzzles. The attempts are shared out among `threads`
/// workers, each with a generator of its own, which take their turns one after another.
pub fn batch_als_xz_reverse_construct<
    const N: usize,
    const BR: usize,
    const BC: usize,
    R: Rater<N, BR, BC>,
>(
    rng_seed: u64,
    rater: R,
    spec: &AlsXzReverseSpec,
    num_puzzles: u32,
    threads: usize,
) -> (r: Vec<ReverseResult<N, BR, BC>>)
    requires
        Grid::<N, BR, BC>::shape().ok(),
    ensures
        r@.len() <= num_puzzles,
        forall|i: int|
            0 <= i < r@.len() ==> (#[trigger] r@[i]).wf() && als_result_ok(*spec, r@[i]),
        forall|i: int|
            0 <= i < r@.len() ==> als_comes_from_worker(
                *spec,
                #[trigger] r@[i],
                rng_seed,
                threads,
            ),
        !spec.is_valid() ==> r@.len() == 0,
        reverse_construct::may_find::<N, BR, BC, AlsJob<R>>(
            (AlsJob { spec: *spec, rater }),
            rng_seed,
            spec.max_attempts,
            num_puzzles,
            threads,
            r@,
        ),
{
    let max_attempts: u32 = spec.max_attempts;
    let mut job = AlsJob { spec: *spec, rater };
    batch(&mut job, rng_seed, max_attempts, num_puzzles, threads)
}

} // verus!
