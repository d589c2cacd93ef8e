//! Hidden quads, and puzzles that need one.
//!
//! Four digits of a unit whose places all lie in the same four cells leave no room for
//! another digit in those cells.

use super::combos;
use super::combos::combinations;
use super::geometry;
use super::geometry::Dims;
use super::grid::Grid;
use super::guided_removal;
use super::guided_removal::Probe;
use super::masks;
use super::peer_tables;
use super::rater::{RateResult, Rater};
use super::reverse_construct;
use super::rng;
use super::reverse_construct::{batch, judged, Construct, ReverseResult};
use super::solutions;
use super::techniques::{TechniqueId, Tier};
use super::text;
use super::unit_places;
use rand_xoshiro::Xoshiro256PlusPlus;
use vstd::prelude::*;
use vstd::set_lib::*;

verus! {

broadcast use masks::group_masks;

/// What a puzzle has to be like.
#[derive(Clone, Copy, Debug)]
pub struct HiddenQuadReverseSpec {
    pub target_tier: Tier,
    pub clue_min: u32,
    pub clue_max: u32,
    pub max_attempts: u32,
    /// The puzzle has to be of a harder tier without hidden quads.
    pub require_load_bearing: bool,
    /// The number of clues that are tried for each seed, `0` for all.
    pub greedy_max_trials: u32,
}

impl HiddenQuadReverseSpec {
    pub fn new_t2(clue_min: u32, clue_max: u32, max_attempts: u32) -> (r: Self)
        ensures
            r.target_tier == Tier::T2,
            r.clue_min == clue_min,
            r.clue_max == clue_max,
            r.max_attempts == max_attempts,
            r.require_load_bearing,
            r.greedy_max_trials == 0,
    {
        HiddenQuadReverseSpec {
            target_tier: Tier::T2,
            clue_min,
            clue_max,
            max_attempts,
            require_load_bearing: true,
            greedy_max_trials: 0,
        }
    }

    pub open spec fn is_valid(&self) -> bool {
        &&& self.clue_min <= self.clue_max
        &&& self.target_tier != Tier::T1
    }

    /// Whether the specification can be met; else what is wrong with it first.
    pub fn validate(&self) -> (r: Result<(), String>)
        ensures
            r is Ok == self.is_valid(),
            r matches Err(m) ==> m@ == if self.clue_min > self.clue_max {
                text::band_message(
                    "clue_min"@,
                    self.clue_min as nat,
                    "clue_max"@,
                    self.clue_max as nat,
                )
            } else {
                "target_tier T1 cannot fire HiddenQuad"@
            },
    {
        if self.clue_min > self.clue_max {
            return Err(
                text::inverted_band(
                    "clue_min",
                    self.clue_min as u64,
                    "clue_max",
                    self.clue_max as u64,
                ),
            );
        }
        if self.target_tier == Tier::T1 {
            return Err(text::owned("target_tier T1 cannot fire HiddenQuad"));
        }
        Ok(())
    }
}

/// The places of several digits in a unit.
pub open spec fn spots_of_all(
    g: Dims,
    c: Seq<u32>,
    solved: Seq<int>,
    u: int,
    ds: Seq<int>,
) -> Set<int> {
    Set::new(
        |p: int|
            exists|j: int| 0 <= j < ds.len() && unit_places::unit_has(g, c, solved, u, #[trigger] ds[j], p),
    )
}

/// A digit that can be one of the four: it is not placed in the unit and has between two
/// and four places.
pub open spec fn is_scarce(g: Dims, c: Seq<u32>, solved: Seq<int>, u: int, d: int) -> bool {
    &&& g.is_digit(d)
    &&& !unit_places::unit_placed(g, solved, u, d)
    &&& 2 <= unit_places::spots(g, c, solved, u, d).len() <= 4
}

/// The four digits `ds` are a hidden quad.
pub open spec fn is_hidden_quad(
    g: Dims,
    c: Seq<u32>,
    solved: Seq<int>,
    u: int,
    ds: Seq<int>,
) -> bool {
    &&& g.is_unit(u)
    &&& ds.len() == 4
    &&& ds.no_duplicates()
    &&& forall|j: int| 0 <= j < 4 ==> is_scarce(g, c, solved, u, #[trigger] ds[j])
    &&& spots_of_all(g, c, solved, u, ds).len() == 4
}

/// The hidden quad `ds` rules `d` out at position `p`.
pub open spec fn quad_kills(
    g: Dims,
    c: Seq<u32>,
    solved: Seq<int>,
    u: int,
    ds: Seq<int>,
    p: int,
    d: int,
) -> bool {
    &&& spots_of_all(g, c, solved, u, ds).contains(p)
    &&& masks::holds(c[g.unit_cell(u, p - 1)], d)
    &&& !ds.contains(d)
}

/// The digits `ds` are a hidden quad that rules something out.
pub open spec fn quad_fires(g: Dims, c: Seq<u32>, solved: Seq<int>, u: int, ds: Seq<int>) -> bool {
    &&& is_hidden_quad(g, c, solved, u, ds)
    &&& exists|p: int, d: int| #[trigger] quad_kills(g, c, solved, u, ds, p, d)
}

/// The first hidden quad that rules something out: by the unit, then by the digits in
/// ascending order.
pub open spec fn is_first_quad(g: Dims, c: Seq<u32>, solved: Seq<int>, u: int, ds: Seq<int>) -> bool {
    &&& combos::increasing(ds)
    &&& quad_fires(g, c, solved, u, ds)
    &&& forall|v: int, es: Seq<int>| #[trigger]
        quad_fires(g, c, solved, v, es) && combos::increasing(es) ==> u < v || (u == v && (es == ds
            || combos::lex_lt(ds, es)))
}

/// Some hidden quad rules something out.
pub open spec fn some_quad(g: Dims, c: Seq<u32>, solved: Seq<int>) -> bool {
    exists|u: int, ds: Seq<int>| combos::increasing(ds) && #[trigger] quad_fires(g, c, solved, u, ds)
}

proof fn lemma_spots_finite(g: Dims, c: Seq<u32>, t: Seq<int>, u: int, ds: Seq<int>)
    requires
        g.ok(),
    ensures
        spots_of_all(g, c, t, u, ds).finite(),
{
    lemma_int_range(1, g.n + 1);
    assert(spots_of_all(g, c, t, u, ds).subset_of(set_int_range(1, g.n + 1)));
    lemma_set_subset_finite(set_int_range(1, g.n + 1), spots_of_all(g, c, t, u, ds));
}

/// The position of a digit of a solution in a unit.
spec fn position_of(g: Dims, s: Seq<int>, u: int, d: int) -> int {
    choose|p: int| #[trigger] unit_places::placed_at(g, s, u, d, p)
}

/// A hidden quad is right: no solution has another digit in its cells.
pub proof fn law_hidden_quad_sound(
    g: Dims,
    c: Seq<u32>,
    solved: Seq<u8>,
    u: int,
    ds: Seq<int>,
    p: int,
    d: int,
    s: Seq<int>,
)
    requires
        solutions::well_formed(g, c, solved),
        is_hidden_quad(g, c, solutions::digits_of(solved), u, ds),
        quad_kills(g, c, solutions::digits_of(solved), u, ds, p, d),
        solutions::solutions(g, c).contains(s),
    ensures
        s[g.unit_cell(u, p - 1)] != d,
{
    let t = solutions::digits_of(solved);
    let all = spots_of_all(g, c, t, u, ds);
    let f = Seq::new(4, |j: int| position_of(g, s, u, ds[j]));
    assert forall|j: int| 0 <= j < 4 implies all.contains(#[trigger] f[j]) && unit_places::placed_at(
        g,
        s,
        u,
        ds[j],
        f[j],
    ) by {
        assert(is_scarce(g, c, t, u, ds[j]));
        let k = solutions::lemma_unit_onto(g, s, u, ds[j]);
        assert(unit_places::placed_at(g, s, u, ds[j], k + 1));
        let q = f[j];
        assert(unit_places::placed_at(g, s, u, ds[j], q));
        geometry::lemma_unit_cell(g, u, q - 1);
        let cell = g.unit_cell(u, q - 1);
        assert(masks::holds(c[cell], s[cell]));
        if t[cell] != 0 {
            assert(solved[cell] != 0);
            assert(unit_places::placed_at(g, t, u, ds[j], q));
        }
        assert(unit_places::unit_has(g, c, t, u, ds[j], q));
    }
    assert forall|i: int, j: int| 0 <= i < j < f.len() implies f[i] != f[j] by {
        assert(unit_places::placed_at(g, s, u, ds[i], f[i]) && unit_places::placed_at(g, s, u, ds[j], f[j]));
        assert(ds[i] != ds[j]);
    }
    assert(f.no_duplicates());
    lemma_spots_finite(g, c, t, u, ds);
    let i = solutions::lemma_pigeonhole(f, all, p);
    assert(unit_places::placed_at(g, s, u, ds[i], f[i]));
    assert(ds.contains(ds[i]));
}

/// A position among those of a mask, and a digit outside another mask that is a candidate
/// there.
fn find_outsider<const N: usize, const BR: usize, const BC: usize>(
    grid: &Grid<N, BR, BC>,
    u: usize,
    union: u32,
    digit_mask: u32,
) -> (r: Option<(usize, u8)>)
    requires
        grid.wf(),
        u < 3 * N,
    ensures
        r matches Some((p, d)) ==> {
            &&& 1 <= p <= N
            &&& 1 <= d <= N
            &&& masks::holds(union, p as int)
            &&& masks::holds(
                grid.candidates@[Grid::<N, BR, BC>::shape().unit_cell(u as int, p - 1)],
                d as int,
            )
            &&& !masks::holds(digit_mask, d as int)
        },
        r is None ==> forall|p: int, d: int|
            1 <= p <= N && #[trigger] masks::holds(union, p) && #[trigger] masks::holds(
                grid.candidates@[Grid::<N, BR, BC>::shape().unit_cell(u as int, p - 1)],
                d,
            ) ==> masks::holds(digit_mask, d),
{
    let ghost g = Grid::<N, BR, BC>::shape();
    let ghost c = grid.candidates@;
    let ghost ui = u as int;
    assert(peer_tables::lists_unit(g, ui, grid.table.units@[ui]@));
    let mut k: usize = 0;
    while k < N
        invariant
            grid.wf(),
            g == Grid::<N, BR, BC>::shape(),
            c == grid.candidates@,
            ui == u,
            g.is_unit(ui),
            u < grid.table.units@.len(),
            peer_tables::lists_unit(g, ui, grid.table.units@[ui]@),
            k <= N,
            forall|p: int, d: int|
                1 <= p <= k && #[trigger] masks::holds(union, p) && #[trigger] masks::holds(
                    c[g.unit_cell(ui, p - 1)],
                    d,
                ) ==> masks::holds(digit_mask, d),
        decreases N - k,
    {
        let ghost cell = g.unit_cell(ui, k as int);
        proof {
            geometry::lemma_unit_cell(g, ui, k as int);
            assert(grid.table.units@[ui]@[k as int] == cell);
        }
        let i: usize = grid.table.units[u][k] as usize;
        if union & masks::digit_bit((k + 1) as u8) != 0 {
            assert(masks::holds(union, k as int + 1));
            let rest: u32 = grid.candidates[i] & !digit_mask;
            if rest != 0 {
                let d: u8 = masks::lowest_digit(rest);
                assert(masks::holds(rest, d as int));
                assert(masks::holds(c[cell], d as int));
                return Some((k + 1, d));
            }
            proof {
                masks::lemma_zero(rest);
                assert forall|d: int| masks::holds(c[cell], d) implies masks::holds(digit_mask, d) by {
                    assert(!masks::holds(rest, d));
                }
            }
        } else {
            assert(!masks::holds(union, k as int + 1));
        }
        k += 1;
    }
    None
}

/// Whether the digits form a hidden quad that rules something out; where, and which digit.
fn find_in_quad<const N: usize, const BR: usize, const BC: usize>(
    grid: &Grid<N, BR, BC>,
    digits: [u8; 4],
    u: usize,
) -> (r: Option<(usize, u8)>)
    requires
        grid.wf(),
        u < 3 * N,
        forall|j: int| 0 <= j < 4 ==> 1 <= #[trigger] digits@[j] <= N,
        digits@.no_duplicates(),
    ensures
        r is Some == quad_fires(
            Grid::<N, BR, BC>::shape(),
            grid.candidates@,
            solutions::digits_of(grid.solved@),
            u as int,
            quad_ints(digits@),
        ),
        r matches Some((p, d)) ==> 1 <= p <= N && 1 <= d <= N && quad_kills(
            Grid::<N, BR, BC>::shape(),
            grid.candidates@,
            solutions::digits_of(grid.solved@),
            u as int,
            quad_ints(digits@),
            p as int,
            d as int,
        ),
{
    let ghost g = Grid::<N, BR, BC>::shape();
    let ghost c = grid.candidates@;
    let ghost t = solutions::digits_of(grid.solved@);
    let ghost ui = u as int;
    let ghost ds = quad_ints(digits@);
    let mut union: u32 = 0;
    let mut digit_mask: u32 = 0;
    let mut j: usize = 0;
    while j < 4
        invariant
            grid.wf(),
            g == Grid::<N, BR, BC>::shape(),
            c == grid.candidates@,
            t == solutions::digits_of(grid.solved@),
            ui == u,
            u < 3 * N,
            ds == quad_ints(digits@),
            forall|j: int| 0 <= j < 4 ==> 1 <= #[trigger] digits@[j] <= N,
            j <= 4,
            forall|i: int| 0 <= i < j ==> is_scarce(g, c, t, ui, #[trigger] ds[i]),
            forall|p: int| #[trigger]
                masks::holds(union, p) == exists|i: int|
                    0 <= i < j && unit_places::unit_has(g, c, t, ui, #[trigger] ds[i], p),
            forall|d: int| #[trigger]
                masks::holds(digit_mask, d) == exists|i: int| 0 <= i < j && #[trigger] ds[i] == d,
        decreases 4 - j,
    {
        let ghost union0 = union;
        let ghost mask0 = digit_mask;
        let d: u8 = digits[j];
        assert(1 <= digits@[j as int] <= N);
        let ghost di = ds[j as int];
        assert(di == d);
        let (spot, placed) = unit_places::spot_mask(grid, u, d);
        let count: u32 = spot.count_ones();
        assert(masks::digits(spot) =~= unit_places::spots(g, c, t, ui, di));
        if placed || count < 2 || count > 4 {
            assert(!is_scarce(g, c, t, ui, ds[j as int]));
            return None;
        }
        assert(is_scarce(g, c, t, ui, ds[j as int]));
        union = union | spot;
        digit_mask = digit_mask | masks::digit_bit(d);
        proof {
            assert forall|p: int| #[trigger] masks::holds(union, p) == exists|i: int|
                0 <= i < j + 1 && unit_places::unit_has(g, c, t, ui, #[trigger] ds[i], p) by {
                if masks::holds(union0, p) {
                    let i = choose|i: int| 0 <= i < j && unit_places::unit_has(g, c, t, ui, #[trigger] ds[i], p);
                    assert(unit_places::unit_has(g, c, t, ui, ds[i], p));
                } else if masks::holds(spot, p) {
                    assert(unit_places::unit_has(g, c, t, ui, ds[j as int], p));
                }
            }
            assert forall|x: int| #[trigger] masks::holds(digit_mask, x) == exists|i: int|
                0 <= i < j + 1 && #[trigger] ds[i] == x by {
                if masks::holds(mask0, x) {
                    let i = choose|i: int| 0 <= i < j && #[trigger] ds[i] == x;
                    assert(ds[i] == x);
                } else if x == di {
                    assert(ds[j as int] == x);
                }
            }
        }
        j += 1;
    }
    let ghost all = spots_of_all(g, c, t, ui, ds);
    assert(masks::digits(union) =~= all);
    if union.count_ones() != 4 {
        return None;
    }
    proof {
        assert forall|i: int, k: int| 0 <= i < k < ds.len() implies ds[i] != ds[k] by {
            assert(digits@[i] != digits@[k]);
        }
        assert(ds.no_duplicates());
        assert(is_hidden_quad(g, c, t, ui, ds));
    }
    let r = find_outsider(grid, u, union, digit_mask);
    proof {
        match r {
            Some((p, d)) => {
                assert(all.contains(p as int));
                assert(quad_kills(g, c, t, ui, ds, p as int, d as int)) by {
                    if ds.contains(d as int) {
                        let i = choose|i: int| 0 <= i < ds.len() && ds[i] == d as int;
                        assert(masks::holds(digit_mask, d as int));
                    }
                }
            },
            None => {
                assert forall|p: int, d: int| !#[trigger] quad_kills(g, c, t, ui, ds, p, d) by {
                    if quad_kills(g, c, t, ui, ds, p, d) {
                        assert(all.contains(p));
                        assert(masks::holds(union, p));
                        assert(masks::holds(digit_mask, d));
                        let i = choose|i: int| 0 <= i < 4 && #[trigger] ds[i] == d;
                        assert(ds.contains(d));
                    }
                }
            },
        }
    }
    r
}

/// The digits as integers.
pub open spec fn quad_ints(ds: Seq<u8>) -> Seq<int> {
    Seq::new(ds.len(), |i: int| ds[i] as int)
}

/// Whether the four digits, in any order, are a hidden quad of a unit that rules something
/// out. Nothing is changed.
pub fn try_hidden_quad_eliminate_dryrun<const N: usize, const BR: usize, const BC: usize>(
    grid: &Grid<N, BR, BC>,
    digits: [u8; 4],
    unit_idx: usize,
) -> (r: bool)
    requires
        grid.wf(),
    ensures
        r == quad_fires(
            Grid::<N, BR, BC>::shape(),
            grid.candidates@,
            solutions::digits_of(grid.solved@),
            unit_idx as int,
            quad_ints(digits@),
        ),
{
    let ghost g = Grid::<N, BR, BC>::shape();
    let ghost c = grid.candidates@;
    let ghost t = solutions::digits_of(grid.solved@);
    let ghost ds = quad_ints(digits@);
    if unit_idx >= 3 * N {
        return false;
    }
    let mut i: usize = 0;
    while i < 4
        invariant
            g == Grid::<N, BR, BC>::shape(),
            ds == quad_ints(digits@),
            i <= 4,
            forall|k: int| 0 <= k < i ==> 1 <= #[trigger] digits@[k] <= N,
            forall|k: int, l: int| 0 <= k < l < i ==> digits@[k] != digits@[l],
        decreases 4 - i,
    {
        let d: u8 = digits[i];
        if d < 1 || d as usize > N {
            assert(!is_scarce(g, c, t, unit_idx as int, ds[i as int]));
            return false;
        }
        let mut j: usize = 0;
        while j < i
            invariant
                ds == quad_ints(digits@),
                i < 4,
                j <= i,
                d == digits@[i as int],
                forall|k: int| 0 <= k < j ==> digits@[k] != d,
            decreases i - j,
        {
            if digits[j] == d {
                assert(ds[j as int] == ds[i as int]);
                return false;
            }
            j += 1;
        }
        i += 1;
    }
    assert(digits@.no_duplicates());
    find_in_quad(grid, digits, unit_idx).is_some()
}

/// The digits that can take part in a hidden quad of a unit, in ascending order.
fn scarce_digits<const N: usize, const BR: usize, const BC: usize>(
    grid: &Grid<N, BR, BC>,
    u: usize,
) -> (v: Vec<u8>)
    requires
        grid.wf(),
        u < 3 * N,
    ensures
        combos::increasing(quad_ints(v@)),
        v@.len() <= N,
        forall|d: int| #[trigger]
            quad_ints(v@).contains(d) == is_scarce(
                Grid::<N, BR, BC>::shape(),
                grid.candidates@,
                solutions::digits_of(grid.solved@),
                u as int,
                d,
            ),
{
    let ghost g = Grid::<N, BR, BC>::shape();
    let ghost c = grid.candidates@;
    let ghost t = solutions::digits_of(grid.solved@);
    let ghost ui = u as int;
    let mut v: Vec<u8> = Vec::new();
    let mut d: u8 = 1;
    while d as usize <= N
        invariant
            grid.wf(),
            g == Grid::<N, BR, BC>::shape(),
            c == grid.candidates@,
            t == solutions::digits_of(grid.solved@),
            ui == u,
            u < 3 * N,
            1 <= d <= N + 1,
            v@.len() < d,
            forall|i: int| 0 <= i < v@.len() ==> (#[trigger] v@[i]) < d,
            combos::increasing(quad_ints(v@)),
            forall|x: int| #[trigger]
                quad_ints(v@).contains(x) == (x < d && is_scarce(g, c, t, ui, x)),
        decreases N + 1 - d,
    {
        let ghost v0 = v@;
        let (spot, placed) = unit_places::spot_mask(grid, u, d);
        let count: u32 = spot.count_ones();
        assert(masks::digits(spot) =~= unit_places::spots(g, c, t, ui, d as int));
        if !placed && 2 <= count && count <= 4 {
            v.push(d);
            assert(is_scarce(g, c, t, ui, d as int));
            assert(quad_ints(v@)[v0.len() as int] == d);
        } else {
            assert(!is_scarce(g, c, t, ui, d as int));
        }
        proof {
            assert forall|x: int| #[trigger] quad_ints(v@).contains(x) == (x < d + 1 && is_scarce(
                g,
                c,
                t,
                ui,
                x,
            )) by {
                if quad_ints(v0).contains(x) {
                    let i = choose|i: int| 0 <= i < quad_ints(v0).len() && quad_ints(v0)[i] == x;
                    assert(quad_ints(v@)[i] == x);
                } else if quad_ints(v@).contains(x) {
                    let i = choose|i: int| 0 <= i < quad_ints(v@).len() && quad_ints(v@)[i] == x;
                    if i < v0.len() {
                        assert(quad_ints(v0)[i] == x);
                    }
                }
            }
            assert forall|i: int, j: int| 0 <= i < j < v@.len() implies quad_ints(v@)[i] < quad_ints(
                v@,
            )[j] by {
                if j < v0.len() {
                    assert(quad_ints(v0)[i] < quad_ints(v0)[j]);
                } else {
                    assert(v0[i] < d);
                }
            }
        }
        d += 1;
    }
    v
}

/// The first hidden quad of one unit that rules something out.
fn first_in_unit<const N: usize, const BR: usize, const BC: usize>(
    grid: &Grid<N, BR, BC>,
    u: usize,
) -> (r: Option<[u8; 4]>)
    requires
        grid.wf(),
        u < 3 * N,
    ensures
        r matches Some(q) ==> {
            &&& combos::increasing(quad_ints(q@))
            &&& quad_fires(
                Grid::<N, BR, BC>::shape(),
                grid.candidates@,
                solutions::digits_of(grid.solved@),
                u as int,
                quad_ints(q@),
            )
        },
        r matches Some(q) ==> forall|es: Seq<int>| #[trigger]
            quad_fires(
                Grid::<N, BR, BC>::shape(),
                grid.candidates@,
                solutions::digits_of(grid.solved@),
                u as int,
                es,
            ) && combos::increasing(es) ==> es == quad_ints(q@) || combos::lex_lt(
                quad_ints(q@),
                es,
            ),
        r is None ==> forall|es: Seq<int>|
            !(#[trigger] quad_fires(
                Grid::<N, BR, BC>::shape(),
                grid.candidates@,
                solutions::digits_of(grid.solved@),
                u as int,
                es,
            ) && combos::increasing(es)),
{
    let ghost g = Grid::<N, BR, BC>::shape();
    let ghost c = grid.candidates@;
    let ghost t = solutions::digits_of(grid.solved@);
    let ghost ui = u as int;
    let avail: Vec<u8> = scarce_digits(grid, u);
    let ghost list = quad_ints(avail@);
    let all: Vec<Vec<usize>> = combinations(avail.len(), 4);
    let mut i: usize = 0;
    while i < all.len()
        invariant
            grid.wf(),
            g == Grid::<N, BR, BC>::shape(),
            c == grid.candidates@,
            t == solutions::digits_of(grid.solved@),
            ui == u,
            u < 3 * N,
            list == quad_ints(avail@),
            avail@.len() <= N,
            combos::increasing(list),
            forall|d: int| #[trigger] list.contains(d) == is_scarce(g, c, t, ui, d),
            combos::lists_combos(all@, avail@.len() as int, 4),
            i <= all@.len(),
            forall|k: int|
                0 <= k < i ==> !quad_fires(
                    g,
                    c,
                    t,
                    ui,
                    combos::picked(list, (#[trigger] all@[k])@),
                ),
        decreases all@.len() - i,
    {
        let idx = &all[i];
        assert(combos::is_combo(all@[i as int]@, avail@.len() as int));
        assert(idx@[0] < avail@.len() && idx@[1] < avail@.len() && idx@[2] < avail@.len() && idx@[3]
            < avail@.len());
        let q: [u8; 4] = [avail[idx[0]], avail[idx[1]], avail[idx[2]], avail[idx[3]]];
        let ghost ds = combos::picked(list, idx@);
        proof {
            assert(quad_ints(q@) =~= ds);
            combos::lemma_picked(list, idx@);
            assert forall|j: int| 0 <= j < 4 implies 1 <= #[trigger] q@[j] <= N by {
                assert(list.contains(ds[j]));
                assert(is_scarce(g, c, t, ui, ds[j]));
                assert(q@[j] == ds[j]);
            }
            assert forall|a: int, b: int| 0 <= a < b < 4 implies q@[a] != q@[b] by {
                assert(ds[a] < ds[b]);
                assert(q@[a] == ds[a] && q@[b] == ds[b]);
            }
            assert(q@.no_duplicates());
        }
        if find_in_quad(grid, q, u).is_some() {
            proof {
                assert forall|es: Seq<int>| #[trigger]
                    quad_fires(g, c, t, ui, es) && combos::increasing(es) implies es == ds
                    || combos::lex_lt(ds, es) by {
                    let k = lemma_listed(g, c, t, ui, es, list, all@);
                    if k > i {
                        combos::lemma_picked_order(list, all@[i as int]@, all@[k]@);
                    }
                }
            }
            return Some(q);
        }
        i += 1;
    }
    proof {
        assert forall|es: Seq<int>| !(#[trigger] quad_fires(g, c, t, ui, es) && combos::increasing(
            es,
        )) by {
            if quad_fires(g, c, t, ui, es) && combos::increasing(es) {
                let k = lemma_listed(g, c, t, ui, es, list, all@);
            }
        }
    }
    None
}

/// Every hidden quad is picked from the digits that can take part.
proof fn lemma_listed(
    g: Dims,
    c: Seq<u32>,
    t: Seq<int>,
    u: int,
    es: Seq<int>,
    list: Seq<int>,
    all: Seq<Vec<usize>>,
) -> (k: int)
    requires
        quad_fires(g, c, t, u, es),
        combos::increasing(es),
        combos::increasing(list),
        list.len() <= usize::MAX,
        forall|d: int| #[trigger] list.contains(d) == is_scarce(g, c, t, u, d),
        combos::lists_combos(all, list.len() as int, 4),
    ensures
        0 <= k < all.len(),
        combos::picked(list, all[k]@) == es,
{
    assert forall|j: int| 0 <= j < es.len() implies list.contains(#[trigger] es[j]) by {
        assert(is_scarce(g, c, t, u, es[j]));
    }
    let x = combos::lemma_positions(list, es);
    choose|k: int| 0 <= k < all.len() && (#[trigger] all[k])@ == x
}

/// The first hidden quad that rules something out: its unit and its digits.
pub fn find_first_hidden_quad<const N: usize, const BR: usize, const BC: usize>(
    grid: &Grid<N, BR, BC>,
) -> (r: Option<(usize, [u8; 4])>)
    requires
        grid.wf(),
    ensures
        r matches Some((u, q)) ==> is_first_quad(
            Grid::<N, BR, BC>::shape(),
            grid.candidates@,
            solutions::digits_of(grid.solved@),
            u as int,
            quad_ints(q@),
        ),
        r is Some == some_quad(
            Grid::<N, BR, BC>::shape(),
            grid.candidates@,
            solutions::digits_of(grid.solved@),
        ),
{
    let ghost g = Grid::<N, BR, BC>::shape();
    let ghost c = grid.candidates@;
    let ghost t = solutions::digits_of(grid.solved@);
    let mut u: usize = 0;
    while u < 3 * N
        invariant
            grid.wf(),
            g == Grid::<N, BR, BC>::shape(),
            c == grid.candidates@,
            t == solutions::digits_of(grid.solved@),
            u <= 3 * N,
            forall|v: int, es: Seq<int>|
                v < u ==> !(#[trigger] quad_fires(g, c, t, v, es) && combos::increasing(es)),
        decreases 3 * N - u,
    {
        if let Some(q) = first_in_unit(grid, u) {
            let r = (u, q);
            assert(is_first_quad(g, c, t, r.0 as int, quad_ints(r.1@)));
            return Some(r);
        }
        u += 1;
    }
    None
}

/// The first hidden quad rules `d` out in `cell`.
pub open spec fn quad_excludes(g: Dims, c: Seq<u32>, solved: Seq<int>, cell: int, d: int) -> bool {
    exists|u: int, ds: Seq<int>, p: int|
        is_first_quad(g, c, solved, u, ds) && #[trigger] quad_kills(g, c, solved, u, ds, p, d)
            && cell == g.unit_cell(u, p - 1)
}

/// Takes away one candidate that the first hidden quad rules out: the cell, and the digit.
pub fn apply_hidden_quad<const N: usize, const BR: usize, const BC: usize>(
    grid: &mut Grid<N, BR, BC>,
) -> (r: Option<(usize, u8)>)
    requires
        old(grid).wf(),
    ensures
        final(grid).wf(),
        r is Some == some_quad(
            Grid::<N, BR, BC>::shape(),
            old(grid).candidates@,
            solutions::digits_of(old(grid).solved@),
        ),
        r is None ==> final(grid).same(old(grid)),
        r matches Some((cell, d)) ==> {
            &&& cell < N * N
            &&& 1 <= d <= N
            &&& masks::holds(old(grid).candidates@[cell as int], d as int)
            &&& quad_excludes(
                Grid::<N, BR, BC>::shape(),
                old(grid).candidates@,
                solutions::digits_of(old(grid).solved@),
                cell as int,
                d as int,
            )
            &&& final(grid).solved@ == old(grid).solved@
            &&& final(grid).candidates@ == old(grid).candidates@.update(
                cell as int,
                old(grid).candidates@[cell as int] & !masks::bit(d as int),
            )
        },
        final(grid).solutions() == old(grid).solutions(),
{
    let ghost g = Grid::<N, BR, BC>::shape();
    let ghost c = grid.candidates@;
    let ghost solved = grid.solved@;
    let ghost t = solutions::digits_of(grid.solved@);
    match find_first_hidden_quad(grid) {
        Some((u, q)) => {
            let ghost ui = u as int;
            let ghost ds = quad_ints(q@);
            proof {
                assert(is_hidden_quad(g, c, t, ui, ds));
                assert forall|j: int| 0 <= j < 4 implies 1 <= #[trigger] q@[j] <= N by {
                    assert(is_scarce(g, c, t, ui, ds[j]));
                }
                assert forall|a: int, b: int| 0 <= a < b < 4 implies q@[a] != q@[b] by {
                    assert(ds[a] < ds[b]);
                }
                assert(q@.no_duplicates());
            }
            match find_in_quad(grid, q, u) {
                Some((p, d)) => {
                    proof {
                        assert(peer_tables::lists_unit(g, ui, grid.table.units@[ui]@));
                        geometry::lemma_unit_cell(g, ui, p - 1);
                        assert(grid.table.units@[ui]@[p - 1] == g.unit_cell(ui, p - 1));
                    }
                    let cell: usize = grid.table.units[u][p - 1] as usize;
                    proof {
                        assert forall|s: Seq<int>| solutions::solutions(g, c).contains(
                            s,
                        ) implies s[cell as int] != d by {
                            law_hidden_quad_sound(g, c, solved, ui, ds, p as int, d as int, s);
                        }
                        solutions::lemma_eliminate_solutions(g, c, cell as int, d as int);
                        assert(quad_excludes(g, c, t, cell as int, d as int));
                        let j = choose|j: int|
                            0 <= j < ds.len() && unit_places::unit_has(g, c, t, ui, #[trigger] ds[j], p as int);
                        assert(t[cell as int] == solved[cell as int]);
                    }
                    let _ = grid.eliminate(cell, d);
                    Some((cell, d))
                },
                None => {
                    assert(false);
                    None
                },
            }
        },
        None => None,
    }
}

/// The search for a hidden quad.
pub struct HiddenQuadProbe {}

impl<const N: usize, const BR: usize, const BC: usize> Probe<N, BR, BC> for HiddenQuadProbe {
    /// One if a hidden quad rules something out, else zero.
    open spec fn score(&self, c: Seq<u32>, solved: Seq<int>) -> int {
        if some_quad(Grid::<N, BR, BC>::shape(), c, solved) {
            1
        } else {
            0
        }
    }

    /// A hidden quad that was found is not lost.
    open spec fn accepts(&self, current: int, next: int) -> bool {
        current == 0 || next == 1
    }

    open spec fn ready(&self) -> bool {
        true
    }

    fn score_of(&mut self, g: &Grid<N, BR, BC>) -> (r: u64) {
        if find_first_hidden_quad(g).is_some() {
            1
        } else {
            0
        }
    }

    fn accept(&self, current: u64, next: u64) -> (r: bool) {
        current == 0 || next == 1
    }
}

/// What a result has to be besides well formed.
pub open spec fn quad_result_ok<const N: usize, const BR: usize, const BC: usize>(
    spec: HiddenQuadReverseSpec,
    r: ReverseResult<N, BR, BC>,
) -> bool {
    &&& spec.is_valid()
    &&& reverse_construct::rated_at(r.rate, spec.target_tier, TechniqueId::HiddenQuad)
}

/// The puzzle and its solution come out of the `n`-th attempt of a generator that held the
/// words `words` before the first.
pub open spec fn quad_is_drawn<const N: usize, const BR: usize, const BC: usize>(
    spec: HiddenQuadReverseSpec,
    x: ReverseResult<N, BR, BC>,
    words: Seq<u64>,
    n: nat,
) -> bool {
    guided_removal::is_attempt::<N, BR, BC, HiddenQuadProbe>(
        (HiddenQuadProbe {  }),
        x.puzzle,
        x.solution,
        spec.clue_min,
        spec.clue_max,
        guided_removal::trial_cap(spec.greedy_max_trials),
        words,
        n,
    )
}

/// The `n`-th attempt of a generator that held the words `words` before the first led to `x`, with
/// ratings that a rater can give.
pub open spec fn quad_is_tried<const N: usize, const BR: usize, const BC: usize, R: Rater<N, BR, BC>>(
    spec: HiddenQuadReverseSpec,
    words: Seq<u64>,
    n: nat,
    x: ReverseResult<N, BR, BC>,
    without: Option<RateResult>,
) -> bool {
    &&& x.wf()
    &&& x.attempts_taken == n
    &&& quad_is_drawn(spec, x, words, n)
    &&& reverse_construct::are_answers::<N, BR, BC, R>(
        reverse_construct::rated_at(x.rate, spec.target_tier, TechniqueId::HiddenQuad),
        spec.require_load_bearing,
        TechniqueId::HiddenQuad,
        without,
        x,
    )
}

/// The `n`-th attempt of a generator that held the words `words` before the first can lead to `r`.
pub open spec fn quad_leads_to<const N: usize, const BR: usize, const BC: usize, R: Rater<N, BR, BC>>(
    spec: HiddenQuadReverseSpec,
    words: Seq<u64>,
    n: nat,
    r: Option<ReverseResult<N, BR, BC>>,
) -> bool {
    exists|x: ReverseResult<N, BR, BC>, without: Option<RateResult>| #[trigger]
        quad_is_tried::<N, BR, BC, R>(spec, words, n, x, without) && r == reverse_construct::outcome(
            reverse_construct::rated_at(x.rate, spec.target_tier, TechniqueId::HiddenQuad),
            spec.require_load_bearing,
            spec.target_tier,
            without,
            x,
        )
}

/// The limit on the attempts makes no difference to what one of them leads to.
proof fn lemma_limit<const N: usize, const BR: usize, const BC: usize, R: Rater<N, BR, BC>>(
    spec: HiddenQuadReverseSpec,
    max_attempts: u32,
    words: Seq<u64>,
    n: nat,
    r: Option<ReverseResult<N, BR, BC>>,
)
    requires
        quad_leads_to::<N, BR, BC, R>(HiddenQuadReverseSpec { max_attempts, ..spec }, words, n, r),
    ensures
        quad_leads_to::<N, BR, BC, R>(spec, words, n, r),
{
    let other = HiddenQuadReverseSpec { max_attempts, ..spec };
    let (x, without) = choose|x: ReverseResult<N, BR, BC>, without: Option<RateResult>| #[trigger]
        quad_is_tried::<N, BR, BC, R>(other, words, n, x, without) && r == reverse_construct::outcome(
            reverse_construct::rated_at(x.rate, other.target_tier, TechniqueId::HiddenQuad),
            other.require_load_bearing,
            other.target_tier,
            without,
            x,
        );
    assert(quad_is_tried::<N, BR, BC, R>(spec, words, n, x, without));
}

/// Searches for a puzzle that needs a hidden quad. Each attempt carves a puzzle out of a
/// random solution, takes further clues away towards a hidden quad, and rates it.
pub fn hidden_quad_reverse_construct<
    const N: usize,
    const BR: usize,
    const BC: usize,
    R: Rater<N, BR, BC>,
>(rng: &mut Xoshiro256PlusPlus, rater: &mut R, spec: &HiddenQuadReverseSpec) -> (r: Option<
    ReverseResult<N, BR, BC>,
>)
    requires
        Grid::<N, BR, BC>::shape().ok(),
    ensures
        !spec.is_valid() || spec.max_attempts == 0 ==> r is None,
        r matches Some(x) ==> x.wf() && quad_result_ok(*spec, x) && 1 <= x.attempts_taken
            <= spec.max_attempts,
        r matches Some(x) ==> quad_is_drawn(
            *spec,
            x,
            rng::state(*old(rng)),
            x.attempts_taken as nat,
        ),
        spec.is_valid() ==> rng::state(*final(rng)) == guided_removal::words_after(
            Grid::<N, BR, BC>::shape(),
            spec.clue_max,
            rng::state(*old(rng)),
            match r {
                Some(x) => x.attempts_taken as nat,
                None => spec.max_attempts as nat,
            },
        ),
        !spec.is_valid() ==> rng::state(*final(rng)) == rng::state(*old(rng)),
        r matches Some(x) ==> quad_leads_to::<N, BR, BC, R>(
            *spec,
            rng::state(*old(rng)),
            x.attempts_taken as nat,
            r,
        ),
        spec.is_valid() ==> forall|i: nat|
            1 <= i <= (match r {
                Some(x) => x.attempts_taken - 1,
                None => spec.max_attempts as int,
            }) ==> #[trigger] quad_leads_to::<N, BR, BC, R>(*spec, rng::state(*old(rng)), i, None),
{
    if spec.validate().is_err() {
        return None;
    }
    let mut probe = HiddenQuadProbe {  };
    let ghost sh = Grid::<N, BR, BC>::shape();
    let ghost first = probe;
    let mut attempt: u32 = 0;
    while attempt < spec.max_attempts
        invariant
            sh == Grid::<N, BR, BC>::shape(),
            first == (HiddenQuadProbe {  }),
            forall|c: Seq<u32>, t: Seq<int>| #[trigger]
                <HiddenQuadProbe as Probe<N, BR, BC>>::score(&probe, c, t) == <HiddenQuadProbe as Probe<
                    N,
                    BR,
                    BC,
                >>::score(&first, c, t),
            forall|a: int, b: int| #[trigger]
                <HiddenQuadProbe as Probe<N, BR, BC>>::accepts(&probe, a, b) == <HiddenQuadProbe as Probe<
                    N,
                    BR,
                    BC,
                >>::accepts(&first, a, b),
            rng::state(*rng) == guided_removal::words_after(
                sh,
                spec.clue_max,
                rng::state(*old(rng)),
                attempt as nat,
            ),
            Grid::<N, BR, BC>::shape().ok(),
            spec.is_valid(),
            attempt <= spec.max_attempts,
            forall|i: nat|
                1 <= i <= attempt ==> #[trigger] quad_leads_to::<N, BR, BC, R>(
                    *spec,
                    rng::state(*old(rng)),
                    i,
                    None,
                ),
        decreases spec.max_attempts - attempt,
    {
        attempt += 1;
        let ghost now = probe;
        let ghost words = rng::state(*rng);
        let (puzzle, solution, clue_count) = guided_removal::carve_attempt::<
            N,
            BR,
            BC,
            HiddenQuadProbe,
        >(rng, &mut probe, spec.clue_min, spec.clue_max, spec.greedy_max_trials);
        proof {
            let drawn = guided_removal::drawn_attempt(sh, spec.clue_max, words);
            guided_removal::lemma_same_probe::<N, BR, BC, HiddenQuadProbe>(
                now,
                first,
                puzzle,
                solution,
                spec.clue_min,
                guided_removal::trial_cap(spec.greedy_max_trials),
                drawn.1,
                drawn.2,
            );
        }
        let rate = rater.rate(&puzzle);
        let fits: bool = reverse_construct::is_rated_at(&rate, spec.target_tier, TechniqueId::HiddenQuad);
        let without: Option<RateResult> = if fits && spec.require_load_bearing {
            let ids: Vec<TechniqueId> = vec![TechniqueId::HiddenQuad];
            assert(ids@ =~= seq![TechniqueId::HiddenQuad]);
            Some(rater.rate_excluding(&puzzle, &ids))
        } else {
            None
        };
        let x = ReverseResult { puzzle, solution, rate, clue_count, attempts_taken: attempt };
        let ghost tried = x;
        let ghost said = without;
        let found = judged(
            fits,
            spec.require_load_bearing,
            spec.target_tier,
            without,
            x,
        );
        assert(quad_is_tried::<N, BR, BC, R>(
            *spec,
            rng::state(*old(rng)),
            attempt as nat,
            tried,
            said,
        ));
        assert(quad_leads_to::<N, BR, BC, R>(
            *spec,
            rng::state(*old(rng)),
            attempt as nat,
            found,
        ));
        if found.is_some() {
            return found;
        }
    }
    None
}

/// The search as a job for `batch`.
pub struct HiddenQuadJob<R> {
    pub spec: HiddenQuadReverseSpec,
    pub rater: R,
}

impl<const N: usize, const BR: usize, const BC: usize, R: Rater<N, BR, BC>> Construct<N, BR, BC> for HiddenQuadJob<
    R,
> {
    open spec fn accepts(&self, x: ReverseResult<N, BR, BC>) -> bool {
        quad_result_ok(self.spec, x)
    }

    open spec fn is_possible(&self) -> bool {
        self.spec.is_valid()
    }

    open spec fn most_clues(&self) -> u32 {
        self.spec.clue_max
    }

    open spec fn draws(&self, x: ReverseResult<N, BR, BC>, words: Seq<u64>, n: nat) -> bool {
        quad_is_drawn(self.spec, x, words, n)
    }

    open spec fn leads_to(
        &self,
        words: Seq<u64>,
        n: nat,
        r: Option<ReverseResult<N, BR, BC>>,
    ) -> bool {
        quad_leads_to::<N, BR, BC, R>(self.spec, words, n, r)
    }

    fn construct(&mut self, rng: &mut Xoshiro256PlusPlus, max_attempts: u32) -> (r: Option<
        ReverseResult<N, BR, BC>,
    >) {
        let mut spec = self.spec;
        spec.max_attempts = max_attempts;
        let r = hidden_quad_reverse_construct(rng, &mut self.rater, &spec);
        proof {
            let words = rng::state(*old(rng));
            assert(spec == (HiddenQuadReverseSpec { max_attempts, ..self.spec }));
            assert forall|i: nat, x: Option<ReverseResult<N, BR, BC>>|
                quad_leads_to::<N, BR, BC, R>(spec, words, i, x) implies #[trigger] quad_leads_to::<
                N,
                BR,
                BC,
                R,
            >(self.spec, words, i, x) by {
                lemma_limit::<N, BR, BC, R>(self.spec, max_attempts, words, i, x);
            }
            if self.spec.is_valid() {
                assert forall|i: nat|
                    1 <= i <= (match r {
                        Some(x) => x.attempts_taken - 1,
                        None => max_attempts as int,
                    }) implies #[trigger] quad_leads_to::<N, BR, BC, R>(
                    self.spec,
                    words,
                    i,
                    None,
                ) by {
                    assert(quad_leads_to::<N, BR, BC, R>(spec, words, i, None));
                }
            }
        }
        r
    }
}

/// The result comes out of an attempt of one of the workers, whose attempts do not exceed its
/// share.
pub open spec fn quad_comes_from_worker<const N: usize, const BR: usize, const BC: usize>(
    spec: HiddenQuadReverseSpec,
    x: ReverseResult<N, BR, BC>,
    seed: u64,
    threads: usize,
) -> bool {
    exists|w: int, m: nat|
        0 <= w < reverse_construct::workers_for(threads) && m + x.attempts_taken
            <= reverse_construct::share_of_attempts(
            spec.max_attempts,
            reverse_construct::workers_for(threads),
        ) && #[trigger] quad_is_drawn(
            spec,
            x,
            reverse_construct::worker_words(
                Grid::<N, BR, BC>::shape(),
                spec.clue_max,
                seed,
                w,
                m,
            ),
            x.attempts_taken as nat,
        )
}

/// Searches for up to `num_puzzles` puzzles. The attempts are shared out among `threads`
/// workers, each with a generator of its own, which take their turns one after another.
pub fn batch_hidden_quad_reverse_construct<
    const N: usize,
    const BR: usize,
    const BC: usize,
    R: Rater<N, BR, BC>,
>(
    rng_seed: u64,
    rater: R,
    spec: &HiddenQuadReverseSpec,
    num_puzzles: u32,
    threads: usize,
) -> (r: Vec<ReverseResult<N, BR, BC>>)
    requires
        Grid::<N, BR, BC>::shape().ok(),
    ensures
        r@.len() <= num_puzzles,
        forall|i: int|
            0 <= i < r@.len() ==> (#[trigger] r@[i]).wf() && quad_result_ok(*spec, r@[i]),
        forall|i: int|
            0 <= i < r@.len() ==> quad_comes_from_worker(
                *spec,
                #[trigger] r@[i],
                rng_seed,
                threads,
            ),
        !spec.is_valid() ==> r@.len() == 0,
        reverse_construct::may_find::<N, BR, BC, HiddenQuadJob<R>>(
            (HiddenQuadJob { spec: *spec, rater }),
            rng_seed,
            spec.max_attempts,
            num_puzzles,
            threads,
            r@,
        ),
{
    let max_attempts: u32 = spec.max_attempts;
    let mut job = HiddenQuadJob { spec: *spec, rater };
    batch(&mut job, rng_seed, max_attempts, num_puzzles, threads)
}

} // verus!
