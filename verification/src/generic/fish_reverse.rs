//! Fish: X-Wing, Swordfish and Jellyfish, and puzzles that need one.
//!
//! A fish of size `k` on a digit: `k` parallel lines whose places for the digit all lie in
//! the same `k` crossing lines. The digit then goes nowhere else in the crossing lines.

use super::combos;
use super::combos::combinations;
use super::geometry;
use super::geometry::Dims;
use super::grid::Grid;
use super::guided_removal;
use super::guided_removal::Probe;
use super::masks;
use super::peer_tables;
use super::rater::{RateResult, Rater};
use super::reverse_construct;
use super::rng;
use super::reverse_construct::{batch, judged, Construct, ReverseResult};
use super::solutions;
use super::techniques::{TechniqueId, Tier};
use super::text;
use rand_xoshiro::Xoshiro256PlusPlus;
use vstd::prelude::*;
use vstd::set_lib::*;

verus! {

broadcast use masks::group_masks;

/// What a puzzle has to be like.
#[derive(Clone, Copy, Debug)]
pub struct FishReverseSpec {
    /// The size of the fish: 2, 3 or 4.
    pub target_size: usize,
    pub target_tier: Tier,
    pub clue_min: u32,
    pub clue_max: u32,
    pub max_attempts: u32,
    /// The puzzle has to be of a harder tier without the fish.
    pub require_load_bearing: bool,
    /// The number of clues that are tried for each seed, `0` for all.
    pub greedy_max_trials: u32,
}

/// The message about a size that no fish has.
pub open spec fn size_message(size: nat) -> Seq<char> {
    "target_size "@ + text::decimal(size) + " invalid; Fish supports K ∈ {2,3,4}"@
}

impl FishReverseSpec {
    pub fn new_t3(target_size: usize, max_attempts: u32) -> (r: Self)
        ensures
            r.target_size == target_size,
            r.target_tier == Tier::T3,
            r.clue_min == 22,
            r.clue_max == 30,
            r.max_attempts == max_attempts,
            r.require_load_bearing,
            r.greedy_max_trials == 0,
    {
        FishReverseSpec {
            target_size,
            target_tier: Tier::T3,
            clue_min: 22,
            clue_max: 30,
            max_attempts,
            require_load_bearing: true,
            greedy_max_trials: 0,
        }
    }

    pub open spec fn is_valid(&self) -> bool {
        &&& 2 <= self.target_size <= 4
        &&& self.clue_min <= self.clue_max
        &&& self.target_tier == Tier::T3
    }

    /// Whether the specification can be met; else what is wrong with it first.
    pub fn validate(&self) -> (r: Result<(), String>)
        ensures
            r is Ok == self.is_valid(),
            r matches Err(m) ==> m@ == if !(2 <= self.target_size <= 4) {
                size_message(self.target_size as nat)
            } else if self.clue_min > self.clue_max {
                text::band_message(
                    "clue_min"@,
                    self.clue_min as nat,
                    "clue_max"@,
                    self.clue_max as nat,
                )
            } else {
                "target_tier must be T3 for Fish (got "@ + text::tier_name(self.target_tier) + ")"@
            },
    {
        if !(2 <= self.target_size && self.target_size <= 4) {
            return Err(
                text::around_number(
                    "target_size ",
                    self.target_size as u64,
                    " invalid; Fish supports K ∈ {2,3,4}",
                ),
            );
        }
        if self.clue_min > self.clue_max {
            return Err(
                text::inverted_band(
                    "clue_min",
                    self.clue_min as u64,
                    "clue_max",
                    self.clue_max as u64,
                ),
            );
        }
        if self.target_tier != Tier::T3 {
            return Err(text::around_tier("target_tier must be T3 for Fish (got ", self.target_tier, ")"));
        }
        Ok(())
    }
}

/// The fish of a size.
pub open spec fn fish_of(size: int) -> TechniqueId {
    if size == 2 {
        TechniqueId::XWing
    } else if size == 3 {
        TechniqueId::Swordfish
    } else {
        TechniqueId::Jellyfish
    }
}

/// The fish of size 2, 3 or 4.
pub fn fish_id_for(size: usize) -> (r: TechniqueId)
    requires
        2 <= size <= 4,
    ensures
        r == fish_of(size as int),
{
    if size == 2 {
        TechniqueId::XWing
    } else if size == 3 {
        TechniqueId::Swordfish
    } else {
        TechniqueId::Jellyfish
    }
}

/// The cell of a line at position `p`, from one upwards. Lines are rows or columns.
pub open spec fn line_cell(g: Dims, by_row: bool, line: int, p: int) -> int {
    if by_row {
        line * g.n + (p - 1)
    } else {
        (p - 1) * g.n + line
    }
}

/// Digit `d` is a candidate of the open cell at position `p` of a line.
pub open spec fn line_has(
    g: Dims,
    c: Seq<u32>,
    solved: Seq<int>,
    d: int,
    by_row: bool,
    line: int,
    p: int,
) -> bool {
    &&& 0 <= line < g.n
    &&& 1 <= p <= g.n
    &&& solved[line_cell(g, by_row, line, p)] == 0
    &&& masks::holds(c[line_cell(g, by_row, line, p)], d)
}

/// Digit `d` is placed in a line.
pub open spec fn line_placed(g: Dims, solved: Seq<int>, d: int, by_row: bool, line: int) -> bool {
    exists|p: int| 1 <= p <= g.n && solved[#[trigger] line_cell(g, by_row, line, p)] == d
}

/// The places of a digit in a line.
pub open spec fn places(
    g: Dims,
    c: Seq<u32>,
    solved: Seq<int>,
    d: int,
    by_row: bool,
    line: int,
) -> Set<int> {
    Set::new(|p: int| line_has(g, c, solved, d, by_row, line, p))
}

/// A line that can be one of the `k` lines of a fish: the digit is not placed in it and
/// has between two and `k` places.
pub open spec fn is_base(
    g: Dims,
    c: Seq<u32>,
    solved: Seq<int>,
    d: int,
    by_row: bool,
    line: int,
    k: int,
) -> bool {
    &&& 0 <= line < g.n
    &&& !line_placed(g, solved, d, by_row, line)
    &&& 2 <= places(g, c, solved, d, by_row, line).len() <= k
}

/// The places of a digit in several lines.
pub open spec fn cover(
    g: Dims,
    c: Seq<u32>,
    solved: Seq<int>,
    d: int,
    by_row: bool,
    bases: Seq<int>,
) -> Set<int> {
    Set::new(
        |p: int|
            exists|j: int|
                0 <= j < bases.len() && line_has(g, c, solved, d, by_row, #[trigger] bases[j], p),
    )
}

/// The lines `bases` are a fish.
pub open spec fn is_fish(
    g: Dims,
    c: Seq<u32>,
    solved: Seq<int>,
    d: int,
    by_row: bool,
    bases: Seq<int>,
    k: int,
) -> bool {
    &&& bases.len() == k
    &&& combos::increasing(bases)
    &&& forall|j: int| 0 <= j < k ==> is_base(g, c, solved, d, by_row, #[trigger] bases[j], k)
    &&& cover(g, c, solved, d, by_row, bases).len() == k
}

/// The fish `bases` rules `d` out at position `p` of another line.
pub open spec fn fish_kills(
    g: Dims,
    c: Seq<u32>,
    solved: Seq<int>,
    d: int,
    by_row: bool,
    bases: Seq<int>,
    line: int,
    p: int,
) -> bool {
    &&& !bases.contains(line)
    &&& line_has(g, c, solved, d, by_row, line, p)
    &&& cover(g, c, solved, d, by_row, bases).contains(p)
}

/// Some fish of size `k` on `d` with bases of this orientation rules something out.
pub open spec fn fish_fires(
    g: Dims,
    c: Seq<u32>,
    solved: Seq<int>,
    d: int,
    by_row: bool,
    k: int,
) -> bool {
    exists|bases: Seq<int>, line: int, p: int|
        is_fish(g, c, solved, d, by_row, bases, k) && #[trigger] fish_kills(
            g,
            c,
            solved,
            d,
            by_row,
            bases,
            line,
            p,
        )
}

/// Some fish of size `k` rules something out.
pub open spec fn fish_at(g: Dims, c: Seq<u32>, solved: Seq<int>, k: int) -> bool {
    exists|d: int, by_row: bool| g.is_digit(d) && #[trigger] fish_fires(g, c, solved, d, by_row, k)
}

/// The cells of a line are those of a unit.
proof fn lemma_line_cell(g: Dims, by_row: bool, line: int, p: int)
    requires
        g.ok(),
        0 <= line < g.n,
        1 <= p <= g.n,
    ensures
        g.is_unit(
            if by_row {
                line
            } else {
                g.n + line
            },
        ),
        line_cell(g, by_row, line, p) == g.unit_cell(
            if by_row {
                line
            } else {
                g.n + line
            },
            p - 1,
        ),
        g.is_cell(line_cell(g, by_row, line, p)),
        by_row ==> g.row(line_cell(g, by_row, line, p)) == line && g.col(
            line_cell(g, by_row, line, p),
        ) == p - 1,
        !by_row ==> g.col(line_cell(g, by_row, line, p)) == line && g.row(
            line_cell(g, by_row, line, p),
        ) == p - 1,
{
    let u = if by_row {
        line
    } else {
        g.n + line
    };
    geometry::lemma_unit_cell(g, u, p - 1);
}

/// A fish is right: no solution has the digit where the fish rules it out.
pub proof fn law_fish_sound(
    g: Dims,
    c: Seq<u32>,
    solved: Seq<u8>,
    d: int,
    by_row: bool,
    bases: Seq<int>,
    k: int,
    line: int,
    p: int,
    s: Seq<int>,
)
    requires
        solutions::well_formed(g, c, solved),
        g.is_digit(d),
        is_fish(g, c, solutions::digits_of(solved), d, by_row, bases, k),
        fish_kills(g, c, solutions::digits_of(solved), d, by_row, bases, line, p),
        solutions::solutions(g, c).contains(s),
    ensures
        s[line_cell(g, by_row, line, p)] != d,
{
    let t = solutions::digits_of(solved);
    let cov = cover(g, c, t, d, by_row, bases);
    if s[line_cell(g, by_row, line, p)] == d {
        // The position of the digit in each base.
        let f = Seq::new(bases.len(), |j: int| position_of(g, s, d, by_row, bases[j]));
        assert forall|j: int| 0 <= j < f.len() implies cov.contains(#[trigger] f[j]) && 1 <= f[j]
            <= g.n && s[line_cell(g, by_row, bases[j], f[j])] == d by {
            let b = bases[j];
            assert(is_base(g, c, t, d, by_row, b, k));
            let u = if by_row {
                b
            } else {
                g.n + b
            };
            lemma_line_cell(g, by_row, b, 1);
            let q = solutions::lemma_unit_onto(g, s, u, d);
            lemma_line_cell(g, by_row, b, q + 1);
            assert(s[line_cell(g, by_row, b, q + 1)] == d);
            let x = f[j];
            assert(1 <= x <= g.n && s[line_cell(g, by_row, b, x)] == d);
            lemma_line_cell(g, by_row, b, x);
            let cell = line_cell(g, by_row, b, x);
            assert(masks::holds(c[cell], s[cell]));
            if t[cell] != 0 {
                assert(solved[cell] != 0);
                assert(t[cell] == d);
                assert(line_placed(g, t, d, by_row, b));
            }
            assert(line_has(g, c, t, d, by_row, bases[j], x));
        }
        assert forall|i: int, j: int| 0 <= i < j < f.len() implies f[i] != f[j] by {
            assert(bases[i] < bases[j]);
            assert(1 <= f[i] <= g.n && 1 <= f[j] <= g.n);
            assert(is_base(g, c, t, d, by_row, bases[i], k));
            assert(is_base(g, c, t, d, by_row, bases[j], k));
            lemma_line_cell(g, by_row, bases[i], f[i]);
            lemma_line_cell(g, by_row, bases[j], f[j]);
            if f[i] == f[j] {
                assert(g.peer(
                    line_cell(g, by_row, bases[i], f[i]),
                    line_cell(g, by_row, bases[j], f[j]),
                ));
            }
        }
        assert(f.no_duplicates());
        lemma_cover_finite(g, c, t, d, by_row, bases);
        let i = solutions::lemma_pigeonhole(f, cov, p);
        assert(1 <= f[i] <= g.n && s[line_cell(g, by_row, bases[i], f[i])] == d);
        assert(is_base(g, c, t, d, by_row, bases[i], k));
        assert(bases[i] != line) by {
            assert(bases.contains(bases[i]));
        }
        lemma_line_cell(g, by_row, bases[i], p);
        lemma_line_cell(g, by_row, line, p);
        assert(g.peer(line_cell(g, by_row, bases[i], p), line_cell(g, by_row, line, p)));
    }
}

/// The position of a digit of a solution in a line.
spec fn position_of(g: Dims, s: Seq<int>, d: int, by_row: bool, line: int) -> int {
    choose|x: int| 1 <= x <= g.n && s[#[trigger] line_cell(g, by_row, line, x)] == d
}

proof fn lemma_cover_finite(
    g: Dims,
    c: Seq<u32>,
    t: Seq<int>,
    d: int,
    by_row: bool,
    bases: Seq<int>,
)
    requires
        g.ok(),
    ensures
        cover(g, c, t, d, by_row, bases).finite(),
{
    lemma_int_range(1, g.n + 1);
    assert(cover(g, c, t, d, by_row, bases).subset_of(set_int_range(1, g.n + 1)));
    lemma_set_subset_finite(set_int_range(1, g.n + 1), cover(g, c, t, d, by_row, bases));
}

/// The masks of the lines show where the digit can go, and where it is placed.
pub open spec fn shows_lines(
    g: Dims,
    c: Seq<u32>,
    solved: Seq<int>,
    d: int,
    by_row: bool,
    mask: Seq<u32>,
    placed: Seq<bool>,
) -> bool {
    &&& mask.len() == g.n
    &&& placed.len() == g.n
    &&& forall|line: int, p: int|
        0 <= line < g.n ==> #[trigger] masks::holds(mask[line], p) == line_has(
            g,
            c,
            solved,
            d,
            by_row,
            line,
            p,
        )
    &&& forall|line: int|
        0 <= line < g.n ==> #[trigger] placed[line] == line_placed(g, solved, d, by_row, line)
}

/// For one digit the mask of its places in each line, and whether it is placed there.
pub fn build_line_masks<const N: usize, const BR: usize, const BC: usize>(
    grid: &Grid<N, BR, BC>,
    digit: u8,
    by_row: bool,
) -> (r: (Vec<u32>, Vec<bool>))
    requires
        grid.wf(),
        1 <= digit <= N,
    ensures
        shows_lines(
            Grid::<N, BR, BC>::shape(),
            grid.candidates@,
            solutions::digits_of(grid.solved@),
            digit as int,
            by_row,
            r.0@,
            r.1@,
        ),
{
    let ghost g = Grid::<N, BR, BC>::shape();
    let ghost c = grid.candidates@;
    let ghost t = solutions::digits_of(grid.solved@);
    proof {
        peer_tables::lemma_cells_bound(g);
    }
    let bit: u32 = masks::digit_bit(digit);
    let mut mask: Vec<u32> = Vec::new();
    let mut placed: Vec<bool> = Vec::new();
    let mut line: usize = 0;
    while line < N
        invariant
            grid.wf(),
            g == Grid::<N, BR, BC>::shape(),
            g.cells() <= 961,
            c == grid.candidates@,
            t == solutions::digits_of(grid.solved@),
            1 <= digit <= N,
            bit == masks::bit(digit as int),
            line <= N,
            mask@.len() == line,
            placed@.len() == line,
            forall|x: int, p: int|
                0 <= x < line ==> #[trigger] masks::holds(mask@[x], p) == line_has(
                    g,
                    c,
                    t,
                    digit as int,
                    by_row,
                    x,
                    p,
                ),
            forall|x: int|
                0 <= x < line ==> #[trigger] placed@[x] == line_placed(
                    g,
                    t,
                    digit as int,
                    by_row,
                    x,
                ),
        decreases N - line,
    {
        let mut m: u32 = 0;
        let mut here: bool = false;
        let mut k: usize = 0;
        while k < N
            invariant
                grid.wf(),
                g == Grid::<N, BR, BC>::shape(),
                g.cells() <= 961,
                c == grid.candidates@,
                t == solutions::digits_of(grid.solved@),
                1 <= digit <= N,
                bit == masks::bit(digit as int),
                line < N,
                k <= N,
                forall|p: int| #[trigger]
                    masks::holds(m, p) == (p <= k && line_has(
                        g,
                        c,
                        t,
                        digit as int,
                        by_row,
                        line as int,
                        p,
                    )),
                here == exists|p: int|
                    1 <= p <= k && t[#[trigger] line_cell(g, by_row, line as int, p)] == digit,
            decreases N - k,
        {
            let ghost li = line as int;
            let ghost pk = k as int + 1;
            proof {
                lemma_line_cell(g, by_row, li, pk);
                assert(0 <= line * N && 0 <= k * N) by (nonlinear_arith)
                    requires
                        0 <= line,
                        0 <= k,
                        0 <= N,
                ;
            }
            let cell: usize = if by_row {
                line * N + k
            } else {
                k * N + line
            };
            assert(cell == line_cell(g, by_row, li, pk));
            let ghost m0 = m;
            let ghost here0 = here;
            assert(t[cell as int] == grid.solved@[cell as int]);
            if grid.solved[cell] != 0 {
                if grid.solved[cell] == digit {
                    here = true;
                    assert(t[line_cell(g, by_row, li, pk)] == digit);
                }
            } else if grid.candidates[cell] & bit != 0 {
                assert(masks::holds(c[cell as int], digit as int));
                m = m | masks::digit_bit((k + 1) as u8);
            } else {
                assert(!masks::holds(c[cell as int], digit as int));
            }
            proof {
                assert forall|p: int| #[trigger] masks::holds(m, p) == (p <= k + 1 && line_has(
                    g,
                    c,
                    t,
                    digit as int,
                    by_row,
                    li,
                    p,
                )) by {
                    assert(masks::holds(m0, p) == (p <= k && line_has(
                        g,
                        c,
                        t,
                        digit as int,
                        by_row,
                        li,
                        p,
                    )));
                }
                if here0 {
                    let p = choose|p: int|
                        1 <= p <= k && t[#[trigger] line_cell(g, by_row, li, p)] == digit;
                    assert(t[line_cell(g, by_row, li, p)] == digit);
                }
            }
            k += 1;
        }
        mask.push(m);
        placed.push(here);
        line += 1;
    }
    (mask, placed)
}

/// The mask of several lines together.
fn union_mask(mask: &Vec<u32>, bases: &Vec<usize>, idx: &Vec<usize>) -> (m: u32)
    requires
        forall|i: int| 0 <= i < bases@.len() ==> (#[trigger] bases@[i]) < mask@.len(),
        combos::is_combo(idx@, bases@.len() as int),
    ensures
        forall|p: int| #[trigger]
            masks::holds(m, p) == exists|j: int|
                0 <= j < idx@.len() && masks::holds(
                    mask@[bases@[#[trigger] idx@[j] as int] as int],
                    p,
                ),
{
    let mut m: u32 = 0;
    let mut j: usize = 0;
    while j < idx.len()
        invariant
            forall|i: int| 0 <= i < bases@.len() ==> (#[trigger] bases@[i]) < mask@.len(),
            combos::is_combo(idx@, bases@.len() as int),
            j <= idx@.len(),
            forall|p: int| #[trigger]
                masks::holds(m, p) == exists|i: int|
                    0 <= i < j && masks::holds(
                        mask@[bases@[#[trigger] idx@[i] as int] as int],
                        p,
                    ),
        decreases idx@.len() - j,
    {
        let ghost m0 = m;
        assert(idx@[j as int] < bases@.len());
        assert(bases@[idx@[j as int] as int] < mask@.len());
        m = m | mask[bases[idx[j]]];
        proof {
            assert forall|p: int| #[trigger] masks::holds(m, p) == exists|i: int|
                0 <= i < j + 1 && masks::holds(
                    mask@[bases@[#[trigger] idx@[i] as int] as int],
                    p,
                ) by {
                if masks::holds(m0, p) {
                    let i = choose|i: int|
                        0 <= i < j && masks::holds(
                            mask@[bases@[#[trigger] idx@[i] as int] as int],
                            p,
                        );
                    assert(masks::holds(mask@[bases@[idx@[i] as int] as int], p));
                } else if masks::holds(mask@[bases@[idx@[j as int] as int] as int], p) {
                    assert(masks::holds(m, p));
                } else {
                    assert(!masks::holds(m, p));
                }
            }
        }
        j += 1;
    }
    m
}

/// Whether a line is among those that a combination picks.
fn is_picked(bases: &Vec<usize>, idx: &Vec<usize>, line: usize) -> (r: bool)
    requires
        combos::is_combo(idx@, bases@.len() as int),
    ensures
        r == exists|j: int| 0 <= j < idx@.len() && bases@[#[trigger] idx@[j] as int] == line,
{
    let mut j: usize = 0;
    while j < idx.len()
        invariant
            combos::is_combo(idx@, bases@.len() as int),
            j <= idx@.len(),
            forall|i: int| 0 <= i < j ==> bases@[#[trigger] idx@[i] as int] != line,
        decreases idx@.len() - j,
    {
        assert(idx@[j as int] < bases@.len());
        if bases[idx[j]] == line {
            return true;
        }
        j += 1;
    }
    false
}

/// A line outside a fish, and the position in it, where the lines that a combination picks
/// rule the digit out.
fn find_kill<const N: usize, const BR: usize, const BC: usize>(
    grid: &Grid<N, BR, BC>,
    digit: u8,
    mask: &Vec<u32>,
    bases: &Vec<usize>,
    idx: &Vec<usize>,
    union: u32,
    by_row: bool,
    placed: Ghost<Seq<bool>>,
) -> (r: Option<(usize, usize)>)
    requires
        grid.wf(),
        1 <= digit <= N,
        shows_lines(
            Grid::<N, BR, BC>::shape(),
            grid.candidates@,
            solutions::digits_of(grid.solved@),
            digit as int,
            by_row,
            mask@,
            placed@,
        ),
        combos::is_combo(idx@, bases@.len() as int),
    ensures
        r matches Some((line, p)) ==> {
            &&& line < N
            &&& 1 <= p <= N
            &&& masks::holds(union, p as int)
            &&& masks::holds(mask@[line as int], p as int)
            &&& forall|j: int| 0 <= j < idx@.len() ==> bases@[#[trigger] idx@[j] as int] != line
        },
        r is None ==> forall|line: int, p: int|
            0 <= line < N && masks::holds(union, p) && #[trigger] masks::holds(mask@[line], p)
                ==> exists|j: int| 0 <= j < idx@.len() && bases@[#[trigger] idx@[j] as int] == line,
{
    let mut line: usize = 0;
    while line < N
        invariant
            grid.wf(),
            shows_lines(
                Grid::<N, BR, BC>::shape(),
                grid.candidates@,
                solutions::digits_of(grid.solved@),
                digit as int,
                by_row,
                mask@,
                placed@,
            ),
            combos::is_combo(idx@, bases@.len() as int),
            line <= N,
            forall|x: int, p: int|
                0 <= x < line && masks::holds(union, p) && #[trigger] masks::holds(mask@[x], p)
                    ==> exists|j: int|
                    0 <= j < idx@.len() && bases@[#[trigger] idx@[j] as int] == x,
        decreases N - line,
    {
        let both: u32 = union & mask[line];
        if !is_picked(bases, idx, line) && both != 0 {
            let p: u8 = masks::lowest_digit(both);
            assert(masks::holds(union, p as int) && masks::holds(mask@[line as int], p as int));
            return Some((line, p as usize));
        }
        proof {
            masks::lemma_zero(both);
            assert forall|p: int|
                masks::holds(union, p) && #[trigger] masks::holds(
                    mask@[line as int],
                    p,
                ) implies exists|j: int|
                0 <= j < idx@.len() && bases@[#[trigger] idx@[j] as int] == line by {
                if both == 0 {
                    assert(!masks::holds(both, p));
                }
            }
        }
        line += 1;
    }
    None
}

/// The lines that can be bases, in ascending order.
fn base_lines<const N: usize, const BR: usize, const BC: usize>(
    mask: &Vec<u32>,
    placed: &Vec<bool>,
    k: usize,
    Ghost(c): Ghost<Seq<u32>>,
    Ghost(t): Ghost<Seq<int>>,
    Ghost(d): Ghost<int>,
    Ghost(by_row): Ghost<bool>,
) -> (v: Vec<usize>)
    requires
        Grid::<N, BR, BC>::shape().ok(),
        shows_lines(Grid::<N, BR, BC>::shape(), c, t, d, by_row, mask@, placed@),
    ensures
        combos::increasing(combos::ints(v@)),
        forall|i: int|
            0 <= i < v@.len() ==> is_base(
                Grid::<N, BR, BC>::shape(),
                c,
                t,
                d,
                by_row,
                #[trigger] v@[i] as int,
                k as int,
            ),
        forall|line: int| #[trigger]
            is_base(Grid::<N, BR, BC>::shape(), c, t, d, by_row, line, k as int)
                ==> combos::ints(v@).contains(line),
{
    let ghost g = Grid::<N, BR, BC>::shape();
    let mut v: Vec<usize> = Vec::new();
    let mut line: usize = 0;
    while line < N
        invariant
            g == Grid::<N, BR, BC>::shape(),
            shows_lines(g, c, t, d, by_row, mask@, placed@),
            line <= N,
            forall|i: int, j: int| 0 <= i < j < v@.len() ==> v@[i] < v@[j],
            forall|i: int|
                0 <= i < v@.len() ==> v@[i] < line && is_base(
                    g,
                    c,
                    t,
                    d,
                    by_row,
                    #[trigger] v@[i] as int,
                    k as int,
                ),
            forall|x: int| #[trigger]
                is_base(g, c, t, d, by_row, x, k as int) && x < line ==> exists|i: int|
                    0 <= i < v@.len() && #[trigger] v@[i] == x,
        decreases N - line,
    {
        let ghost v0 = v@;
        let ghost li = line as int;
        let m: u32 = mask[line];
        proof {
            assert(masks::digits(m) =~= places(g, c, t, d, by_row, li)) by {
                assert forall|p: int| masks::digits(m).contains(p) == places(
                    g,
                    c,
                    t,
                    d,
                    by_row,
                    li,
                ).contains(p) by {
                    assert(masks::holds(mask@[li], p) == line_has(g, c, t, d, by_row, li, p));
                }
            }
        }
        let count: u32 = m.count_ones();
        if !placed[line] && 2 <= count && count as usize <= k {
            assert(is_base(g, c, t, d, by_row, li, k as int));
            v.push(line);
            assert(v@[v0.len() as int] == li);
        }
        proof {
            assert forall|x: int| #[trigger]
                is_base(g, c, t, d, by_row, x, k as int) && x < line + 1 implies exists|i: int|
                0 <= i < v@.len() && #[trigger] v@[i] == x by {
                if x < line {
                    let i = choose|i: int| 0 <= i < v0.len() && #[trigger] v0[i] == x;
                    assert(v@[i] == x);
                } else {
                    assert(placed@[li] == line_placed(g, t, d, by_row, li));
                    assert(v@[v0.len() as int] == x);
                }
            }
        }
        line += 1;
    }
    proof {
        assert forall|x: int| #[trigger]
            is_base(g, c, t, d, by_row, x, k as int) implies combos::ints(v@).contains(x) by {
            let i = choose|i: int| 0 <= i < v@.len() && #[trigger] v@[i] == x;
            assert(combos::ints(v@)[i] == x);
        }
    }
    v
}

/// Whether a fish of size `k` on the digit, with rows or columns as its lines, rules
/// something out. Nothing is changed.
pub fn try_fish_eliminate_dryrun<const N: usize, const BR: usize, const BC: usize>(
    grid: &Grid<N, BR, BC>,
    digit: u8,
    k: usize,
    line_mask: &Vec<u32>,
    placed_line: &Vec<bool>,
    base_is_row: bool,
) -> (r: bool)
    requires
        grid.wf(),
        1 <= digit <= N,
        shows_lines(
            Grid::<N, BR, BC>::shape(),
            grid.candidates@,
            solutions::digits_of(grid.solved@),
            digit as int,
            base_is_row,
            line_mask@,
            placed_line@,
        ),
    ensures
        r == fish_fires(
            Grid::<N, BR, BC>::shape(),
            grid.candidates@,
            solutions::digits_of(grid.solved@),
            digit as int,
            base_is_row,
            k as int,
        ),
{
    find_fish(grid, digit, k, line_mask, placed_line, base_is_row).is_some()
}

/// The first fish that rules something out: its lines, and a place outside.
fn find_fish<const N: usize, const BR: usize, const BC: usize>(
    grid: &Grid<N, BR, BC>,
    digit: u8,
    k: usize,
    mask: &Vec<u32>,
    placed: &Vec<bool>,
    by_row: bool,
) -> (r: Option<(usize, usize)>)
    requires
        grid.wf(),
        1 <= digit <= N,
        shows_lines(
            Grid::<N, BR, BC>::shape(),
            grid.candidates@,
            solutions::digits_of(grid.solved@),
            digit as int,
            by_row,
            mask@,
            placed@,
        ),
    ensures
        r is Some == fish_fires(
            Grid::<N, BR, BC>::shape(),
            grid.candidates@,
            solutions::digits_of(grid.solved@),
            digit as int,
            by_row,
            k as int,
        ),
        r matches Some((line, p)) ==> line < N && 1 <= p <= N && exists|bases: Seq<int>|
            is_fish(
                Grid::<N, BR, BC>::shape(),
                grid.candidates@,
                solutions::digits_of(grid.solved@),
                digit as int,
                by_row,
                bases,
                k as int,
            ) && #[trigger] fish_kills(
                Grid::<N, BR, BC>::shape(),
                grid.candidates@,
                solutions::digits_of(grid.solved@),
                digit as int,
                by_row,
                bases,
                line as int,
                p as int,
            ),
{
    let ghost g = Grid::<N, BR, BC>::shape();
    let ghost c = grid.candidates@;
    let ghost t = solutions::digits_of(grid.solved@);
    let ghost d = digit as int;
    let bases: Vec<usize> = base_lines::<N, BR, BC>(
        mask,
        placed,
        k,
        Ghost(c),
        Ghost(t),
        Ghost(d),
        Ghost(by_row),
    );
    let ghost list = combos::ints(bases@);
    let all: Vec<Vec<usize>> = combinations(bases.len(), k);
    let mut i: usize = 0;
    while i < all.len()
        invariant
            grid.wf(),
            g == Grid::<N, BR, BC>::shape(),
            c == grid.candidates@,
            t == solutions::digits_of(grid.solved@),
            d == digit,
            1 <= digit <= N,
            shows_lines(g, c, t, d, by_row, mask@, placed@),
            list == combos::ints(bases@),
            combos::increasing(list),
            forall|j: int|
                0 <= j < bases@.len() ==> is_base(
                    g,
                    c,
                    t,
                    d,
                    by_row,
                    #[trigger] bases@[j] as int,
                    k as int,
                ),
            combos::lists_combos(all@, bases@.len() as int, k as int),
            i <= all@.len(),
            forall|j: int, line: int, p: int|
                0 <= j < i && is_fish(
                    g,
                    c,
                    t,
                    d,
                    by_row,
                    combos::picked(list, all@[j]@),
                    k as int,
                ) ==> !#[trigger] fish_kills(
                    g,
                    c,
                    t,
                    d,
                    by_row,
                    combos::picked(list, all@[j]@),
                    line,
                    p,
                ),
        decreases all@.len() - i,
    {
        let idx = &all[i];
        let ghost b = combos::picked(list, idx@);
        assert(combos::is_combo(all@[i as int]@, bases@.len() as int));
        proof {
            assert forall|j: int| 0 <= j < bases@.len() implies (#[trigger] bases@[j])
                < mask@.len() by {
                assert(is_base(g, c, t, d, by_row, bases@[j] as int, k as int));
            }
        }
        let union: u32 = union_mask(mask, &bases, idx);
        proof {
            assert(masks::digits(union) =~= cover(g, c, t, d, by_row, b)) by {
                assert forall|p: int| masks::digits(union).contains(p) == cover(
                    g,
                    c,
                    t,
                    d,
                    by_row,
                    b,
                ).contains(p) by {
                    if masks::holds(union, p) {
                        let j = choose|j: int|
                            0 <= j < idx@.len() && masks::holds(
                                mask@[bases@[#[trigger] idx@[j] as int] as int],
                                p,
                            );
                        assert(idx@[j] < bases@.len());
                        assert(is_base(g, c, t, d, by_row, bases@[idx@[j] as int] as int, k as int));
                        assert(line_has(g, c, t, d, by_row, b[j], p));
                    }
                    if cover(g, c, t, d, by_row, b).contains(p) {
                        let j = choose|j: int|
                            0 <= j < b.len() && line_has(g, c, t, d, by_row, #[trigger] b[j], p);
                        assert(idx@[j] < bases@.len());
                        assert(is_base(g, c, t, d, by_row, bases@[idx@[j] as int] as int, k as int));
                        assert(masks::holds(mask@[bases@[idx@[j] as int] as int], p));
                    }
                }
            }
            combos::lemma_picked(list, idx@);
            assert forall|j: int| 0 <= j < k implies is_base(
                g,
                c,
                t,
                d,
                by_row,
                #[trigger] b[j],
                k as int,
            ) by {
                assert(idx@[j] < bases@.len());
                assert(is_base(g, c, t, d, by_row, bases@[idx@[j] as int] as int, k as int));
            }
        }
        if union.count_ones() as usize == k {
            assert(is_fish(g, c, t, d, by_row, b, k as int));
            let kill = find_kill(grid, digit, mask, &bases, idx, union, by_row, Ghost(placed@));
            if let Some((line, p)) = kill {
                proof {
                    assert(!b.contains(line as int)) by {
                        if b.contains(line as int) {
                            let j = choose|j: int| 0 <= j < b.len() && b[j] == line as int;
                            assert(idx@[j] < bases@.len());
                            assert(bases@[idx@[j] as int] == line);
                        }
                    }
                    assert(masks::digits(union).contains(p as int));
                    assert(masks::holds(mask@[line as int], p as int));
                    assert(fish_kills(g, c, t, d, by_row, b, line as int, p as int));
                }
                return Some((line, p));
            }
            proof {
                assert forall|line: int, p: int| !#[trigger] fish_kills(
                    g,
                    c,
                    t,
                    d,
                    by_row,
                    b,
                    line,
                    p,
                ) by {
                    if fish_kills(g, c, t, d, by_row, b, line, p) {
                        assert(masks::digits(union).contains(p));
                        assert(masks::holds(mask@[line], p));
                        let j = choose|j: int|
                            0 <= j < idx@.len() && bases@[#[trigger] idx@[j] as int] == line;
                        assert(b[j] == line);
                    }
                }
            }
        }
        i += 1;
    }
    proof {
        if fish_fires(g, c, t, d, by_row, k as int) {
            let (b, line, p) = choose|b: Seq<int>, line: int, p: int|
                is_fish(g, c, t, d, by_row, b, k as int) && #[trigger] fish_kills(
                    g,
                    c,
                    t,
                    d,
                    by_row,
                    b,
                    line,
                    p,
                );
            assert forall|j: int| 0 <= j < b.len() implies list.contains(#[trigger] b[j]) by {
                assert(is_base(g, c, t, d, by_row, b[j], k as int));
            }
            let x = combos::lemma_positions(list, b);
            let j = choose|j: int| 0 <= j < all@.len() && (#[trigger] all@[j])@ == x;
            assert(fish_kills(g, c, t, d, by_row, combos::picked(list, all@[j]@), line, p));
        }
    }
    None
}

/// Whether a fish of size `k`, on any digit, rules something out.
pub fn fish_fires_at_size<const N: usize, const BR: usize, const BC: usize>(
    grid: &Grid<N, BR, BC>,
    k: usize,
) -> (r: bool)
    requires
        grid.wf(),
    ensures
        r == (k < N && fish_at(
            Grid::<N, BR, BC>::shape(),
            grid.candidates@,
            solutions::digits_of(grid.solved@),
            k as int,
        )),
{
    if k >= N {
        return false;
    }
    let ghost g = Grid::<N, BR, BC>::shape();
    let ghost c = grid.candidates@;
    let ghost t = solutions::digits_of(grid.solved@);
    let mut digit: u8 = 1;
    while digit as usize <= N
        invariant
            grid.wf(),
            g == Grid::<N, BR, BC>::shape(),
            c == grid.candidates@,
            t == solutions::digits_of(grid.solved@),
            k < N,
            1 <= digit <= N + 1,
            forall|d: int, by_row: bool|
                1 <= d < digit ==> !#[trigger] fish_fires(g, c, t, d, by_row, k as int),
        decreases N + 1 - digit,
    {
        let (row_mask, placed_row) = build_line_masks(grid, digit, true);
        if try_fish_eliminate_dryrun(grid, digit, k, &row_mask, &placed_row, true) {
            assert(g.is_digit(digit as int));
            return true;
        }
        let (col_mask, placed_col) = build_line_masks(grid, digit, false);
        if try_fish_eliminate_dryrun(grid, digit, k, &col_mask, &placed_col, false) {
            assert(g.is_digit(digit as int));
            return true;
        }
        digit += 1;
    }
    false
}

/// The smallest size of a fish that rules something out, from 2 to 4 and below `N`.
pub fn find_first_fish_size<const N: usize, const BR: usize, const BC: usize>(
    grid: &Grid<N, BR, BC>,
) -> (r: Option<usize>)
    requires
        grid.wf(),
    ensures
        r matches Some(k) ==> {
            &&& 2 <= k <= 4
            &&& 4 <= N
            &&& k < N
            &&& fish_at(
                Grid::<N, BR, BC>::shape(),
                grid.candidates@,
                solutions::digits_of(grid.solved@),
                k as int,
            )
            &&& forall|j: int|
                2 <= j < k ==> !#[trigger] fish_at(
                    Grid::<N, BR, BC>::shape(),
                    grid.candidates@,
                    solutions::digits_of(grid.solved@),
                    j,
                )
        },
        r is None ==> N < 4 || forall|j: int|
            2 <= j <= 4 && j < N ==> !#[trigger] fish_at(
                Grid::<N, BR, BC>::shape(),
                grid.candidates@,
                solutions::digits_of(grid.solved@),
                j,
            ),
{
    if N < 4 {
        return None;
    }
    let mut k: usize = 2;
    while k <= 4
        invariant
            grid.wf(),
            4 <= N,
            2 <= k <= 5,
            forall|j: int|
                2 <= j < k && j < N ==> !#[trigger] fish_at(
                    Grid::<N, BR, BC>::shape(),
                    grid.candidates@,
                    solutions::digits_of(grid.solved@),
                    j,
                ),
        decreases 5 - k,
    {
        if fish_fires_at_size(grid, k) {
            return Some(k);
        }
        k += 1;
    }
    None
}

/// Some fish of size `k` rules `d` out in `cell`.
pub open spec fn fish_excludes(
    g: Dims,
    c: Seq<u32>,
    solved: Seq<int>,
    k: int,
    cell: int,
    d: int,
) -> bool {
    exists|by_row: bool, bases: Seq<int>, line: int, p: int|
        is_fish(g, c, solved, d, by_row, bases, k) && #[trigger] fish_kills(
            g,
            c,
            solved,
            d,
            by_row,
            bases,
            line,
            p,
        ) && cell == line_cell(g, by_row, line, p)
}

/// Takes away one candidate that a fish of size `k` rules out: the digit, and the cell. The
/// digits are tried in ascending order, each with rows and then columns as lines.
pub fn apply_fish<const N: usize, const BR: usize, const BC: usize>(
    grid: &mut Grid<N, BR, BC>,
    k: usize,
) -> (r: Option<(usize, u8)>)
    requires
        old(grid).wf(),
    ensures
        final(grid).wf(),
        r is Some == (k < N && fish_at(
            Grid::<N, BR, BC>::shape(),
            old(grid).candidates@,
            solutions::digits_of(old(grid).solved@),
            k as int,
        )),
        r is None ==> final(grid).same(old(grid)),
        r matches Some((cell, d)) ==> {
            &&& cell < N * N
            &&& 1 <= d <= N
            &&& masks::holds(old(grid).candidates@[cell as int], d as int)
            &&& fish_excludes(
                Grid::<N, BR, BC>::shape(),
                old(grid).candidates@,
                solutions::digits_of(old(grid).solved@),
                k as int,
                cell as int,
                d as int,
            )
            &&& final(grid).solved@ == old(grid).solved@
            &&& final(grid).candidates@ == old(grid).candidates@.update(
                cell as int,
                old(grid).candidates@[cell as int] & !masks::bit(d as int),
            )
        },
        final(grid).solutions() == old(grid).solutions(),
{
    let ghost g = Grid::<N, BR, BC>::shape();
    let ghost c = grid.candidates@;
    let ghost solved = grid.solved@;
    let ghost t = solutions::digits_of(grid.solved@);
    if k >= N {
        return None;
    }
    proof {
        peer_tables::lemma_cells_bound(g);
    }
    let mut digit: u8 = 1;
    while digit as usize <= N
        invariant
            grid.wf(),
            grid.same(old(grid)),
            g == Grid::<N, BR, BC>::shape(),
            g.cells() <= 961,
            c == old(grid).candidates@,
            solved == old(grid).solved@,
            t == solutions::digits_of(solved),
            k < N,
            1 <= digit <= N + 1,
            forall|d: int, by_row: bool|
                1 <= d < digit ==> !#[trigger] fish_fires(g, c, t, d, by_row, k as int),
        decreases N + 1 - digit,
    {
        let mut by_row: bool = true;
        let (row_mask, placed_row) = build_line_masks(grid, digit, true);
        let mut found = find_fish(grid, digit, k, &row_mask, &placed_row, true);
        if found.is_none() {
            by_row = false;
            let (col_mask, placed_col) = build_line_masks(grid, digit, false);
            found = find_fish(grid, digit, k, &col_mask, &placed_col, false);
        }
        if let Some((line, p)) = found {
            let ghost li = line as int;
            let ghost pi = p as int;
            proof {
                lemma_line_cell(g, by_row, li, pi);
                assert(0 <= line * N && 0 <= (p - 1) * N) by (nonlinear_arith)
                    requires
                        0 <= line,
                        1 <= p,
                        0 <= N,
                ;
            }
            let cell: usize = if by_row {
                line * N + (p - 1)
            } else {
                (p - 1) * N + line
            };
            proof {
                assert(cell == line_cell(g, by_row, li, pi));
                let bases = choose|bases: Seq<int>|
                    is_fish(g, c, t, digit as int, by_row, bases, k as int)
                        && #[trigger] fish_kills(
                        g,
                        c,
                        t,
                        digit as int,
                        by_row,
                        bases,
                        li,
                        pi,
                    );
                assert(line_has(g, c, t, digit as int, by_row, li, pi));
                assert(fish_fires(g, c, t, digit as int, by_row, k as int));
                assert(g.is_digit(digit as int));
                assert forall|s: Seq<int>| solutions::solutions(g, c).contains(s) implies s[cell as int]
                    != digit by {
                    law_fish_sound(
                        g,
                        c,
                        solved,
                        digit as int,
                        by_row,
                        bases,
                        k as int,
                        li,
                        pi,
                        s,
                    );
                }
                assert(fish_excludes(g, c, t, k as int, cell as int, digit as int));
                solutions::lemma_eliminate_solutions(g, c, cell as int, digit as int);
            }
            let _ = grid.eliminate(cell, digit);
            return Some((cell, digit));
        }
        digit += 1;
    }
    None
}

/// The search for a fish of one size.
pub struct FishProbe {
    pub size: usize,
}

impl<const N: usize, const BR: usize, const BC: usize> Probe<N, BR, BC> for FishProbe {
    /// One if a fish of the size rules something out, else zero.
    open spec fn score(&self, c: Seq<u32>, solved: Seq<int>) -> int {
        if self.size < N && fish_at(Grid::<N, BR, BC>::shape(), c, solved, self.size as int) {
            1
        } else {
            0
        }
    }

    /// A fish that was found is not lost.
    open spec fn accepts(&self, current: int, next: int) -> bool {
        current == 0 || next == 1
    }

    open spec fn ready(&self) -> bool {
        true
    }

    fn score_of(&mut self, g: &Grid<N, BR, BC>) -> (r: u64) {
        if fish_fires_at_size(g, self.size) {
            1
        } else {
            0
        }
    }

    fn accept(&self, current: u64, next: u64) -> (r: bool) {
        current == 0 || next == 1
    }
}

/// The rating and the candidates of a puzzle are those sought.
pub open spec fn fish_fits<const N: usize, const BR: usize, const BC: usize>(
    spec: FishReverseSpec,
    rate: RateResult,
    puzzle: Grid<N, BR, BC>,
) -> bool {
    &&& reverse_construct::rated_at(rate, spec.target_tier, fish_of(spec.target_size as int))
    &&& 4 <= N
    &&& spec.target_size < N
    &&& fish_at(
        Grid::<N, BR, BC>::shape(),
        puzzle.candidates@,
        solutions::digits_of(puzzle.solved@),
        spec.target_size as int,
    )
    &&& forall|j: int|
        2 <= j < spec.target_size ==> !#[trigger] fish_at(
            Grid::<N, BR, BC>::shape(),
            puzzle.candidates@,
            solutions::digits_of(puzzle.solved@),
            j,
        )
}

/// Whether the rating and the candidates of a puzzle are those sought.
pub fn is_fish_puzzle<const N: usize, const BR: usize, const BC: usize>(
    spec: &FishReverseSpec,
    rate: &RateResult,
    puzzle: &Grid<N, BR, BC>,
) -> (r: bool)
    requires
        spec.is_valid(),
        puzzle.wf(),
    ensures
        r == fish_fits(*spec, *rate, *puzzle),
{
    if !reverse_construct::is_rated_at(rate, spec.target_tier, fish_id_for(spec.target_size)) {
        return false;
    }
    match find_first_fish_size(puzzle) {
        Some(s) => s == spec.target_size,
        None => false,
    }
}

/// What a result has to be besides well formed.
pub open spec fn fish_result_ok<const N: usize, const BR: usize, const BC: usize>(
    spec: FishReverseSpec,
    r: ReverseResult<N, BR, BC>,
) -> bool {
    spec.is_valid() && fish_fits(spec, r.rate, r.puzzle)
}

/// The puzzle and its solution come out of the `n`-th attempt of a generator that held the
/// words `words` before the first.
pub open spec fn fish_is_drawn<const N: usize, const BR: usize, const BC: usize>(
    spec: FishReverseSpec,
    x: ReverseResult<N, BR, BC>,
    words: Seq<u64>,
    n: nat,
) -> bool {
    guided_removal::is_attempt::<N, BR, BC, FishProbe>(
        (FishProbe { size: spec.target_size }),
        x.puzzle,
        x.solution,
        spec.clue_min,
        spec.clue_max,
        guided_removal::trial_cap(spec.greedy_max_trials),
        words,
        n,
    )
}

/// The `n`-th attempt of a generator that held the words `words` before the first led to `x`, with
/// ratings that a rater can give.
pub open spec fn fish_is_tried<const N: usize, const BR: usize, const BC: usize, R: Rater<N, BR, BC>>(
    spec: FishReverseSpec,
    words: Seq<u64>,
    n: nat,
    x: ReverseResult<N, BR, BC>,
    without: Option<RateResult>,
) -> bool {
    &&& x.wf()
    &&& x.attempts_taken == n
    &&& fish_is_drawn(spec, x, words, n)
    &&& reverse_construct::are_answers::<N, BR, BC, R>(
        fish_fits(spec, x.rate, x.puzzle),
        spec.require_load_bearing,
        fish_of(spec.target_size as int),
        without,
        x,
    )
}

/// The `n`-th attempt of a generator that held the words `words` before the first can lead to `r`.
pub open spec fn fish_leads_to<const N: usize, const BR: usize, const BC: usize, R: Rater<N, BR, BC>>(
    spec: FishReverseSpec,
    words: Seq<u64>,
    n: nat,
    r: Option<ReverseResult<N, BR, BC>>,
) -> bool {
    exists|x: ReverseResult<N, BR, BC>, without: Option<RateResult>| #[trigger]
        fish_is_tried::<N, BR, BC, R>(spec, words, n, x, without) && r == reverse_construct::outcome(
            fish_fits(spec, x.rate, x.puzzle),
            spec.require_load_bearing,
            spec.target_tier,
            without,
            x,
        )
}

/// The limit on the attempts makes no difference to what one of them leads to.
proof fn lemma_limit<const N: usize, const BR: usize, const BC: usize, R: Rater<N, BR, BC>>(
    spec: FishReverseSpec,
    max_attempts: u32,
    words: Seq<u64>,
    n: nat,
    r: Option<ReverseResult<N, BR, BC>>,
)
    requires
        fish_leads_to::<N, BR, BC, R>(FishReverseSpec { max_attempts, ..spec }, words, n, r),
    ensures
        fish_leads_to::<N, BR, BC, R>(spec, words, n, r),
{
    let other = FishReverseSpec { max_attempts, ..spec };
    let (x, without) = choose|x: ReverseResult<N, BR, BC>, without: Option<RateResult>| #[trigger]
        fish_is_tried::<N, BR, BC, R>(other, words, n, x, without) && r == reverse_construct::outcome(
            fish_fits(other, x.rate, x.puzzle),
            other.require_load_bearing,
            other.target_tier,
            without,
            x,
        );
    assert(fish_is_tried::<N, BR, BC, R>(spec, words, n, x, without));
}

/// Searches for a puzzle that needs a fish of the target size. Each attempt carves a puzzle
/// out of a random solution, takes further clues away towards the fish, and rates it.
pub fn fish_reverse_construct<
    const N: usize,
    const BR: usize,
    const BC: usize,
    R: Rater<N, BR, BC>,
>(rng: &mut Xoshiro256PlusPlus, rater: &mut R, spec: &FishReverseSpec) -> (r: Option<
    ReverseResult<N, BR, BC>,
>)
    requires
        Grid::<N, BR, BC>::shape().ok(),
    ensures
        !spec.is_valid() || spec.max_attempts == 0 ==> r is None,
        r matches Some(x) ==> x.wf() && fish_result_ok(*spec, x) && 1 <= x.attempts_taken
            <= spec.max_attempts,
        r matches Some(x) ==> fish_is_drawn(
            *spec,
            x,
            rng::state(*old(rng)),
            x.attempts_taken as nat,
        ),
        spec.is_valid() ==> rng::state(*final(rng)) == guided_removal::words_after(
            Grid::<N, BR, BC>::shape(),
            spec.clue_max,
            rng::state(*old(rng)),
            match r {
                Some(x) => x.attempts_taken as nat,
                None => spec.max_attempts as nat,
            },
        ),
        !spec.is_valid() ==> rng::state(*final(rng)) == rng::state(*old(rng)),
        r matches Some(x) ==> fish_leads_to::<N, BR, BC, R>(
            *spec,
            rng::state(*old(rng)),
            x.attempts_taken as nat,
            r,
        ),
        spec.is_valid() ==> forall|i: nat|
            1 <= i <= (match r {
                Some(x) => x.attempts_taken - 1,
                None => spec.max_attempts as int,
            }) ==> #[trigger] fish_leads_to::<N, BR, BC, R>(*spec, rng::state(*old(rng)), i, None),
{
    if spec.validate().is_err() {
        return None;
    }
    let id: TechniqueId = fish_id_for(spec.target_size);
    let mut probe = FishProbe { size: spec.target_size };
    let ghost sh = Grid::<N, BR, BC>::shape();
    let ghost first = probe;
    let mut attempt: u32 = 0;
    while attempt < spec.max_attempts
        invariant
            sh == Grid::<N, BR, BC>::shape(),
            first == (FishProbe { size: spec.target_size }),
            forall|c: Seq<u32>, t: Seq<int>| #[trigger]
                <FishProbe as Probe<N, BR, BC>>::score(&probe, c, t) == <FishProbe as Probe<
                    N,
                    BR,
                    BC,
                >>::score(&first, c, t),
            forall|a: int, b: int| #[trigger]
                <FishProbe as Probe<N, BR, BC>>::accepts(&probe, a, b) == <FishProbe as Probe<
                    N,
                    BR,
                    BC,
                >>::accepts(&first, a, b),
            rng::state(*rng) == guided_removal::words_after(
                sh,
                spec.clue_max,
                rng::state(*old(rng)),
                attempt as nat,
            ),
            Grid::<N, BR, BC>::shape().ok(),
            spec.is_valid(),
            id == fish_of(spec.target_size as int),
            attempt <= spec.max_attempts,
            forall|i: nat|
                1 <= i <= attempt ==> #[trigger] fish_leads_to::<N, BR, BC, R>(
                    *spec,
                    rng::state(*old(rng)),
                    i,
                    None,
                ),
        decreases spec.max_attempts - attempt,
    {
        attempt += 1;
        let ghost now = probe;
        let ghost words = rng::state(*rng);
        let (puzzle, solution, clue_count) = guided_removal::carve_attempt::<N, BR, BC, FishProbe>(
            rng,
            &mut probe,
            spec.clue_min,
            spec.clue_max,
            spec.greedy_max_trials,
        );
        proof {
            let drawn = guided_removal::drawn_attempt(sh, spec.clue_max, words);
            guided_removal::lemma_same_probe::<N, BR, BC, FishProbe>(
                now,
                first,
                puzzle,
                solution,
                spec.clue_min,
                guided_removal::trial_cap(spec.greedy_max_trials),
                drawn.1,
                drawn.2,
            );
        }
        let rate = rater.rate(&puzzle);
        let fits: bool = is_fish_puzzle(spec, &rate, &puzzle);
        let without: Option<RateResult> = if fits && spec.require_load_bearing {
            let ids: Vec<TechniqueId> = vec![id];
            assert(ids@ =~= seq![id]);
            Some(rater.rate_excluding(&puzzle, &ids))
        } else {
            None
        };
        let x = ReverseResult { puzzle, solution, rate, clue_count, attempts_taken: attempt };
        let ghost tried = x;
        let ghost said = without;
        let found = judged(
            fits,
            spec.require_load_bearing,
            spec.target_tier,
            without,
            x,
        );
        assert(fish_is_tried::<N, BR, BC, R>(
            *spec,
            rng::state(*old(rng)),
            attempt as nat,
            tried,
            said,
        ));
        assert(fish_leads_to::<N, BR, BC, R>(
            *spec,
            rng::state(*old(rng)),
            attempt as nat,
            found,
        ));
        if found.is_some() {
            return found;
        }
    }
    None
}

/// The search for fish puzzles as a job for `batch`.
pub struct FishJob<R> {
    pub spec: FishReverseSpec,
    pub rater: R,
}

impl<const N: usize, const BR: usize, const BC: usize, R: Rater<N, BR, BC>> Construct<N, BR, BC> for FishJob<
    R,
> {
    open spec fn accepts(&self, x: ReverseResult<N, BR, BC>) -> bool {
        fish_result_ok(self.spec, x)
    }

    open spec fn is_possible(&self) -> bool {
        self.spec.is_valid()
    }

    open spec fn most_clues(&self) -> u32 {
        self.spec.clue_max
    }

    open spec fn draws(&self, x: ReverseResult<N, BR, BC>, words: Seq<u64>, n: nat) -> bool {
        fish_is_drawn(self.spec, x, words, n)
    }

    open spec fn leads_to(
        &self,
        words: Seq<u64>,
        n: nat,
        r: Option<ReverseResult<N, BR, BC>>,
    ) -> bool {
        fish_leads_to::<N, BR, BC, R>(self.spec, words, n, r)
    }

    fn construct(&mut self, rng: &mut Xoshiro256PlusPlus, max_attempts: u32) -> (r: Option<
        ReverseResult<N, BR, BC>,
    >) {
        let spec = FishReverseSpec {
            target_size: self.spec.target_size,
            target_tier: self.spec.target_tier,
            clue_min: self.spec.clue_min,
            clue_max: self.spec.clue_max,
            max_attempts,
            require_load_bearing: self.spec.require_load_bearing,
            greedy_max_trials: self.spec.greedy_max_trials,
        };
        let r = fish_reverse_construct(rng, &mut self.rater, &spec);
        proof {
            let words = rng::state(*old(rng));
            assert(spec == (FishReverseSpec { max_attempts, ..self.spec }));
            assert forall|i: nat, x: Option<ReverseResult<N, BR, BC>>|
                fish_leads_to::<N, BR, BC, R>(spec, words, i, x) implies #[trigger] fish_leads_to::<
                N,
                BR,
                BC,
                R,
            >(self.spec, words, i, x) by {
                lemma_limit::<N, BR, BC, R>(self.spec, max_attempts, words, i, x);
            }
            if self.spec.is_valid() {
                assert forall|i: nat|
                    1 <= i <= (match r {
                        Some(x) => x.attempts_taken - 1,
                        None => max_attempts as int,
                    }) implies #[trigger] fish_leads_to::<N, BR, BC, R>(
                    self.spec,
                    words,
                    i,
                    None,
                ) by {
                    assert(fish_leads_to::<N, BR, BC, R>(spec, words, i, None));
                }
            }
        }
        r
    }
}

/// The result comes out of an attempt of one of the workers, whose attempts do not exceed its
/// share.
pub open spec fn fish_comes_from_worker<const N: usize, const BR: usize, const BC: usize>(
    spec: FishReverseSpec,
    x: ReverseResult<N, BR, BC>,
    seed: u64,
    threads: usize,
) -> bool {
    exists|w: int, m: nat|
        0 <= w < reverse_construct::workers_for(threads) && m + x.attempts_taken
            <= reverse_construct::share_of_attempts(
            spec.max_attempts,
            reverse_construct::workers_for(threads),
        ) && #[trigger] fish_is_drawn(
            spec,
            x,
            reverse_construct::worker_words(
                Grid::<N, BR, BC>::shape(),
                spec.clue_max,
                seed,
                w,
                m,
            ),
            x.attempts_taken as nat,
        )
}

/// Searches for up to `num_puzzles` puzzles. The attempts are shared out among `threads`
/// workers, each with a generator of its own, which take their turns one after another.
pub fn batch_fish_reverse_construct<
    const N: usize,
    const BR: usize,
    const BC: usize,
    R: Rater<N, BR, BC>,
>(
    rng_seed: u64,
    rater: R,
    spec: &FishReverseSpec,
    num_puzzles: u32,
    threads: usize,
) -> (r: Vec<ReverseResult<N, BR, BC>>)
    requires
        Grid::<N, BR, BC>::shape().ok(),
    ensures
        r@.len() <= num_puzzles,
        forall|i: int|
            0 <= i < r@.len() ==> (#[trigger] r@[i]).wf() && fish_result_ok(*spec, r@[i]),
        forall|i: int|
            0 <= i < r@.len() ==> fish_comes_from_worker(
                *spec,
                #[trigger] r@[i],
                rng_seed,
                threads,
            ),
        !spec.is_valid() ==> r@.len() == 0,
        reverse_construct::may_find::<N, BR, BC, FishJob<R>>(
            (FishJob { spec: *spec, rater }),
            rng_seed,
            spec.max_attempts,
            num_puzzles,
            threads,
            r@,
        ),
{
    let max_attempts: u32 = spec.max_attempts;
    let mut job = FishJob { spec: *spec, rater };
    batch(&mut job, rng_seed, max_attempts, num_puzzles, threads)
}

} // verus!
