//! The rating of a puzzle on the axis of g-braid chains.
//!
//! Singles are placed first. What is left is handed to a search for the shortest g-braid
//! that rules something out, and its length is the rating.

use super::backtracker;
use super::backtracker::{propagate_singles, Placed};
use super::grid::Grid;
use super::solutions;
use vstd::prelude::*;

verus! {

/// A rating: the kind of chain, and its length.
#[derive(Clone, Copy, Debug, PartialEq, Eq, Hash, Structural)]
pub enum ChainRating {
    W(u8),
    GW(u8),
    B(u8),
    /// The only kind that is given to new puzzles.
    GB(u8),
}

/// A search for g-braids on a grid without singles. Nothing is taken for granted of its
/// answers.
pub trait GBraidSearch {
    /// The length of the shortest g-braid of at most `k_max` that rules something out.
    fn find_first_gbraid(&mut self, g: &Grid<9, 3, 3>, k_max: u8) -> Option<u8>;

    /// The same, but nothing if a whip, g-whip or braid of at most that length does.
    fn find_first_gbraid_excluding_wgwb(&mut self, g: &Grid<9, 3, 3>, k_max: u8) -> Option<u8>;
}

/// `r` is an answer that a search can give for the grid `g` when it is asked for the shortest
/// g-braid of at most `k_max`.
pub open spec fn may_find<S: GBraidSearch>(g: Grid<9, 3, 3>, k_max: u8, r: Option<u8>) -> bool {
    exists|m: &mut S| #[trigger] call_ensures(S::find_first_gbraid, (m, &g, k_max), r)
}

/// `r` is an answer that a search can give for the grid `g` when it is asked for the shortest
/// g-braid of at most `k_max`, unless another kind of chain does as well.
pub open spec fn may_find_excluding<S: GBraidSearch>(
    g: Grid<9, 3, 3>,
    k_max: u8,
    r: Option<u8>,
) -> bool {
    exists|m: &mut S| #[trigger]
        call_ensures(S::find_first_gbraid_excluding_wgwb, (m, &g, k_max), r)
}

/// No two peers hold the same digit.
pub open spec fn consistent(g: Grid<9, 3, 3>) -> bool {
    forall|i: int, j: int|
        #[trigger] Grid::<9, 3, 3>::shape().peer(i, j) && g.solved@[i] != 0 ==> g.solved@[i]
            != g.solved@[j]
}

/// Placing the singles `steps` leads from `g` to `h`, which has none left.
pub open spec fn singles_lead(g: Grid<9, 3, 3>, h: Grid<9, 3, 3>, steps: Seq<(int, u8)>) -> bool {
    let sh = Grid::<9, 3, 3>::shape();
    &&& backtracker::is_chain(sh, g.candidates@, g.solved@, steps)
    &&& (h.candidates@, h.solved@) == backtracker::after(sh, g.candidates@, g.solved@, steps)
    &&& h.solved_count == g.solved_count + steps.len()
    &&& backtracker::no_singles(sh, h.candidates@, h.solved@)
}

/// Placing singles leads from `g` to `h`, which has none left.
pub open spec fn singles_lead_to(g: Grid<9, 3, 3>, h: Grid<9, 3, 3>) -> bool {
    exists|steps: Seq<(int, u8)>| #[trigger] singles_lead(g, h, steps)
}

/// Placing the singles `steps` ends where it cannot go on, or fills the grid.
pub open spec fn singles_end(g: Grid<9, 3, 3>, steps: Seq<(int, u8)>) -> bool {
    let sh = Grid::<9, 3, 3>::shape();
    let (c, s) = backtracker::after(sh, g.candidates@, g.solved@, steps);
    &&& backtracker::is_chain(sh, g.candidates@, g.solved@, steps)
    &&& backtracker::is_dead_end(sh, c, s) || (backtracker::no_singles(sh, c, s) && g.solved_count
        + steps.len() == 81)
}

/// Placing singles decides the grid: it fills it, or shows that there is no solution.
pub open spec fn singles_decide(g: Grid<9, 3, 3>) -> bool {
    exists|steps: Seq<(int, u8)>| #[trigger] singles_end(g, steps)
}

/// What placing the singles leaves open: the candidates and the digits after it. Nothing if
/// the grid is inconsistent, or if singles decide it.
pub open spec fn left_open(g: Grid<9, 3, 3>) -> Option<(Seq<u32>, Seq<u8>)> {
    match backtracker::singles_placed(Grid::<9, 3, 3>::shape(), g.candidates@, g.solved@) {
        Placed::Through(at) => if consistent(g) && g.solved_count + solutions::placed(at.1)
            - solutions::placed(g.solved@) != 81 {
            Some(at)
        } else {
            None
        },
        Placed::Refused(_) => None,
    }
}

/// The grid after all singles were placed. `None` if it is inconsistent, or if singles
/// decide it.
pub fn build_post_brt_grid(puzzle: &Grid<9, 3, 3>) -> (r: Option<Grid<9, 3, 3>>)
    requires
        puzzle.wf(),
        puzzle.solved_count <= 81,
    ensures
        r is Some == left_open(*puzzle) is Some,
        r matches Some(h) ==> {
            &&& h.wf()
            &&& left_open(*puzzle) == Some((h.candidates@, h.solved@))
            &&& consistent(*puzzle)
            &&& singles_lead_to(*puzzle, h)
            &&& h.solved_count != 81
            &&& h.solutions() == puzzle.solutions()
            &&& puzzle.sound() ==> h.sound()
        },
        r is None ==> !consistent(*puzzle) || singles_decide(*puzzle),
{
    if !puzzle.is_consistent() {
        return None;
    }
    let mut h: Grid<9, 3, 3> = puzzle.clone();
    let r = propagate_singles(&mut h);
    let ghost sh = Grid::<9, 3, 3>::shape();
    if r.is_err() {
        proof {
            let steps = choose|steps: Seq<(int, u8)>|
                {
                    &&& #[trigger] backtracker::is_chain(
                        sh,
                        puzzle.candidates@,
                        puzzle.solved@,
                        steps,
                    )
                    &&& ({
                        let (c1, s1) = backtracker::after(
                            sh,
                            puzzle.candidates@,
                            puzzle.solved@,
                            steps,
                        );
                        backtracker::is_dead_end(sh, c1, s1)
                    })
                };
            assert(singles_end(*puzzle, steps));
        }
        return None;
    }
    let ghost steps = choose|steps: Seq<(int, u8)>|
        {
            &&& #[trigger] backtracker::is_chain(sh, puzzle.candidates@, puzzle.solved@, steps)
            &&& (h.candidates@, h.solved@) == backtracker::after(
                sh,
                puzzle.candidates@,
                puzzle.solved@,
                steps,
            )
            &&& h.solved_count == puzzle.solved_count + steps.len()
        };
    proof {
        backtracker::lemma_chain(sh, puzzle.candidates@, puzzle.solved@, steps);
    }
    assert(singles_lead(*puzzle, h, steps));
    if h.is_solved() {
        assert(singles_end(*puzzle, steps));
        return None;
    }
    Some(h)
}

/// The rating for what a search has found.
pub open spec fn rating_for(fired: Option<u8>) -> Option<ChainRating> {
    match fired {
        Some(k) => Some(ChainRating::GB(k)),
        None => None,
    }
}

/// `h` is what placing the singles of `g` leaves open.
pub open spec fn is_left(g: Grid<9, 3, 3>, h: Grid<9, 3, 3>) -> bool {
    left_open(g) == Some((h.candidates@, h.solved@))
}

/// `fired` is what a search can find in the grid that the singles of `g` leave open: nothing, if
/// they leave none.
pub open spec fn may_fire<S: GBraidSearch>(g: Grid<9, 3, 3>, k_max: u8, fired: Option<u8>) -> bool {
    if left_open(g) is None {
        fired is None
    } else {
        exists|h: Grid<9, 3, 3>| is_left(g, h) && #[trigger] may_find::<S>(h, k_max, fired)
    }
}

/// `r` is a rating that a search can lead to.
pub open spec fn may_rate<S: GBraidSearch>(
    g: Grid<9, 3, 3>,
    k_max: u8,
    r: Option<ChainRating>,
) -> bool {
    if k_max == 0 {
        r is None
    } else {
        exists|fired: Option<u8>| #[trigger]
            may_fire::<S>(g, k_max, fired) && r == rating_for(fired)
    }
}

/// The rating for what a search has found.
pub fn rating_of(fired: Option<u8>) -> (r: Option<ChainRating>)
    ensures
        r == rating_for(fired),
{
    match fired {
        Some(k) => Some(ChainRating::GB(k)),
        None => None,
    }
}

/// Rates a puzzle by its shortest g-braid of at most `k_max`. There is no rating if `k_max`
/// is zero, if the puzzle is inconsistent, if singles decide it, or if the search finds
/// nothing.
pub fn rate_chain<S: GBraidSearch>(g: &Grid<9, 3, 3>, k_max: u8, search: &mut S) -> (r: Option<
    ChainRating,
>)
    requires
        g.wf(),
        g.solved_count <= 81,
    ensures
        k_max == 0 || left_open(*g) is None ==> r is None,
        r matches Some(x) ==> x is GB,
        may_rate::<S>(*g, k_max, r),
{
    if k_max == 0 {
        return None;
    }
    match build_post_brt_grid(g) {
        Some(h) => {
            let fired = search.find_first_gbraid(&h, k_max);
            assert(is_left(*g, h) && may_find::<S>(h, k_max, fired));
            assert(may_fire::<S>(*g, k_max, fired));
            rating_of(fired)
        },
        None => {
            assert(may_fire::<S>(*g, k_max, None));
            None
        },
    }
}

/// `r` is the least length from 3 to `k_max` at which a g-braid rules something out of the
/// candidates `c` and placements `s`, where `fires` says at which lengths one does.
pub open spec fn is_least(
    fires: spec_fn(Seq<u32>, Seq<u8>, int) -> bool,
    c: Seq<u32>,
    s: Seq<u8>,
    k_max: u8,
    r: Option<u8>,
) -> bool {
    match r {
        Some(k) => 3 <= k <= k_max && fires(c, s, k as int) && forall|j: int|
            3 <= j < k ==> !#[trigger] fires(c, s, j),
        None => forall|j: int| 3 <= j <= k_max ==> !#[trigger] fires(c, s, j),
    }
}

/// Every answer of a search is the least length.
pub open spec fn finds_least<S: GBraidSearch>(
    fires: spec_fn(Seq<u32>, Seq<u8>, int) -> bool,
) -> bool {
    forall|h: Grid<9, 3, 3>, k_max: u8, r: Option<u8>| #[trigger]
        may_find::<S>(h, k_max, r) ==> is_least(fires, h.candidates@, h.solved@, k_max, r)
}

/// With a search that finds the least length, a rating is a g-braid of a length from 3 to the
/// limit, and it is the rating for every limit that it fits into; for smaller limits there is
/// none.
pub proof fn law_rating_is_least<S: GBraidSearch>(
    fires: spec_fn(Seq<u32>, Seq<u8>, int) -> bool,
    g: Grid<9, 3, 3>,
    limit: u8,
    k: u8,
    other: u8,
    r: Option<ChainRating>,
)
    requires
        finds_least::<S>(fires),
        may_rate::<S>(g, limit, Some(ChainRating::GB(k))),
        may_rate::<S>(g, other, r),
    ensures
        3 <= k <= limit,
        r == if other >= k {
            Some(ChainRating::GB(k))
        } else {
            None
        },
{
    let a = choose|a: Option<u8>| #[trigger]
        may_fire::<S>(g, limit, a) && rating_for(a) == Some(ChainRating::GB(k));
    assert(a == Some(k));
    let h = choose|h: Grid<9, 3, 3>| is_left(g, h) && #[trigger] may_find::<S>(h, limit, a);
    assert(is_least(fires, h.candidates@, h.solved@, limit, a));
    if other != 0 {
        let b = choose|b: Option<u8>| #[trigger] may_fire::<S>(g, other, b) && r == rating_for(b);
        let i = choose|i: Grid<9, 3, 3>| is_left(g, i) && #[trigger] may_find::<S>(i, other, b);
        assert(is_least(fires, i.candidates@, i.solved@, other, b));
        assert(i.candidates@ == h.candidates@ && i.solved@ == h.solved@);
        if let Some(j) = b {
            assert(fires(h.candidates@, h.solved@, j as int));
        }
        assert(fires(h.candidates@, h.solved@, k as int));
    }
}

/// If a puzzle has a solution, placing singles leads to one grid only.
pub proof fn law_one_grid_after_singles(g: Grid<9, 3, 3>, h: Grid<9, 3, 3>, k: Grid<9, 3, 3>)
    requires
        g.wf(),
        singles_lead_to(g, h),
        singles_lead_to(g, k),
        exists|s: Seq<int>| g.solutions().contains(s),
    ensures
        h.candidates@ == k.candidates@,
        h.solved@ == k.solved@,
        h.solved_count == k.solved_count,
{
    let sh = Grid::<9, 3, 3>::shape();
    let a = choose|a: Seq<(int, u8)>| #[trigger] singles_lead(g, h, a);
    let b = choose|b: Seq<(int, u8)>| #[trigger] singles_lead(g, k, b);
    let s = choose|s: Seq<int>| g.solutions().contains(s);
    backtracker::law_singles_meet(sh, g.candidates@, g.solved@, a, b, s);
    backtracker::lemma_chain(sh, g.candidates@, g.solved@, a);
    backtracker::lemma_chain(sh, g.candidates@, g.solved@, b);
}

/// The Sudoku Explainer score of a rating in thousandths.
pub open spec fn se_of(r: ChainRating) -> int {
    match r {
        ChainRating::W(k) => 6600 + 200 * (k - 1),
        ChainRating::GW(k) => 6800 + 200 * (k - 1),
        ChainRating::B(k) => 8000 + 300 * (k - 1),
        ChainRating::GB(k) => 8500 + 300 * (k - 1),
    }
}

/// The Sudoku Explainer score of a rating in thousandths.
pub fn chain_rating_to_se_milli(r: ChainRating) -> (m: u32)
    ensures
        m == se_of(r),
{
    match r {
        ChainRating::W(k) => 6400 + 200 * (k as u32),
        ChainRating::GW(k) => 6600 + 200 * (k as u32),
        ChainRating::B(k) => 7700 + 300 * (k as u32),
        ChainRating::GB(k) => 8200 + 300 * (k as u32),
    }
}

/// Longer chains of a kind have higher scores.
pub proof fn law_longer_chains_score_higher(j: u8, k: u8)
    requires
        j < k,
    ensures
        se_of(ChainRating::W(j)) < se_of(ChainRating::W(k)),
        se_of(ChainRating::GW(j)) < se_of(ChainRating::GW(k)),
        se_of(ChainRating::B(j)) < se_of(ChainRating::B(k)),
        se_of(ChainRating::GB(j)) < se_of(ChainRating::GB(k)),
{
}

} // verus!
