//! What clues are given up, and when.

use super::carving;
use super::cfc_reverse::trimmed;
use super::gbraid_reverse;
use super::gbraid_reverse::{removal_step, Removal};
use super::generator;
use super::generator::{carved_upto, GenConfig};
use super::geometry::Dims;
use super::grid;
use super::grid::Grid;
use super::guided_removal;
use super::guided_removal::{Probe, Run};
use super::solutions;
use vstd::prelude::*;

verus! {

/// A generated puzzle has one solution, whose digits its clues are; it has no fewer clues than
/// asked for; if it has more and all could be tried, no clue can be left out.
pub proof fn law_generated_puzzle<const N: usize, const BR: usize, const BC: usize>(
    puzzle: Grid<N, BR, BC>,
    clues: u32,
    s: Seq<int>,
    cfg: GenConfig,
)
    requires
        generator::is_carved(puzzle, clues, s, cfg),
        cfg.target_clues <= N * N,
    ensures
        puzzle.solutions() == set![s],
        forall|i: int|
            0 <= i < puzzle.solved@.len() && #[trigger] puzzle.solved@[i] != 0
                ==> puzzle.solved@[i] == s[i],
        clues == solutions::placed(puzzle.solved@),
        clues >= cfg.target_clues,
        cfg.max_attempts == 0 && clues > cfg.target_clues ==> forall|i: int|
            0 <= i < N * N && #[trigger] puzzle.solved@[i] != 0 ==> exists|t: Seq<int>|
                t != s && #[trigger] grid::completions(
                    Grid::<N, BR, BC>::shape(),
                    solutions::digits_of(puzzle.solved@).update(i, 0),
                ).contains(t),
{
    let v = solutions::digits_of(puzzle.solved@);
    let g = Grid::<N, BR, BC>::shape();
    assert forall|i: int|
        0 <= i < puzzle.solved@.len() && #[trigger] puzzle.solved@[i] != 0 implies puzzle.solved@[i]
        == s[i] by {
        assert(v[i] == puzzle.solved@[i]);
    }
    if cfg.max_attempts == 0 && clues > cfg.target_clues {
        assert forall|i: int| 0 <= i < N * N && #[trigger] puzzle.solved@[i] != 0 implies exists|
            t: Seq<int>,
        |
            t != s && #[trigger] grid::completions(g, v.update(i, 0)).contains(t) by {
            assert(g.is_cell(i) && v[i] != 0);
            assert(carving::another(g, v.update(i, 0), s));
        }
    }
}

/// A limit on the clues that are tried means that only so many cells are visited.
pub proof fn law_limited_attempts(
    g: Dims,
    s: Seq<u8>,
    order: Seq<u16>,
    target_clues: u32,
    most: u32,
    k: int,
)
    requires
        most > 0,
        0 <= k <= order.len(),
    ensures
        carved_upto(g, s, order, GenConfig { target_clues, max_attempts: most }, k) == carved_upto(
            g,
            s,
            order,
            GenConfig { target_clues, max_attempts: 0 },
            if k <= most {
                k
            } else {
                most as int
            },
        ),
    decreases k,
{
    if k > 0 {
        law_limited_attempts(g, s, order, target_clues, most, k - 1);
    }
}

/// Each cell in turn: its clue is given up if there are more clues than asked for and the rest
/// has no other solution, and nothing else changes.
pub proof fn law_one_cell(g: Dims, s: Seq<u8>, order: Seq<u16>, target_clues: u32, k: int)
    requires
        0 <= k < order.len(),
    ensures
        ({
            let cfg = GenConfig { target_clues, max_attempts: 0 };
            let v = carved_upto(g, s, order, cfg, k);
            let next = carved_upto(g, s, order, cfg, k + 1);
            let less = v.update(order[k] as int, 0);
            &&& solutions::placed(v) > target_clues && grid::completions(
                g,
                solutions::digits_of(less),
            ) == set![solutions::digits_of(s)] ==> next == less
            &&& solutions::placed(v) <= target_clues || grid::completions(
                g,
                solutions::digits_of(less),
            ) != set![solutions::digits_of(s)] ==> next == v
            &&& carved_upto(g, s, order, cfg, 0) == s
        }),
{
}

/// A clue is given up in a search for a pattern just if the search goes on, there are attempts
/// left, more clues than the lower limit, no other solution for the rest, and the probe takes the
/// step; no other clue changes.
pub proof fn law_search_step<const N: usize, const BR: usize, const BC: usize, P: Probe<N, BR, BC>>(
    p: P,
    solved: Seq<u8>,
    clue_min: u32,
    cap: u32,
    r: Run,
    c: int,
)
    requires
        0 <= c < r.keep.len(),
    ensures
        ({
            let less = r.keep.update(c, false);
            let next = guided_removal::clue_score::<N, BR, BC, P>(p, solved, less);
            let t = guided_removal::step::<N, BR, BC, P>(p, solved, clue_min, cap, r, c);
            let goes = !r.stopped && r.trials < cap && r.keep[c] && carving::kept_count(r.keep)
                > clue_min && grid::completions(
                Grid::<N, BR, BC>::shape(),
                carving::kept(solved, less),
            ) == set![solutions::digits_of(solved)] && p.accepts(r.score, next);
            &&& goes ==> t.keep == less && t.score == next && !t.stopped
            &&& !goes ==> t.keep == r.keep && t.score == r.score
            &&& t.trials <= r.trials + 1
            &&& r.stopped ==> t.stopped
        }),
{
}

/// A clue is given up towards a g-braid just if the search goes on, there are more clues than the
/// lower limit, the rest has no other solution, and there was no g-braid yet or there still is
/// one that is no further off.
pub proof fn law_gbraid_step(solved: Seq<u8>, clue_min: u32, r: Removal, c: int, next: int)
    requires
        0 <= c < r.keep.len(),
    ensures
        ({
            let less = r.keep.update(c, false);
            let t = removal_step(solved, clue_min, r, c, next);
            let goes = !r.stopped && r.keep[c] && carving::kept_count(r.keep) > clue_min
                && grid::completions(
                Grid::<9, 3, 3>::shape(),
                carving::kept(solved, less),
            ) == set![solutions::digits_of(solved)] && (r.score == 0 || (1 <= next && next
                <= r.score));
            &&& goes ==> t.keep == less && t.score == next && !t.stopped
            &&& !goes ==> t.keep == r.keep && t.score == r.score
        }),
{
    assert(gbraid_reverse::takes(r.score, next) == (r.score == 0 || (1 <= next && next <= r.score)));
}

/// Fewer clues determine a solution only if more of them do.
proof fn lemma_more_clues(g: Dims, v: Seq<int>, w: Seq<int>, s: Seq<int>)
    requires
        v.len() == g.cells(),
        carving::part_of(w, v),
        carving::only_solution(g, w, s),
        grid::completions(g, v).contains(s),
    ensures
        carving::only_solution(g, v, s),
{
    carving::lemma_fewer_clues(g, v, w);
    assert(grid::completions(g, v) =~= set![s]);
}

/// Once all clues were tried, none can be left out of what remains.
pub proof fn law_trimmed_is_minimal(
    g: Dims,
    solved: Seq<u8>,
    keep: Seq<bool>,
    order: Seq<u16>,
    k: int,
)
    requires
        solved.len() == g.cells(),
        keep.len() == g.cells(),
        solutions::is_solution(g, solutions::digits_of(solved)),
        0 <= k <= order.len(),
        forall|j: int| 0 <= j < order.len() ==> (#[trigger] order[j]) < g.cells(),
    ensures
        trimmed(g, solved, keep, order, k).keep.len() == keep.len(),
        forall|i: int|
            0 <= i < keep.len() && #[trigger] trimmed(g, solved, keep, order, k).keep[i] ==> keep[i],
        forall|j: int|
            0 <= j < k && trimmed(g, solved, keep, order, k).keep[(#[trigger] order[j]) as int]
                ==> grid::completions(
                g,
                carving::kept(
                    solved,
                    trimmed(g, solved, keep, order, k).keep.update(order[j] as int, false),
                ),
            ) != set![solutions::digits_of(solved)],
    decreases k,
{
    if k > 0 {
        law_trimmed_is_minimal(g, solved, keep, order, k - 1);
        let s = solutions::digits_of(solved);
        let a = trimmed(g, solved, keep, order, k - 1).keep;
        let b = trimmed(g, solved, keep, order, k).keep;
        let c = order[k - 1] as int;
        assert(b.len() == a.len());
        assert forall|i: int| 0 <= i < keep.len() && #[trigger] b[i] implies keep[i] by {
            assert(a[i]);
        }
        assert forall|j: int| 0 <= j < k && b[(#[trigger] order[j]) as int] implies grid::completions(
            g,
            carving::kept(solved, b.update(order[j] as int, false)),
        ) != set![s] by {
            let o = order[j] as int;
            let w = carving::kept(solved, b.update(o, false));
            let v = carving::kept(solved, a.update(o, false));
            if o == c {
                assert(a[c] && b == a);
            } else {
                assert(a[o]);
                assert(j < k - 1);
                if carving::only_solution(g, w, s) {
                    assert(carving::part_of(w, v));
                    assert(carving::part_of(v, s));
                    carving::lemma_part_held(g, v, s);
                    lemma_more_clues(g, v, w, s);
                }
            }
        }
    }
}

} // verus!
