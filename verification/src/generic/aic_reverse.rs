//! Alternating inference chains, and puzzles that need one.
//!
//! A chain alternates strong and weak links and begins and ends with a strong one, so one of
//! its two ends holds. If both ends are the same digit in two cells, the digit goes nowhere
//! that sees both cells. Ends with different digits rule nothing out.

use super::aic_graph;
use super::aic_graph::AicGraph;
use super::csp_tables;
use super::geometry::Dims;
use super::grid::Grid;
use super::guided_removal;
use super::guided_removal::Probe;
use super::masks;
use super::peer_tables;
use super::rater::{RateResult, Rater};
use super::reverse_construct;
use super::rng;
use super::reverse_construct::{batch, judged, Construct, ReverseResult};
use super::solutions;
use super::stamped::StampedSet;
use super::techniques::{TechniqueId, Tier};
use super::text;
use rand_xoshiro::Xoshiro256PlusPlus;
use vstd::prelude::*;
use vstd::set_lib::*;

verus! {

broadcast use masks::group_masks;

/// The number of links at which a chain is no longer followed.
pub const PROBE_MAX_LEN: u8 = 14;

/// What a puzzle has to be like.
#[derive(Clone, Copy, Debug)]
pub struct AicReverseSpec {
    pub target_tier: Tier,
    /// The number of links that the first chain should have.
    pub target_chain_length: u32,
    /// How far the number of links may be off.
    pub chain_length_slack: u32,
    pub clue_min: u32,
    pub clue_max: u32,
    pub max_attempts: u32,
    /// The puzzle has to be of a harder tier without chains.
    pub require_load_bearing: bool,
    /// The number of clues that are tried for each seed, `0` for all.
    pub greedy_max_trials: u32,
}

impl AicReverseSpec {
    pub fn new_t3(target_chain_length: u32, slack: u32, max_attempts: u32) -> (r: Self)
        ensures
            r.target_tier == Tier::T3,
            r.target_chain_length == target_chain_length,
            r.chain_length_slack == slack,
            r.clue_min == 22,
            r.clue_max == 30,
            r.max_attempts == max_attempts,
            r.require_load_bearing,
            r.greedy_max_trials == 0,
    {
        AicReverseSpec {
            target_tier: Tier::T3,
            target_chain_length,
            chain_length_slack: slack,
            clue_min: 22,
            clue_max: 30,
            max_attempts,
            require_load_bearing: true,
            greedy_max_trials: 0,
        }
    }

    pub open spec fn is_valid(&self) -> bool {
        &&& self.clue_min <= self.clue_max
        &&& self.target_tier == Tier::T3 || self.target_tier == Tier::T4Plus
        &&& self.target_chain_length >= 1
    }

    /// Whether the specification can be met; else what is wrong with it first.
    pub fn validate(&self) -> (r: Result<(), String>)
        ensures
            r is Ok == self.is_valid(),
            r matches Err(m) ==> m@ == if self.clue_min > self.clue_max {
                text::band_message(
                    "clue_min"@,
                    self.clue_min as nat,
                    "clue_max"@,
                    self.clue_max as nat,
                )
            } else if self.target_tier == Tier::T1 {
                "target_tier=T1 cannot fire Aic"@
            } else if self.target_tier == Tier::T2 {
                "target_tier=T2 cannot fire Aic (Aic is T3)"@
            } else {
                "target_chain_length must be >= 1"@
            },
    {
        if self.clue_min > self.clue_max {
            return Err(
                text::inverted_band(
                    "clue_min",
                    self.clue_min as u64,
                    "clue_max",
                    self.clue_max as u64,
                ),
            );
        }
        if self.target_tier == Tier::T1 {
            return Err(text::owned("target_tier=T1 cannot fire Aic"));
        }
        if self.target_tier == Tier::T2 {
            return Err(text::owned("target_tier=T2 cannot fire Aic (Aic is T3)"));
        }
        if self.target_chain_length == 0 {
            return Err(text::owned("target_chain_length must be >= 1"));
        }
        Ok(())
    }
}

/// The `k`-th link of a chain, from one upwards: odd links are strong, even ones weak.
pub open spec fn link(g: Dims, c: Seq<u32>, solved: Seq<int>, k: int, a: int, b: int) -> bool {
    if k % 2 == 1 {
        aic_graph::strong(g, c, solved, a, b)
    } else {
        aic_graph::weak(g, c, solved, a, b)
    }
}

/// A chain of `k` links leads from `start` to `a` without coming back to `start`.
pub open spec fn chain(g: Dims, c: Seq<u32>, solved: Seq<int>, start: int, a: int, k: int) -> bool
    decreases k,
{
    &&& k >= 1
    &&& a != start
    &&& if k == 1 {
        link(g, c, solved, 1, start, a)
    } else {
        exists|m: int| #[trigger] link(g, c, solved, k, m, a) && chain(g, c, solved, start, m, k - 1)
    }
}

/// Two ends with the same digit in two cells rule the digit out in `cell`.
pub open spec fn ends_kill(g: Dims, c: Seq<u32>, solved: Seq<int>, a: int, b: int, cell: int) -> bool {
    &&& g.label_digit(a) == g.label_digit(b)
    &&& g.label_cell(a) != g.label_cell(b)
    &&& g.peer(g.label_cell(a), cell)
    &&& g.peer(g.label_cell(b), cell)
    &&& solved[cell] == 0
    &&& masks::holds(c[cell], g.label_digit(a) + 1)
}

/// Two ends rule something out.
pub open spec fn ends_fire(g: Dims, c: Seq<u32>, solved: Seq<int>, a: int, b: int) -> bool {
    exists|cell: int| #[trigger] ends_kill(g, c, solved, a, b, cell)
}

/// Some chain of `k` links from `start` rules something out.
pub open spec fn fires_at(g: Dims, c: Seq<u32>, solved: Seq<int>, start: int, k: int) -> bool {
    exists|a: int| #[trigger] chain(g, c, solved, start, a, k) && ends_fire(g, c, solved, start, a)
}

/// The shortest chain from `start` that rules something out has `k` links.
pub open spec fn shortest_from(g: Dims, c: Seq<u32>, solved: Seq<int>, start: int, k: int) -> bool {
    &&& 1 <= k < PROBE_MAX_LEN
    &&& k % 2 == 1
    &&& fires_at(g, c, solved, start, k)
    &&& forall|j: int|
        1 <= j < k && j % 2 == 1 ==> !#[trigger] fires_at(g, c, solved, start, j)
}

/// No chain from `start` rules anything out.
pub open spec fn none_from(g: Dims, c: Seq<u32>, solved: Seq<int>, start: int) -> bool {
    forall|j: int|
        1 <= j < PROBE_MAX_LEN && j % 2 == 1 ==> !#[trigger] fires_at(g, c, solved, start, j)
}

/// Chains are begun at `start`.
pub open spec fn is_start(g: Dims, c: Seq<u32>, solved: Seq<int>, start: int) -> bool {
    aic_graph::paired_upto(g, c, solved, g.vars(), start)
}

/// Chains are begun in their order, and the first label from which one rules something out
/// is `start`, with a shortest chain of `k` links.
pub open spec fn is_first_chain(g: Dims, c: Seq<u32>, solved: Seq<int>, start: int, k: int) -> bool {
    &&& is_start(g, c, solved, start)
    &&& shortest_from(g, c, solved, start, k)
    &&& forall|s: int| #[trigger]
        is_start(g, c, solved, s) && aic_graph::start_before(g, c, solved, s, start) ==> none_from(
            g,
            c,
            solved,
            s,
        )
}

/// `r` is the length of the first chain that rules something out.
pub open spec fn is_chain_length(g: Dims, c: Seq<u32>, solved: Seq<int>, r: Option<int>) -> bool {
    match r {
        Some(k) => exists|start: int| #[trigger] is_first_chain(g, c, solved, start, k),
        None => forall|s: int| #[trigger] is_start(g, c, solved, s) ==> none_from(g, c, solved, s),
    }
}

/// The length of the first chain that rules something out.
pub open spec fn chain_length(g: Dims, c: Seq<u32>, solved: Seq<int>) -> Option<int> {
    choose|r: Option<int>| #[trigger] is_chain_length(g, c, solved, r)
}

/// There is only one such length.
proof fn lemma_chain_length(g: Dims, c: Seq<u32>, t: Seq<int>, r: Option<int>)
    requires
        is_chain_length(g, c, t, r),
    ensures
        chain_length(g, c, t) == r,
{
    let q = chain_length(g, c, t);
    assert(is_chain_length(g, c, t, q));
    match (r, q) {
        (Some(k), Some(l)) => {
            let a = choose|a: int| #[trigger] is_first_chain(g, c, t, a, k);
            let b = choose|b: int| #[trigger] is_first_chain(g, c, t, b, l);
            aic_graph::lemma_starts_ordered(g, c, t, a, b);
            assert(is_start(g, c, t, a) && is_start(g, c, t, b));
            assert(fires_at(g, c, t, a, k) && fires_at(g, c, t, b, l));
            if k < l {
                assert(!fires_at(g, c, t, b, k));
            }
            if l < k {
                assert(!fires_at(g, c, t, a, l));
            }
        },
        (Some(k), None) => {
            let a = choose|a: int| #[trigger] is_first_chain(g, c, t, a, k);
            assert(is_start(g, c, t, a));
            assert(fires_at(g, c, t, a, k));
        },
        (None, Some(k)) => {
            let a = choose|a: int| #[trigger] is_first_chain(g, c, t, a, k);
            assert(is_start(g, c, t, a));
            assert(fires_at(g, c, t, a, k));
        },
        (None, None) => {},
    }
}

/// If the beginning of a chain does not hold, its end holds after an odd number of links and
/// does not hold after an even one.
pub proof fn law_chain_alternates(
    g: Dims,
    c: Seq<u32>,
    solved: Seq<u8>,
    start: int,
    a: int,
    k: int,
    s: Seq<int>,
)
    requires
        solutions::well_formed(g, c, solved),
        solutions::solutions(g, c).contains(s),
        chain(g, c, solutions::digits_of(solved), start, a, k),
        !aic_graph::holds_in(g, s, start),
    ensures
        aic_graph::holds_in(g, s, a) == (k % 2 == 1),
    decreases k,
{
    let t = solutions::digits_of(solved);
    if k == 1 {
        let v = choose|v: int|
            v < g.vars() && #[trigger] aic_graph::strong_in(g, c, t, v, start, a);
        aic_graph::law_strong_link(g, c, solved, v, start, a, s);
    } else {
        let m = choose|m: int| #[trigger] link(g, c, t, k, m, a) && chain(g, c, t, start, m, k - 1);
        law_chain_alternates(g, c, solved, start, m, k - 1, s);
        if k % 2 == 1 {
            let v = choose|v: int|
                v < g.vars() && #[trigger] aic_graph::strong_in(g, c, t, v, m, a);
            aic_graph::law_strong_link(g, c, solved, v, m, a, s);
        } else {
            let v = choose|v: int| v < g.vars() && #[trigger] aic_graph::weak_in(g, c, t, v, m, a);
            aic_graph::law_weak_link(g, c, solved, v, m, a, s);
        }
    }
}

/// A chain is right: no solution has the digit where the ends rule it out.
pub proof fn law_chain_sound(
    g: Dims,
    c: Seq<u32>,
    solved: Seq<u8>,
    start: int,
    a: int,
    k: int,
    cell: int,
    s: Seq<int>,
)
    requires
        solutions::well_formed(g, c, solved),
        solutions::solutions(g, c).contains(s),
        k % 2 == 1,
        chain(g, c, solutions::digits_of(solved), start, a, k),
        ends_kill(g, c, solutions::digits_of(solved), start, a, cell),
    ensures
        s[cell] != g.label_digit(start) + 1,
{
    if !aic_graph::holds_in(g, s, start) {
        law_chain_alternates(g, c, solved, start, a, k, s);
    }
}

/// Ends with different digits rule nothing out, whatever the chain between them.
pub proof fn law_different_digits_rule_nothing_out(
    g: Dims,
    c: Seq<u32>,
    solved: Seq<int>,
    a: int,
    b: int,
)
    requires
        g.label_digit(a) != g.label_digit(b),
    ensures
        !ends_fire(g, c, solved, a, b),
{
}

/// Buffers that serve one grid after another.
pub struct AicProbeScratch {
    pub graph: AicGraph,
    /// The labels that were reached by a strong link.
    pub bfs_strong: StampedSet,
    /// The labels that were reached by a weak link.
    pub bfs_weak: StampedSet,
    /// The labels that were reached, with the number of links.
    pub queue: Vec<(u32, u8)>,
    /// The peers of the cell `peers_of`.
    pub peers: StampedSet,
    pub peers_of: Option<usize>,
}

/// The label was reached with at most `k` links, as many as `k` up to an even number.
spec fn reached(q: Seq<(u32, u8)>, a: int, k: int) -> bool {
    exists|i: int|
        0 <= i < q.len() && (#[trigger] q[i]).0 == a && q[i].1 <= k && q[i].1 % 2 == k % 2
}

impl AicProbeScratch {
    /// The buffers fit the shape.
    pub open spec fn wf(&self, g: Dims) -> bool {
        &&& self.graph.wf(g)
        &&& self.bfs_strong.wf()
        &&& self.bfs_strong.size() == g.labels()
        &&& self.bfs_weak.wf()
        &&& self.bfs_weak.size() == g.labels()
        &&& self.peers.wf()
        &&& self.peers.size() == g.cells()
        &&& self.peers_of matches Some(e) ==> {
            &&& g.is_cell(e as int)
            &&& forall|i: int| #[trigger] self.peers.contains(i) == g.peer(e as int, i)
        }
    }

    /// Buffers for grids with `N` digits.
    pub fn new<const N: usize>() -> (r: Self)
        requires
            1 <= N <= 31,
        ensures
            forall|g: Dims| g.n == N ==> #[trigger] r.wf(g),
    {
        assert(N * N <= 961) by (nonlinear_arith)
            requires
                N <= 31,
        ;
        let nn: usize = N * N;
        assert(nn * N <= 29791) by (nonlinear_arith)
            requires
                N <= 31,
                nn <= 961,
        ;
        let nv: usize = nn * N;
        AicProbeScratch {
            graph: AicGraph::new(nv),
            bfs_strong: StampedSet::new(nv),
            bfs_weak: StampedSet::new(nv),
            queue: Vec::new(),
            peers: StampedSet::new(nn),
            peers_of: None,
        }
    }

    /// The state of the search from `start`: all labels in the queue were reached by
    /// chains of at most `lim` links, in ascending order, each once by a strong and once by a
    /// weak link.
    spec fn searching(&self, g: Dims, c: Seq<u32>, t: Seq<int>, start: int, lim: int) -> bool {
        let q = self.queue@;
        &&& forall|i: int|
            0 <= i < q.len() ==> g.is_label((#[trigger] q[i]).0 as int) && 1 <= q[i].1 <= lim
                && chain(g, c, t, start, q[i].0 as int, q[i].1 as int)
        &&& forall|i: int, j: int| 0 <= i < j < q.len() ==> (#[trigger] q[i]).1 <= (#[trigger] q[j]).1
        &&& forall|i: int, j: int|
            0 <= i < j < q.len() && (#[trigger] q[i]).1 % 2 == (#[trigger] q[j]).1 % 2 ==> q[i].0
                != q[j].0
        &&& forall|a: int| #[trigger]
            self.bfs_strong.contains(a) == exists|i: int|
                0 <= i < q.len() && (#[trigger] q[i]).0 == a && q[i].1 % 2 == 1
        &&& forall|a: int| #[trigger]
            self.bfs_weak.contains(a) == exists|i: int|
                0 <= i < q.len() && (#[trigger] q[i]).0 == a && q[i].1 % 2 == 0
    }

    /// What the first `head` labels of the queue lead to was reached.
    spec fn followed(&self, g: Dims, c: Seq<u32>, t: Seq<int>, start: int, head: int) -> bool {
        let q = self.queue@;
        &&& forall|a: int|
            a != start && #[trigger] link(g, c, t, 1, start, a) ==> reached(q, a, 1)
        &&& forall|i: int, k: int, b: int|
            0 <= i < head && k == (#[trigger] q[i]).1 + 1 && k <= PROBE_MAX_LEN && b != start
                && #[trigger] link(g, c, t, k, q[i].0 as int, b) ==> reached(q, b, k)
        &&& forall|i: int|
            0 <= i < head && (#[trigger] q[i]).1 % 2 == 1 ==> !ends_fire(
                g,
                c,
                t,
                start,
                q[i].0 as int,
            )
    }

    /// Takes note of a label that was reached with `k` links, unless it was before.
    fn reach(
        &mut self,
        n: u32,
        k: u8,
        start: u32,
        Ghost(g): Ghost<Dims>,
        Ghost(c): Ghost<Seq<u32>>,
        Ghost(t): Ghost<Seq<int>>,
    )
        requires
            old(self).wf(g),
            g.is_label(n as int),
            1 <= k,
            old(self).searching(g, c, t, start as int, k as int),
            n != start ==> chain(g, c, t, start as int, n as int, k as int),
        ensures
            final(self).wf(g),
            final(self).graph == old(self).graph,
            final(self).searching(g, c, t, start as int, k as int),
            old(self).queue@.len() <= final(self).queue@.len(),
            forall|i: int|
                0 <= i < old(self).queue@.len() ==> #[trigger] final(self).queue@[i] == old(
                    self,
                ).queue@[i],
            n != start ==> reached(final(self).queue@, n as int, k as int),
    {
        let ghost q0 = self.queue@;
        let ghost si = start as int;
        if n == start {
            return;
        }
        let seen: bool = if k % 2 == 1 {
            self.bfs_strong.test(n as usize)
        } else {
            self.bfs_weak.test(n as usize)
        };
        if seen {
            proof {
                let i = choose|i: int|
                    0 <= i < q0.len() && (#[trigger] q0[i]).0 == n as int && q0[i].1 % 2 == k % 2;
                assert(q0[i].1 <= k);
            }
            return;
        }
        let ghost s0 = self.bfs_strong;
        let ghost w0 = self.bfs_weak;
        if k % 2 == 1 {
            self.bfs_strong.insert(n as usize);
        } else {
            self.bfs_weak.insert(n as usize);
        }
        self.queue.push((n, k));
        proof {
            let q = self.queue@;
            let m = q0.len() as int;
            assert(q[m] == (n, k));
            assert forall|i: int| 0 <= i < m implies #[trigger] q[i] == q0[i] by {}
            assert forall|i: int, j: int|
                0 <= i < j < q.len() && (#[trigger] q[i]).1 % 2 == (#[trigger] q[j]).1 % 2 implies q[i].0
                != q[j].0 by {
                if j == m {
                    assert(q[i] == q0[i]);
                }
            }
            assert forall|a: int| #[trigger] self.bfs_strong.contains(a) == exists|i: int|
                0 <= i < q.len() && (#[trigger] q[i]).0 == a && q[i].1 % 2 == 1 by {
                if s0.contains(a) {
                    let i = choose|i: int|
                        0 <= i < q0.len() && (#[trigger] q0[i]).0 == a && q0[i].1 % 2 == 1;
                    assert(q[i].0 == a);
                }
                if exists|i: int| 0 <= i < q.len() && (#[trigger] q[i]).0 == a && q[i].1 % 2 == 1 {
                    let i = choose|i: int|
                        0 <= i < q.len() && (#[trigger] q[i]).0 == a && q[i].1 % 2 == 1;
                    if i < m {
                        assert(q0[i].0 == a);
                    }
                }
            }
            assert forall|a: int| #[trigger] self.bfs_weak.contains(a) == exists|i: int|
                0 <= i < q.len() && (#[trigger] q[i]).0 == a && q[i].1 % 2 == 0 by {
                if w0.contains(a) {
                    let i = choose|i: int|
                        0 <= i < q0.len() && (#[trigger] q0[i]).0 == a && q0[i].1 % 2 == 0;
                    assert(q[i].0 == a);
                }
                if exists|i: int| 0 <= i < q.len() && (#[trigger] q[i]).0 == a && q[i].1 % 2 == 0 {
                    let i = choose|i: int|
                        0 <= i < q.len() && (#[trigger] q[i]).0 == a && q[i].1 % 2 == 0;
                    if i < m {
                        assert(q0[i].0 == a);
                    }
                }
            }
        }
    }

    /// Whether two ends rule something out. Nothing is changed but the buffers.
    pub fn try_eliminate_dryrun<const N: usize, const BR: usize, const BC: usize>(
        &mut self,
        grid: &Grid<N, BR, BC>,
        start: u32,
        end: u32,
    ) -> (r: bool)
        requires
            grid.wf(),
            old(self).wf(Grid::<N, BR, BC>::shape()),
            Grid::<N, BR, BC>::shape().is_label(start as int),
            Grid::<N, BR, BC>::shape().is_label(end as int),
        ensures
            final(self).wf(Grid::<N, BR, BC>::shape()),
            final(self).graph == old(self).graph,
            final(self).queue == old(self).queue,
            final(self).bfs_strong == old(self).bfs_strong,
            final(self).bfs_weak == old(self).bfs_weak,
            r == ends_fire(
                Grid::<N, BR, BC>::shape(),
                grid.candidates@,
                solutions::digits_of(grid.solved@),
                start as int,
                end as int,
            ),
    {
        let ghost g = Grid::<N, BR, BC>::shape();
        let ghost c = grid.candidates@;
        let ghost t = solutions::digits_of(grid.solved@);
        let ghost si = start as int;
        let ghost ei = end as int;
        proof {
            csp_tables::lemma_label_parts(g, si);
            csp_tables::lemma_label_parts(g, ei);
            peer_tables::lemma_cells_bound(g);
        }
        let s_cell: usize = start as usize / N;
        let s_d: usize = start as usize % N;
        let e_cell: usize = end as usize / N;
        let e_d: usize = end as usize % N;
        assert(s_cell == g.label_cell(si) && e_cell == g.label_cell(ei));
        assert(s_d == g.label_digit(si) && e_d == g.label_digit(ei));
        if s_cell == e_cell || s_d != e_d {
            return false;
        }
        let known: bool = match self.peers_of {
            Some(e) => e == e_cell,
            None => false,
        };
        if !known {
            self.note_peers(grid, e_cell);
        }
        let bit: u32 = masks::digit_bit((s_d + 1) as u8);
        proof {
            assert(grid.table.cells@[s_cell as int].wf(g, s_cell as int));
        }
        let list = &grid.table.cells[s_cell].peers;
        let mut i: usize = 0;
        while i < list.len()
            invariant
                grid.wf(),
                g == Grid::<N, BR, BC>::shape(),
                c == grid.candidates@,
                t == solutions::digits_of(grid.solved@),
                self.wf(g),
                self.graph == old(self).graph,
                self.queue == old(self).queue,
                self.bfs_strong == old(self).bfs_strong,
                self.bfs_weak == old(self).bfs_weak,
                self.peers_of == Some(e_cell),
                si == start,
                ei == end,
                s_cell == g.label_cell(si),
                e_cell == g.label_cell(ei),
                s_cell != e_cell,
                g.is_cell(s_cell as int),
                s_d == g.label_digit(si),
                s_d == g.label_digit(ei),
                s_d < N,
                bit == masks::bit(s_d + 1),
                peer_tables::lists_peers(g, s_cell as int, list@, g.cells()),
                i <= list@.len(),
                forall|j: int|
                    0 <= j < i ==> !ends_kill(g, c, t, si, ei, #[trigger] list@[j] as int),
            decreases list@.len() - i,
        {
            let cell: usize = list[i] as usize;
            proof {
                assert(list@.contains(list@[i as int]));
                assert(g.peer(s_cell as int, cell as int));
                assert(t[cell as int] == grid.solved@[cell as int]);
            }
            if self.peers.test(cell) && grid.solved[cell] == 0 {
                if grid.candidates[cell] & bit != 0 {
                    assert(masks::holds(c[cell as int], s_d + 1));
                    assert(ends_kill(g, c, t, si, ei, cell as int));
                    return true;
                }
                assert(!masks::holds(c[cell as int], s_d + 1));
            }
            i += 1;
        }
        proof {
            assert forall|cell: int| !#[trigger] ends_kill(g, c, t, si, ei, cell) by {
                if ends_kill(g, c, t, si, ei, cell) {
                    assert(list@.contains(cell as u16));
                    let j = choose|j: int| 0 <= j < list@.len() && list@[j] == cell as u16;
                    assert(list@[j] as int == cell);
                }
            }
        }
        false
    }

    /// Takes note of the peers of a cell.
    fn note_peers<const N: usize, const BR: usize, const BC: usize>(
        &mut self,
        grid: &Grid<N, BR, BC>,
        e: usize,
    )
        requires
            grid.wf(),
            old(self).wf(Grid::<N, BR, BC>::shape()),
            e < N * N,
        ensures
            final(self).wf(Grid::<N, BR, BC>::shape()),
            final(self).graph == old(self).graph,
            final(self).queue == old(self).queue,
            final(self).bfs_strong == old(self).bfs_strong,
            final(self).bfs_weak == old(self).bfs_weak,
            final(self).peers_of == Some(e),
    {
        let ghost g = Grid::<N, BR, BC>::shape();
        self.peers.clear();
        proof {
            peer_tables::lemma_cells_bound(g);
            assert(grid.table.cells@[e as int].wf(g, e as int));
        }
        let list = &grid.table.cells[e].peers;
        let mut i: usize = 0;
        while i < list.len()
            invariant
                g == Grid::<N, BR, BC>::shape(),
                self.graph == old(self).graph,
                self.queue == old(self).queue,
                self.bfs_strong == old(self).bfs_strong,
                self.bfs_weak == old(self).bfs_weak,
                self.peers.wf(),
                self.peers.size() == g.cells(),
                g.cells() <= 961,
                peer_tables::lists_peers(g, e as int, list@, g.cells()),
                i <= list@.len(),
                forall|x: int| #[trigger]
                    self.peers.contains(x) == exists|j: int|
                        0 <= j < i && #[trigger] list@[j] == x,
            decreases list@.len() - i,
        {
            let ghost before = self.peers;
            proof {
                assert(list@.contains(list@[i as int]));
                assert(g.peer(e as int, list@[i as int] as int));
            }
            self.peers.insert(list[i] as usize);
            proof {
                assert forall|x: int| #[trigger] self.peers.contains(x) == exists|j: int|
                    0 <= j < i + 1 && #[trigger] list@[j] == x by {
                    if before.contains(x) {
                        let j = choose|j: int| 0 <= j < i && #[trigger] list@[j] == x;
                        assert(list@[j] == x);
                    }
                }
            }
            i += 1;
        }
        self.peers_of = Some(e);
        proof {
            assert forall|x: int| #[trigger] self.peers.contains(x) == g.peer(e as int, x) by {
                if self.peers.contains(x) {
                    let j = choose|j: int| 0 <= j < list@.len() && #[trigger] list@[j] == x;
                    assert(list@.contains(list@[j]));
                }
                if g.peer(e as int, x) {
                    assert(list@.contains(x as u16));
                    let j = choose|j: int| 0 <= j < list@.len() && list@[j] == x as u16;
                    assert(list@[j] == x);
                }
            }
        }
    }

    /// The number of links of the shortest chain from `start` that rules something out.
    fn search_from<const N: usize, const BR: usize, const BC: usize>(
        &mut self,
        grid: &Grid<N, BR, BC>,
        start: u32,
    ) -> (r: Option<u8>)
        requires
            grid.wf(),
            old(self).wf(Grid::<N, BR, BC>::shape()),
            Grid::<N, BR, BC>::shape().is_label(start as int),
            old(self).graph.shows(
                Grid::<N, BR, BC>::shape(),
                grid.candidates@,
                solutions::digits_of(grid.solved@),
            ),
        ensures
            final(self).wf(Grid::<N, BR, BC>::shape()),
            final(self).graph == old(self).graph,
            r matches Some(k) ==> shortest_from(
                Grid::<N, BR, BC>::shape(),
                grid.candidates@,
                solutions::digits_of(grid.solved@),
                start as int,
                k as int,
            ),
            r is None ==> none_from(
                Grid::<N, BR, BC>::shape(),
                grid.candidates@,
                solutions::digits_of(grid.solved@),
                start as int,
            ),
    {
        let ghost g = Grid::<N, BR, BC>::shape();
        let ghost c = grid.candidates@;
        let ghost t = solutions::digits_of(grid.solved@);
        let ghost si = start as int;
        proof {
            csp_tables::lemma_label_bounds(g);
        }
        self.bfs_strong.clear();
        self.bfs_weak.clear();
        self.queue.clear();
        self.follow(grid, start, start, 1);
        let mut head: usize = 0;
        proof {
            lemma_queue_bound(g, self.queue@);
        }
        while head < self.queue.len()
            invariant
                grid.wf(),
                g == Grid::<N, BR, BC>::shape(),
                g.labels() <= 29791,
                c == grid.candidates@,
                t == solutions::digits_of(grid.solved@),
                si == start,
                g.is_label(si),
                self.wf(g),
                self.graph == old(self).graph,
                self.graph.shows(g, c, t),
                head <= self.queue@.len() <= 2 * g.labels(),
                self.searching(
                    g,
                    c,
                    t,
                    si,
                    if head == 0 {
                        1
                    } else {
                        self.queue@[head - 1].1 + 1
                    },
                ),
                self.followed(g, c, t, si, head as int),
                forall|i: int| 0 <= i < self.queue@.len() ==> (#[trigger] self.queue@[i]).1 <= PROBE_MAX_LEN,
            decreases 2 * g.labels() - head,
        {
            let (cur, d) = self.queue[head];
            let ghost q0 = self.queue@;
            assert(q0[head as int] == (cur, d));
            if d % 2 == 1 {
                if self.try_eliminate_dryrun(grid, start, cur) {
                    proof {
                        assert(fires_at(g, c, t, si, d as int)) by {
                            assert(chain(g, c, t, si, cur as int, d as int));
                        }
                        assert forall|j: int|
                            1 <= j < d && j % 2 == 1 implies !#[trigger] fires_at(g, c, t, si, j) by {
                            self.lemma_not_earlier(g, c, t, si, head as int, d as int, j);
                        }
                        assert(d < PROBE_MAX_LEN) by {
                            assert(q0[head as int].1 <= PROBE_MAX_LEN);
                        }
                    }
                    return Some(d);
                }
            }
            head += 1;
            let ghost q1 = self.queue@;
            assert(q1 == q0);
            if d < PROBE_MAX_LEN {
                assert(self.searching(g, c, t, si, d + 1)) by {
                    assert forall|i: int| 0 <= i < q1.len() implies (#[trigger] q1[i]).1 <= d + 1 by {
                        if head > 1 {
                            assert(q1[head - 2].1 <= q1[head - 1].1);
                        }
                    }
                }
                self.follow(grid, start, cur, d + 1);
                proof {
                    assert(self.queue@[head - 1] == q0[head - 1]);
                    self.lemma_followed(g, c, t, si, q0, head as int - 1, cur as int, d as int);
                    lemma_queue_bound(g, self.queue@);
                }
            } else {
                proof {
                    assert(self.queue@[head - 1] == q0[head - 1]);
                    assert(self.searching(g, c, t, si, d + 1)) by {
                        assert forall|i: int| 0 <= i < q1.len() implies (#[trigger] q1[i]).1 <= d
                            + 1 by {
                            if head > 1 {
                                assert(q1[head - 2].1 <= q1[head - 1].1);
                            }
                        }
                    }
                }
            }
        }
        proof {
            assert forall|j: int|
                1 <= j < PROBE_MAX_LEN && j % 2 == 1 implies !#[trigger] fires_at(g, c, t, si, j) by {
                self.lemma_not_earlier(g, c, t, si, head as int, PROBE_MAX_LEN as int, j);
            }
        }
        None
    }

    /// Takes note of all labels that the `k`-th link leads to from `cur`.
    fn follow<const N: usize, const BR: usize, const BC: usize>(
        &mut self,
        grid: &Grid<N, BR, BC>,
        start: u32,
        cur: u32,
        k: u8,
    )
        requires
            grid.wf(),
            old(self).wf(Grid::<N, BR, BC>::shape()),
            Grid::<N, BR, BC>::shape().is_label(start as int),
            Grid::<N, BR, BC>::shape().is_label(cur as int),
            1 <= k,
            old(self).graph.shows(
                Grid::<N, BR, BC>::shape(),
                grid.candidates@,
                solutions::digits_of(grid.solved@),
            ),
            old(self).searching(
                Grid::<N, BR, BC>::shape(),
                grid.candidates@,
                solutions::digits_of(grid.solved@),
                start as int,
                k as int,
            ),
            k == 1 ==> cur == start,
            k > 1 ==> chain(
                Grid::<N, BR, BC>::shape(),
                grid.candidates@,
                solutions::digits_of(grid.solved@),
                start as int,
                cur as int,
                k - 1,
            ),
        ensures
            final(self).wf(Grid::<N, BR, BC>::shape()),
            final(self).graph == old(self).graph,
            final(self).searching(
                Grid::<N, BR, BC>::shape(),
                grid.candidates@,
                solutions::digits_of(grid.solved@),
                start as int,
                k as int,
            ),
            old(self).queue@.len() <= final(self).queue@.len(),
            forall|i: int|
                0 <= i < old(self).queue@.len() ==> #[trigger] final(self).queue@[i] == old(
                    self,
                ).queue@[i],
            forall|b: int|
                b != start && #[trigger] link(
                    Grid::<N, BR, BC>::shape(),
                    grid.candidates@,
                    solutions::digits_of(grid.solved@),
                    k as int,
                    cur as int,
                    b,
                ) ==> reached(final(self).queue@, b, k as int),
    {
        let ghost g = Grid::<N, BR, BC>::shape();
        let ghost c = grid.candidates@;
        let ghost t = solutions::digits_of(grid.solved@);
        let ghost si = start as int;
        let ghost ci = cur as int;
        let ghost q0 = self.queue@;
        let odd: bool = k % 2 == 1;
        let ghost list = if odd {
            self.graph.strong.at(ci)
        } else {
            self.graph.weak.at(ci)
        };
        let n: usize = if odd {
            self.graph.strong.len_at(cur as usize)
        } else {
            self.graph.weak.len_at(cur as usize)
        };
        let mut i: usize = 0;
        while i < n
            invariant
                grid.wf(),
                g == Grid::<N, BR, BC>::shape(),
                c == grid.candidates@,
                t == solutions::digits_of(grid.solved@),
                si == start,
                ci == cur,
                g.is_label(si),
                g.is_label(ci),
                1 <= k,
                odd == (k % 2 == 1),
                k == 1 ==> cur == start,
                k > 1 ==> chain(g, c, t, si, ci, k - 1),
                self.wf(g),
                self.graph == old(self).graph,
                self.graph.shows(g, c, t),
                list == if odd {
                    self.graph.strong.at(ci)
                } else {
                    self.graph.weak.at(ci)
                },
                n == list.len(),
                self.searching(g, c, t, si, k as int),
                q0 == old(self).queue@,
                q0.len() <= self.queue@.len(),
                forall|j: int| 0 <= j < q0.len() ==> #[trigger] self.queue@[j] == q0[j],
                i <= n,
                forall|j: int|
                    0 <= j < i && #[trigger] list[j] != start ==> reached(
                        self.queue@,
                        list[j] as int,
                        k as int,
                    ),
            decreases n - i,
        {
            let b: u32 = if odd {
                self.graph.strong.item(cur as usize, i)
            } else {
                self.graph.weak.item(cur as usize, i)
            };
            let ghost bi = b as int;
            let ghost q1 = self.queue@;
            proof {
                assert(list[i as int] == b);
                assert(aic_graph::lists(list, bi));
                assert(link(g, c, t, k as int, ci, bi));
                if odd {
                    let v = choose|v: int|
                        v < g.vars() && #[trigger] aic_graph::strong_in(g, c, t, v, ci, bi);
                    assert(aic_graph::is_member(g, c, t, v, bi));
                } else {
                    let v = choose|v: int|
                        v < g.vars() && #[trigger] aic_graph::weak_in(g, c, t, v, ci, bi);
                    assert(aic_graph::is_member(g, c, t, v, bi));
                }
                assert(b != start ==> chain(g, c, t, si, bi, k as int));
            }
            self.reach(b, k, start, Ghost(g), Ghost(c), Ghost(t));
            proof {
                assert forall|j: int| 0 <= j < i + 1 && #[trigger] list[j] != start implies reached(
                    self.queue@,
                    list[j] as int,
                    k as int,
                ) by {
                    if j < i {
                        lemma_reached_grows(q1, self.queue@, list[j] as int, k as int);
                    }
                }
            }
            i += 1;
        }
        proof {
            assert forall|b: int| b != start && #[trigger] link(
                g,
                c,
                t,
                k as int,
                ci,
                b,
            ) implies reached(self.queue@, b, k as int) by {
                assert(aic_graph::lists(list, b));
                let j = choose|j: int| 0 <= j < list.len() && #[trigger] list[j] == b;
                assert(list[j] == b);
            }
        }
    }

    /// Following the next label of the queue keeps what was followed before.
    proof fn lemma_followed(
        &self,
        g: Dims,
        c: Seq<u32>,
        t: Seq<int>,
        start: int,
        q0: Seq<(u32, u8)>,
        head: int,
        cur: int,
        d: int,
    )
        requires
            0 <= head < q0.len() <= self.queue@.len(),
            forall|i: int| 0 <= i < q0.len() ==> #[trigger] self.queue@[i] == q0[i],
            q0[head].0 == cur,
            q0[head].1 == d,
            forall|a: int|
                a != start && #[trigger] link(g, c, t, 1, start, a) ==> reached(q0, a, 1),
            forall|i: int, k: int, b: int|
                0 <= i < head && k == (#[trigger] q0[i]).1 + 1 && k <= PROBE_MAX_LEN && b != start
                    && #[trigger] link(g, c, t, k, q0[i].0 as int, b) ==> reached(q0, b, k),
            forall|i: int|
                0 <= i < head && (#[trigger] q0[i]).1 % 2 == 1 ==> !ends_fire(
                    g,
                    c,
                    t,
                    start,
                    q0[i].0 as int,
                ),
            d % 2 == 1 ==> !ends_fire(g, c, t, start, cur),
            forall|b: int|
                b != start && #[trigger] link(g, c, t, d + 1, cur, b) ==> reached(
                    self.queue@,
                    b,
                    d + 1,
                ),
        ensures
            self.followed(g, c, t, start, head + 1),
    {
        let q = self.queue@;
        assert forall|a: int| a != start && #[trigger] link(g, c, t, 1, start, a) implies reached(
            q,
            a,
            1,
        ) by {
            lemma_reached_grows(q0, q, a, 1);
        }
        assert forall|i: int, k: int, b: int|
            0 <= i < head + 1 && k == (#[trigger] q[i]).1 + 1 && k <= PROBE_MAX_LEN && b != start
                && #[trigger] link(g, c, t, k, q[i].0 as int, b) implies reached(q, b, k) by {
            assert(q[i] == q0[i]);
            if i < head {
                assert(reached(q0, b, k));
                lemma_reached_grows(q0, q, b, k);
            }
        }
        assert forall|i: int| 0 <= i < head + 1 && (#[trigger] q[i]).1 % 2 == 1 implies !ends_fire(
            g,
            c,
            t,
            start,
            q[i].0 as int,
        ) by {
            assert(q[i] == q0[i]);
        }
    }

    /// Every chain of at most `bound` links leads to a label that was reached.
    proof fn lemma_complete(
        &self,
        g: Dims,
        c: Seq<u32>,
        t: Seq<int>,
        start: int,
        head: int,
        bound: int,
        a: int,
        k: int,
    )
        requires
            self.followed(g, c, t, start, head),
            forall|i: int|
                0 <= i < self.queue@.len() && (#[trigger] self.queue@[i]).1 < bound ==> i < head,
            1 <= k <= bound <= PROBE_MAX_LEN,
            chain(g, c, t, start, a, k),
        ensures
            reached(self.queue@, a, k),
        decreases k,
    {
        let q = self.queue@;
        if k > 1 {
            let m = choose|m: int|
                #[trigger] link(g, c, t, k, m, a) && chain(g, c, t, start, m, k - 1);
            self.lemma_complete(g, c, t, start, head, bound, m, k - 1);
            let i = choose|i: int|
                0 <= i < q.len() && (#[trigger] q[i]).0 == m && q[i].1 <= k - 1 && q[i].1 % 2 == (k
                    - 1) % 2;
            let e = q[i].1 + 1;
            assert(e % 2 == k % 2);
            assert(link(g, c, t, e, q[i].0 as int, a));
            assert(reached(q, a, e));
            let j = choose|j: int|
                0 <= j < q.len() && (#[trigger] q[j]).0 == a && q[j].1 <= e && q[j].1 % 2 == e % 2;
            assert(q[j].0 == a);
        } else {
            assert(link(g, c, t, 1, start, a));
        }
    }

    /// No chain of fewer links than `bound` rules anything out.
    proof fn lemma_not_earlier(
        &self,
        g: Dims,
        c: Seq<u32>,
        t: Seq<int>,
        start: int,
        head: int,
        bound: int,
        j: int,
    )
        requires
            self.followed(g, c, t, start, head),
            0 <= head <= self.queue@.len(),
            forall|i: int, k: int|
                0 <= i < k < self.queue@.len() ==> (#[trigger] self.queue@[i]).1
                    <= (#[trigger] self.queue@[k]).1,
            head < self.queue@.len() ==> self.queue@[head].1 == bound,
            1 <= j < bound <= PROBE_MAX_LEN,
            j % 2 == 1,
        ensures
            !fires_at(g, c, t, start, j),
    {
        let q = self.queue@;
        if fires_at(g, c, t, start, j) {
            let a = choose|a: int|
                #[trigger] chain(g, c, t, start, a, j) && ends_fire(g, c, t, start, a);
            assert forall|i: int| 0 <= i < q.len() && (#[trigger] q[i]).1 < bound implies i < head by {
                if head < q.len() && head < i {
                    assert(q[head].1 <= q[i].1);
                }
            }
            self.lemma_complete(g, c, t, start, head, bound, a, j);
            let i = choose|i: int|
                0 <= i < q.len() && (#[trigger] q[i]).0 == a && q[i].1 <= j && q[i].1 % 2 == j % 2;
            assert(i < head);
        }
    }

    /// The length of the first chain that rules something out.
    pub fn find_chain<const N: usize, const BR: usize, const BC: usize>(
        &mut self,
        grid: &Grid<N, BR, BC>,
    ) -> (r: Option<usize>)
        requires
            grid.wf(),
            old(self).wf(Grid::<N, BR, BC>::shape()),
        ensures
            final(self).wf(Grid::<N, BR, BC>::shape()),
            is_chain_length(
                Grid::<N, BR, BC>::shape(),
                grid.candidates@,
                solutions::digits_of(grid.solved@),
                match r {
                    Some(k) => Some(k as int),
                    None => None,
                },
            ),
            chain_length(
                Grid::<N, BR, BC>::shape(),
                grid.candidates@,
                solutions::digits_of(grid.solved@),
            ) == match r {
                Some(k) => Some(k as int),
                None => None,
            },
            r matches Some(k) ==> 1 <= k < PROBE_MAX_LEN,
    {
        let ghost g = Grid::<N, BR, BC>::shape();
        let ghost c = grid.candidates@;
        let ghost t = solutions::digits_of(grid.solved@);
        self.graph.build(grid);
        let ghost graph = self.graph;
        let mut i: usize = 0;
        while i < self.graph.starts.len()
            invariant
                grid.wf(),
                g == Grid::<N, BR, BC>::shape(),
                c == grid.candidates@,
                t == solutions::digits_of(grid.solved@),
                self.wf(g),
                self.graph == graph,
                graph.shows(g, c, t),
                i <= graph.starts@.len(),
                forall|j: int|
                    0 <= j < i ==> none_from(g, c, t, #[trigger] graph.starts@[j] as int),
            decreases graph.starts@.len() - i,
        {
            let start: u32 = self.graph.starts[i];
            let ghost si = start as int;
            proof {
                assert(graph.starts@[i as int] == si);
                assert(aic_graph::lists(graph.starts@, si));
                assert(is_start(g, c, t, si));
                let v = choose|v: int| v < g.vars() && #[trigger] aic_graph::paired(g, c, t, v, si);
                let b = choose|b: int| #[trigger] aic_graph::strong_in(g, c, t, v, si, b);
                assert(aic_graph::is_member(g, c, t, v, si));
            }
            if let Some(k) = self.search_from(grid, start) {
                proof {
                    assert forall|s: int| #[trigger] is_start(g, c, t, s) && aic_graph::start_before(
                        g,
                        c,
                        t,
                        s,
                        si,
                    ) implies none_from(g, c, t, s) by {
                        assert(aic_graph::lists(graph.starts@, s));
                        let j = choose|j: int|
                            0 <= j < graph.starts@.len() && #[trigger] graph.starts@[j] == s;
                        if j > i {
                            assert(aic_graph::start_before(
                                g,
                                c,
                                t,
                                graph.starts@[i as int] as int,
                                graph.starts@[j] as int,
                            ));
                            lemma_start_asymmetric(g, c, t, s, si);
                        } else if j == i {
                            lemma_start_asymmetric(g, c, t, s, si);
                        }
                    }
                    assert(is_first_chain(g, c, t, si, k as int));
                    let r: Option<int> = Some(k as int);
                    assert(is_first_chain(g, c, t, si, r->0));
                    assert(is_chain_length(g, c, t, r));
                    lemma_chain_length(g, c, t, r);
                }
                return Some(k as usize);
            }
            i += 1;
        }
        proof {
            assert forall|s: int| #[trigger] is_start(g, c, t, s) implies none_from(g, c, t, s) by {
                assert(aic_graph::lists(graph.starts@, s));
                let j = choose|j: int|
                    0 <= j < graph.starts@.len() && #[trigger] graph.starts@[j] == s;
                assert(none_from(g, c, t, graph.starts@[j] as int));
            }
            let none: Option<int> = None;
            assert(is_chain_length(g, c, t, none));
            lemma_chain_length(g, c, t, none);
        }
        None
    }
}

/// No label comes both before and after another.
proof fn lemma_start_asymmetric(g: Dims, c: Seq<u32>, t: Seq<int>, a: int, b: int)
    requires
        aic_graph::start_before(g, c, t, a, b),
    ensures
        !aic_graph::start_before(g, c, t, b, a),
        a != b,
{
    let (p, q) = choose|p: int, q: int|
        #[trigger] aic_graph::is_first_var(g, c, t, a, p) && #[trigger] aic_graph::is_first_var(
            g,
            c,
            t,
            b,
            q,
        ) && (p < q || (p == q && a < b));
    assert forall|x: int| #[trigger] aic_graph::is_first_var(g, c, t, a, x) implies x == p by {
        assert(aic_graph::paired(g, c, t, x, a) && aic_graph::paired(g, c, t, p, a));
    }
    assert forall|x: int| #[trigger] aic_graph::is_first_var(g, c, t, b, x) implies x == q by {
        assert(aic_graph::paired(g, c, t, x, b) && aic_graph::paired(g, c, t, q, b));
    }
}

proof fn lemma_reached_grows(p: Seq<(u32, u8)>, q: Seq<(u32, u8)>, a: int, k: int)
    requires
        p.len() <= q.len(),
        forall|i: int| 0 <= i < p.len() ==> #[trigger] q[i] == p[i],
        reached(p, a, k),
    ensures
        reached(q, a, k),
{
    let i = choose|i: int|
        0 <= i < p.len() && (#[trigger] p[i]).0 == a && p[i].1 <= k && p[i].1 % 2 == k % 2;
    assert(q[i].0 == a);
}

/// A label enters the queue at most twice.
proof fn lemma_queue_bound(g: Dims, q: Seq<(u32, u8)>)
    requires
        forall|i: int| 0 <= i < q.len() ==> g.is_label((#[trigger] q[i]).0 as int),
        forall|i: int, j: int|
            0 <= i < j < q.len() && (#[trigger] q[i]).1 % 2 == (#[trigger] q[j]).1 % 2 ==> q[i].0
                != q[j].0,
    ensures
        q.len() <= 2 * g.labels() || q.len() == 0,
{
    if q.len() > 0 {
        assert(g.is_label(q[0].0 as int));
        let f = Seq::new(q.len(), |i: int| 2 * q[i].0 + q[i].1 % 2);
        assert forall|i: int, j: int| 0 <= i < j < f.len() implies f[i] != f[j] by {
            assert(f[i] == 2 * q[i].0 + q[i].1 % 2);
            assert(f[j] == 2 * q[j].0 + q[j].1 % 2);
        }
        assert(f.no_duplicates());
        f.unique_seq_to_set();
        let all = set_int_range(0, 2 * g.labels());
        lemma_int_range(0, 2 * g.labels());
        assert(f.to_set().subset_of(all)) by {
            assert forall|x: int| f.to_set().contains(x) implies all.contains(x) by {
                assert(f.contains(x));
                let i = choose|i: int| 0 <= i < f.len() && f[i] == x;
                assert(g.is_label(q[i].0 as int));
            }
        }
        lemma_len_subset(f.to_set(), all);
    }
}

/// The length of the first chain that rules something out.
pub fn find_first_aic_chain_length<const N: usize, const BR: usize, const BC: usize>(
    grid: &Grid<N, BR, BC>,
) -> (r: Option<usize>)
    requires
        grid.wf(),
    ensures
        is_chain_length(
            Grid::<N, BR, BC>::shape(),
            grid.candidates@,
            solutions::digits_of(grid.solved@),
            match r {
                Some(k) => Some(k as int),
                None => None,
            },
        ),
        chain_length(
            Grid::<N, BR, BC>::shape(),
            grid.candidates@,
            solutions::digits_of(grid.solved@),
        ) == match r {
            Some(k) => Some(k as int),
            None => None,
        },
        r matches Some(k) ==> 1 <= k < PROBE_MAX_LEN,
{
    let mut scratch = AicProbeScratch::new::<N>();
    assert(scratch.wf(Grid::<N, BR, BC>::shape()));
    scratch.find_chain(grid)
}

/// The length of the first chain that rules something out, found in buffers that serve one
/// grid after another. What they served before makes no difference.
pub fn find_first_aic_chain_length_with<const N: usize, const BR: usize, const BC: usize>(
    grid: &Grid<N, BR, BC>,
    scratch: &mut AicProbeScratch,
) -> (r: Option<usize>)
    requires
        grid.wf(),
        old(scratch).wf(Grid::<N, BR, BC>::shape()),
    ensures
        final(scratch).wf(Grid::<N, BR, BC>::shape()),
        chain_length(
            Grid::<N, BR, BC>::shape(),
            grid.candidates@,
            solutions::digits_of(grid.solved@),
        ) == match r {
            Some(k) => Some(k as int),
            None => None,
        },
        is_chain_length(
            Grid::<N, BR, BC>::shape(),
            grid.candidates@,
            solutions::digits_of(grid.solved@),
            match r {
                Some(k) => Some(k as int),
                None => None,
            },
        ),
        r matches Some(k) ==> 1 <= k < PROBE_MAX_LEN,
{
    scratch.find_chain(grid)
}

/// Whether some chain rules something out.
pub fn has_any_aic_chain<const N: usize, const BR: usize, const BC: usize>(
    grid: &Grid<N, BR, BC>,
    scratch: &mut AicProbeScratch,
) -> (r: bool)
    requires
        grid.wf(),
        old(scratch).wf(Grid::<N, BR, BC>::shape()),
    ensures
        final(scratch).wf(Grid::<N, BR, BC>::shape()),
        r == chain_length(
            Grid::<N, BR, BC>::shape(),
            grid.candidates@,
            solutions::digits_of(grid.solved@),
        ) is Some,
        is_chain_length(
            Grid::<N, BR, BC>::shape(),
            grid.candidates@,
            solutions::digits_of(grid.solved@),
            chain_length(
                Grid::<N, BR, BC>::shape(),
                grid.candidates@,
                solutions::digits_of(grid.solved@),
            ),
        ),
{
    scratch.find_chain(grid).is_some()
}

/// How far two numbers are apart.
pub open spec fn distance(a: int, b: int) -> int {
    if a <= b {
        b - a
    } else {
        a - b
    }
}

/// How far two numbers are apart.
fn apart(a: u64, b: u64) -> (r: u64)
    ensures
        r == distance(a as int, b as int),
{
    if a <= b {
        b - a
    } else {
        a - b
    }
}

/// The search for a chain of a given length.
pub struct AicProbe {
    pub target: u32,
    pub scratch: AicProbeScratch,
}

impl<const N: usize, const BR: usize, const BC: usize> Probe<N, BR, BC> for AicProbe {
    /// Zero without a chain; else one more than its length is off the target.
    open spec fn score(&self, c: Seq<u32>, solved: Seq<int>) -> int {
        match chain_length(Grid::<N, BR, BC>::shape(), c, solved) {
            Some(k) => 1 + distance(k, self.target as int),
            None => 0,
        }
    }

    /// A chain that was found is not lost, and its length gets no further off the target.
    open spec fn accepts(&self, current: int, next: int) -> bool {
        current == 0 || 1 <= next <= current
    }

    open spec fn ready(&self) -> bool {
        self.scratch.wf(Grid::<N, BR, BC>::shape())
    }

    fn score_of(&mut self, g: &Grid<N, BR, BC>) -> (r: u64) {
        match self.scratch.find_chain(g) {
            Some(k) => 1 + apart(k as u64, self.target as u64),
            None => 0,
        }
    }

    fn accept(&self, current: u64, next: u64) -> (r: bool) {
        current == 0 || (1 <= next && next <= current)
    }
}

/// The rating and the candidates of a puzzle are those sought.
pub open spec fn aic_fits<const N: usize, const BR: usize, const BC: usize>(
    spec: AicReverseSpec,
    rate: RateResult,
    puzzle: Grid<N, BR, BC>,
) -> bool {
    &&& reverse_construct::rated_at(rate, spec.target_tier, TechniqueId::Aic)
    &&& chain_length(
        Grid::<N, BR, BC>::shape(),
        puzzle.candidates@,
        solutions::digits_of(puzzle.solved@),
    ) matches Some(k) && distance(k, spec.target_chain_length as int) <= spec.chain_length_slack
}

/// Whether the rating and the candidates of a puzzle are those sought.
pub fn is_aic_puzzle<const N: usize, const BR: usize, const BC: usize>(
    spec: &AicReverseSpec,
    rate: &RateResult,
    puzzle: &Grid<N, BR, BC>,
) -> (r: bool)
    requires
        spec.is_valid(),
        puzzle.wf(),
    ensures
        r == aic_fits(*spec, *rate, *puzzle),
{
    if !reverse_construct::is_rated_at(rate, spec.target_tier, TechniqueId::Aic) {
        return false;
    }
    match find_first_aic_chain_length(puzzle) {
        Some(k) => apart(k as u64, spec.target_chain_length as u64)
            <= spec.chain_length_slack as u64,
        None => false,
    }
}

/// What a result has to be besides well formed.
pub open spec fn aic_result_ok<const N: usize, const BR: usize, const BC: usize>(
    spec: AicReverseSpec,
    r: ReverseResult<N, BR, BC>,
) -> bool {
    spec.is_valid() && aic_fits(spec, r.rate, r.puzzle)
}

/// The puzzle and its solution come out of the `n`-th attempt of a generator that held the
/// words `words` before the first.
pub open spec fn aic_is_drawn<const N: usize, const BR: usize, const BC: usize>(
    spec: AicReverseSpec,
    x: ReverseResult<N, BR, BC>,
    words: Seq<u64>,
    n: nat,
) -> bool {
    forall|p: AicProbe|
        p.target == spec.target_chain_length ==> #[trigger] guided_removal::is_attempt::<N, BR, BC, AicProbe>(
        p,
        x.puzzle,
        x.solution,
        spec.clue_min,
        spec.clue_max,
        guided_removal::trial_cap(spec.greedy_max_trials),
        words,
        n,
    )
}

/// The `n`-th attempt of a generator that held the words `words` before the first led to `x`, with
/// ratings that a rater can give.
pub open spec fn aic_is_tried<const N: usize, const BR: usize, const BC: usize, R: Rater<N, BR, BC>>(
    spec: AicReverseSpec,
    words: Seq<u64>,
    n: nat,
    x: ReverseResult<N, BR, BC>,
    without: Option<RateResult>,
) -> bool {
    &&& x.wf()
    &&& x.attempts_taken == n
    &&& aic_is_drawn(spec, x, words, n)
    &&& reverse_construct::are_answers::<N, BR, BC, R>(
        aic_fits(spec, x.rate, x.puzzle),
        spec.require_load_bearing,
        TechniqueId::Aic,
        without,
        x,
    )
}

/// The `n`-th attempt of a generator that held the words `words` before the first can lead to `r`.
pub open spec fn aic_leads_to<const N: usize, const BR: usize, const BC: usize, R: Rater<N, BR, BC>>(
    spec: AicReverseSpec,
    words: Seq<u64>,
    n: nat,
    r: Option<ReverseResult<N, BR, BC>>,
) -> bool {
    exists|x: ReverseResult<N, BR, BC>, without: Option<RateResult>| #[trigger]
        aic_is_tried::<N, BR, BC, R>(spec, words, n, x, without) && r == reverse_construct::outcome(
            aic_fits(spec, x.rate, x.puzzle),
            spec.require_load_bearing,
            spec.target_tier,
            without,
            x,
        )
}

/// The limit on the attempts makes no difference to what one of them leads to.
proof fn lemma_limit<const N: usize, const BR: usize, const BC: usize, R: Rater<N, BR, BC>>(
    spec: AicReverseSpec,
    max_attempts: u32,
    words: Seq<u64>,
    n: nat,
    r: Option<ReverseResult<N, BR, BC>>,
)
    requires
        aic_leads_to::<N, BR, BC, R>(AicReverseSpec { max_attempts, ..spec }, words, n, r),
    ensures
        aic_leads_to::<N, BR, BC, R>(spec, words, n, r),
{
    let other = AicReverseSpec { max_attempts, ..spec };
    let (x, without) = choose|x: ReverseResult<N, BR, BC>, without: Option<RateResult>| #[trigger]
        aic_is_tried::<N, BR, BC, R>(other, words, n, x, without) && r == reverse_construct::outcome(
            aic_fits(other, x.rate, x.puzzle),
            other.require_load_bearing,
            other.target_tier,
            without,
            x,
        );
    assert(aic_is_tried::<N, BR, BC, R>(spec, words, n, x, without)) by {
        assert(aic_is_drawn(other, x, words, n));
        assert forall|p: AicProbe|
            p.target == spec.target_chain_length implies #[trigger] guided_removal::is_attempt::<
            N,
            BR,
            BC,
            AicProbe,
        >(
            p,
            x.puzzle,
            x.solution,
            spec.clue_min,
            spec.clue_max,
            guided_removal::trial_cap(spec.greedy_max_trials),
            words,
            n,
        ) by {
            assert(p.target == other.target_chain_length);
            assert(guided_removal::is_attempt::<N, BR, BC, AicProbe>(
                p,
                x.puzzle,
                x.solution,
                other.clue_min,
                other.clue_max,
                guided_removal::trial_cap(other.greedy_max_trials),
                words,
                n,
            ));
        }
    }
}

/// Searches for a puzzle that needs a chain whose length is about the target. Each attempt
/// carves a puzzle out of a random solution, takes further clues away towards the length,
/// and rates it.
pub fn aic_reverse_construct<
    const N: usize,
    const BR: usize,
    const BC: usize,
    R: Rater<N, BR, BC>,
>(rng: &mut Xoshiro256PlusPlus, rater: &mut R, spec: &AicReverseSpec) -> (r: Option<
    ReverseResult<N, BR, BC>,
>)
    requires
        Grid::<N, BR, BC>::shape().ok(),
    ensures
        !spec.is_valid() || spec.max_attempts == 0 ==> r is None,
        r matches Some(x) ==> x.wf() && aic_result_ok(*spec, x) && 1 <= x.attempts_taken
            <= spec.max_attempts,
        r matches Some(x) ==> aic_is_drawn(
            *spec,
            x,
            rng::state(*old(rng)),
            x.attempts_taken as nat,
        ),
        spec.is_valid() ==> rng::state(*final(rng)) == guided_removal::words_after(
            Grid::<N, BR, BC>::shape(),
            spec.clue_max,
            rng::state(*old(rng)),
            match r {
                Some(x) => x.attempts_taken as nat,
                None => spec.max_attempts as nat,
            },
        ),
        !spec.is_valid() ==> rng::state(*final(rng)) == rng::state(*old(rng)),
        r matches Some(x) ==> aic_leads_to::<N, BR, BC, R>(
            *spec,
            rng::state(*old(rng)),
            x.attempts_taken as nat,
            r,
        ),
        spec.is_valid() ==> forall|i: nat|
            1 <= i <= (match r {
                Some(x) => x.attempts_taken - 1,
                None => spec.max_attempts as int,
            }) ==> #[trigger] aic_leads_to::<N, BR, BC, R>(*spec, rng::state(*old(rng)), i, None),
{
    if spec.validate().is_err() {
        return None;
    }
    let scratch = AicProbeScratch::new::<N>();
    assert(scratch.wf(Grid::<N, BR, BC>::shape()));
    let mut probe = AicProbe { target: spec.target_chain_length, scratch };
    let ghost sh = Grid::<N, BR, BC>::shape();
    let ghost first = probe;
    let mut attempt: u32 = 0;
    while attempt < spec.max_attempts
        invariant
            sh == Grid::<N, BR, BC>::shape(),
            first.target == spec.target_chain_length,
            forall|c: Seq<u32>, t: Seq<int>| #[trigger]
                <AicProbe as Probe<N, BR, BC>>::score(&probe, c, t) == <AicProbe as Probe<
                    N,
                    BR,
                    BC,
                >>::score(&first, c, t),
            forall|a: int, b: int| #[trigger]
                <AicProbe as Probe<N, BR, BC>>::accepts(&probe, a, b) == <AicProbe as Probe<
                    N,
                    BR,
                    BC,
                >>::accepts(&first, a, b),
            rng::state(*rng) == guided_removal::words_after(
                sh,
                spec.clue_max,
                rng::state(*old(rng)),
                attempt as nat,
            ),
            Grid::<N, BR, BC>::shape().ok(),
            spec.is_valid(),
            <AicProbe as Probe<N, BR, BC>>::ready(&probe),
            attempt <= spec.max_attempts,
            forall|i: nat|
                1 <= i <= attempt ==> #[trigger] aic_leads_to::<N, BR, BC, R>(
                    *spec,
                    rng::state(*old(rng)),
                    i,
                    None,
                ),
        decreases spec.max_attempts - attempt,
    {
        attempt += 1;
        let ghost now = probe;
        let ghost words = rng::state(*rng);
        let (puzzle, solution, clue_count) = guided_removal::carve_attempt::<N, BR, BC, AicProbe>(
            rng,
            &mut probe,
            spec.clue_min,
            spec.clue_max,
            spec.greedy_max_trials,
        );
        proof {
            let drawn = guided_removal::drawn_attempt(sh, spec.clue_max, words);
            assert forall|p: AicProbe| p.target == spec.target_chain_length implies #[trigger] guided_removal::is_attempt::<
                N,
                BR,
                BC,
                AicProbe,
            >(
                p,
                puzzle,
                solution,
                spec.clue_min,
                spec.clue_max,
                guided_removal::trial_cap(spec.greedy_max_trials),
                rng::state(*old(rng)),
                attempt as nat,
            ) by {
                guided_removal::lemma_same_probe::<N, BR, BC, AicProbe>(
                now,
                p,
                puzzle,
                solution,
                spec.clue_min,
                guided_removal::trial_cap(spec.greedy_max_trials),
                drawn.1,
                drawn.2,
            );
            }
        }
        let rate = rater.rate(&puzzle);
        let fits: bool = is_aic_puzzle(spec, &rate, &puzzle);
        let without: Option<RateResult> = if fits && spec.require_load_bearing {
            let ids: Vec<TechniqueId> = vec![TechniqueId::Aic];
            assert(ids@ =~= seq![TechniqueId::Aic]);
            Some(rater.rate_excluding(&puzzle, &ids))
        } else {
            None
        };
        let x = ReverseResult { puzzle, solution, rate, clue_count, attempts_taken: attempt };
        let ghost tried = x;
        let ghost said = without;
        let found = judged(
            fits,
            spec.require_load_bearing,
            spec.target_tier,
            without,
            x,
        );
        assert(aic_is_tried::<N, BR, BC, R>(
            *spec,
            rng::state(*old(rng)),
            attempt as nat,
            tried,
            said,
        ));
        assert(aic_leads_to::<N, BR, BC, R>(
            *spec,
            rng::state(*old(rng)),
            attempt as nat,
            found,
        ));
        if found.is_some() {
            return found;
        }
    }
    None
}

/// The search as a job for `batch`.
pub struct AicJob<R> {
    pub spec: AicReverseSpec,
    pub rater: R,
}

impl<const N: usize, const BR: usize, const BC: usize, R: Rater<N, BR, BC>> Construct<N, BR, BC> for AicJob<
    R,
> {
    open spec fn accepts(&self, x: ReverseResult<N, BR, BC>) -> bool {
        aic_result_ok(self.spec, x)
    }

    open spec fn is_possible(&self) -> bool {
        self.spec.is_valid()
    }

    open spec fn most_clues(&self) -> u32 {
        self.spec.clue_max
    }

    open spec fn draws(&self, x: ReverseResult<N, BR, BC>, words: Seq<u64>, n: nat) -> bool {
        aic_is_drawn(self.spec, x, words, n)
    }

    open spec fn leads_to(
        &self,
        words: Seq<u64>,
        n: nat,
        r: Option<ReverseResult<N, BR, BC>>,
    ) -> bool {
        aic_leads_to::<N, BR, BC, R>(self.spec, words, n, r)
    }

    fn construct(&mut self, rng: &mut Xoshiro256PlusPlus, max_attempts: u32) -> (r: Option<
        ReverseResult<N, BR, BC>,
    >) {
        let mut spec = self.spec;
        spec.max_attempts = max_attempts;
        let r = aic_reverse_construct(rng, &mut self.rater, &spec);
        proof {
            if r is Some {
                let x = r->0;
                let n = x.attempts_taken as nat;
                assert(aic_is_drawn(spec, x, rng::state(*old(rng)), n));
                assert forall|p: AicProbe|
                    p.target == self.spec.target_chain_length implies #[trigger] guided_removal::is_attempt::<
                    N,
                    BR,
                    BC,
                    AicProbe,
                >(
                    p,
                    x.puzzle,
                    x.solution,
                    self.spec.clue_min,
                    self.spec.clue_max,
                    guided_removal::trial_cap(self.spec.greedy_max_trials),
                    rng::state(*old(rng)),
                    n,
                ) by {
                    assert(guided_removal::is_attempt::<N, BR, BC, AicProbe>(
                        p,
                        x.puzzle,
                        x.solution,
                        spec.clue_min,
                        spec.clue_max,
                        guided_removal::trial_cap(spec.greedy_max_trials),
                        rng::state(*old(rng)),
                        n,
                    ));
                }
            }
        }
        proof {
            let words = rng::state(*old(rng));
            assert(spec == (AicReverseSpec { max_attempts, ..self.spec }));
            assert forall|i: nat, x: Option<ReverseResult<N, BR, BC>>|
                aic_leads_to::<N, BR, BC, R>(spec, words, i, x) implies #[trigger] aic_leads_to::<
                N,
                BR,
                BC,
                R,
            >(self.spec, words, i, x) by {
                lemma_limit::<N, BR, BC, R>(self.spec, max_attempts, words, i, x);
            }
            if self.spec.is_valid() {
                assert forall|i: nat|
                    1 <= i <= (match r {
                        Some(x) => x.attempts_taken - 1,
                        None => max_attempts as int,
                    }) implies #[trigger] aic_leads_to::<N, BR, BC, R>(
                    self.spec,
                    words,
                    i,
                    None,
                ) by {
                    assert(aic_leads_to::<N, BR, BC, R>(spec, words, i, None));
                }
            }
        }
        r
    }
}

/// The result comes out of an attempt of one of the workers, whose attempts do not exceed its
/// share.
pub open spec fn aic_comes_from_worker<const N: usize, const BR: usize, const BC: usize>(
    spec: AicReverseSpec,
    x: ReverseResult<N, BR, BC>,
    seed: u64,
    threads: usize,
) -> bool {
    exists|w: int, m: nat|
        0 <= w < reverse_construct::workers_for(threads) && m + x.attempts_taken
            <= reverse_construct::share_of_attempts(
            spec.max_attempts,
            reverse_construct::workers_for(threads),
        ) && #[trigger] aic_is_drawn(
            spec,
            x,
            reverse_construct::worker_words(
                Grid::<N, BR, BC>::shape(),
                spec.clue_max,
                seed,
                w,
                m,
            ),
            x.attempts_taken as nat,
        )
}

/// Searches for up to `num_puzzles` puzzles. The attempts are shared out among `threads`
/// workers, each with a generator of its own, which take their turns one after another.
pub fn batch_aic_reverse_construct<
    const N: usize,
    const BR: usize,
    const BC: usize,
    R: Rater<N, BR, BC>,
>(
    rng_seed: u64,
    rater: R,
    spec: &AicReverseSpec,
    num_puzzles: u32,
    threads: usize,
) -> (r: Vec<ReverseResult<N, BR, BC>>)
    requires
        Grid::<N, BR, BC>::shape().ok(),
    ensures
        r@.len() <= num_puzzles,
        forall|i: int|
            0 <= i < r@.len() ==> (#[trigger] r@[i]).wf() && aic_result_ok(*spec, r@[i]),
        forall|i: int|
            0 <= i < r@.len() ==> aic_comes_from_worker(
                *spec,
                #[trigger] r@[i],
                rng_seed,
                threads,
            ),
        !spec.is_valid() ==> r@.len() == 0,
        reverse_construct::may_find::<N, BR, BC, AicJob<R>>(
            (AicJob { spec: *spec, rater }),
            rng_seed,
            spec.max_attempts,
            num_puzzles,
            threads,
            r@,
        ),
{
    let max_attempts: u32 = spec.max_attempts;
    let mut job = AicJob { spec: *spec, rater };
    batch(&mut job, rng_seed, max_attempts, num_puzzles, threads)
}

} // verus!
