//! Taking clues away one by one while a pattern is sought or kept.

use super::carving;
use super::geometry::Dims;
use super::generator;
use super::grid;
use super::grid::Grid;
use super::masks;
use super::peer_tables;
use super::rng;
use super::solutions;
use rand_xoshiro::Xoshiro256PlusPlus;
use vstd::prelude::*;

verus! {

broadcast use masks::group_masks;

/// `m` holds the digits that the clues `v` leave in cell `i`.
pub open spec fn is_clue_mask(g: Dims, v: Seq<int>, i: int, m: u32) -> bool {
    forall|d: int| #[trigger] masks::holds(m, d) == grid::clue_leaves(g, v, i, d)
}

/// The mask of the digits that the clues `v` leave in cell `i`.
pub open spec fn clue_mask(g: Dims, v: Seq<int>, i: int) -> u32 {
    choose|m: u32| is_clue_mask(g, v, i, m)
}

/// The candidates next to the clues `v`.
pub open spec fn clue_candidates(g: Dims, v: Seq<int>) -> Seq<u32> {
    Seq::new(g.cells() as nat, |i: int| clue_mask(g, v, i))
}

/// A grid that shows clues has their candidates.
pub proof fn lemma_shows_candidates<const N: usize, const BR: usize, const BC: usize>(
    x: Grid<N, BR, BC>,
    v: Seq<int>,
)
    requires
        x.shows(v),
    ensures
        x.candidates@ == clue_candidates(Grid::<N, BR, BC>::shape(), v),
{
    let g = Grid::<N, BR, BC>::shape();
    let c = clue_candidates(g, v);
    assert forall|i: int| 0 <= i < c.len() implies x.candidates@[i] == c[i] by {
        let m = x.candidates@[i];
        assert(is_clue_mask(g, v, i, m));
        assert(is_clue_mask(g, v, i, c[i]));
        assert forall|d: int| 1 <= d <= 32 implies masks::holds(m, d) == masks::holds(c[i], d) by {}
        masks::lemma_mask_ext(m, c[i]);
    }
    assert(x.candidates@ =~= c);
}

/// A pattern that a search looks for.
pub trait Probe<const N: usize, const BR: usize, const BC: usize> {
    /// How well the pattern is met by candidates and placed digits.
    spec fn score(&self, c: Seq<u32>, solved: Seq<int>) -> int;

    /// Whether a step from one score to another is taken.
    spec fn accepts(&self, current: int, next: int) -> bool;

    /// What it keeps from one grid to the next is in order.
    spec fn ready(&self) -> bool;

    /// The score of a grid. What is kept for the next grid changes no score.
    fn score_of(&mut self, g: &Grid<N, BR, BC>) -> (r: u64)
        requires
            old(self).ready(),
            g.sound(),
        ensures
            r == old(self).score(g.candidates@, solutions::digits_of(g.solved@)),
            final(self).ready(),
            forall|c: Seq<u32>, t: Seq<int>| #[trigger]
                final(self).score(c, t) == old(self).score(c, t),
            forall|a: int, b: int| #[trigger] final(self).accepts(a, b) == old(self).accepts(a, b),
    ;

    fn accept(&self, current: u64, next: u64) -> (r: bool)
        ensures
            r == self.accepts(current as int, next as int),
    ;
}

/// Where a search stands.
pub struct Run {
    pub keep: Seq<bool>,
    pub score: int,
    pub trials: nat,
    pub stopped: bool,
}

/// The score of the clues that are kept.
pub open spec fn clue_score<const N: usize, const BR: usize, const BC: usize, P: Probe<N, BR, BC>>(
    p: P,
    solved: Seq<u8>,
    keep: Seq<bool>,
) -> int {
    p.score(
        clue_candidates(Grid::<N, BR, BC>::shape(), carving::kept(solved, keep)),
        carving::kept(solved, keep),
    )
}

/// One step: the clue of cell `c` is given up if the rest still determines the solution
/// and the probe takes the step.
pub open spec fn step<const N: usize, const BR: usize, const BC: usize, P: Probe<N, BR, BC>>(
    p: P,
    solved: Seq<u8>,
    clue_min: u32,
    cap: u32,
    r: Run,
    c: int,
) -> Run {
    let g = Grid::<N, BR, BC>::shape();
    if r.stopped {
        r
    } else if r.trials >= cap {
        Run { stopped: true, ..r }
    } else if !r.keep[c] {
        r
    } else if carving::kept_count(r.keep) <= clue_min {
        Run { stopped: true, ..r }
    } else {
        let keep = r.keep.update(c, false);
        let next = clue_score::<N, BR, BC, P>(p, solved, keep);
        if carving::only_solution(g, carving::kept(solved, keep), solutions::digits_of(solved))
            && p.accepts(r.score, next) {
            Run { keep, score: next, trials: r.trials + 1, stopped: false }
        } else {
            Run { trials: r.trials + 1, ..r }
        }
    }
}

/// The state after the first `k` cells of `order` were visited.
pub open spec fn run<const N: usize, const BR: usize, const BC: usize, P: Probe<N, BR, BC>>(
    p: P,
    solved: Seq<u8>,
    keep: Seq<bool>,
    order: Seq<u16>,
    clue_min: u32,
    cap: u32,
    k: int,
) -> Run
    decreases k,
{
    if k <= 0 {
        Run {
            keep,
            score: clue_score::<N, BR, BC, P>(p, solved, keep),
            trials: 0,
            stopped: false,
        }
    } else {
        step::<N, BR, BC, P>(
            p,
            solved,
            clue_min,
            cap,
            run::<N, BR, BC, P>(p, solved, keep, order, clue_min, cap, k - 1),
            order[k - 1] as int,
        )
    }
}

/// A stopped search stays where it is.
proof fn lemma_stopped<const N: usize, const BR: usize, const BC: usize, P: Probe<N, BR, BC>>(
    p: P,
    solved: Seq<u8>,
    keep: Seq<bool>,
    order: Seq<u16>,
    clue_min: u32,
    cap: u32,
    k: int,
    m: int,
)
    requires
        0 <= k <= m,
        run::<N, BR, BC, P>(p, solved, keep, order, clue_min, cap, k).stopped,
    ensures
        run::<N, BR, BC, P>(p, solved, keep, order, clue_min, cap, m) == run::<N, BR, BC, P>(
            p,
            solved,
            keep,
            order,
            clue_min,
            cap,
            k,
        ),
    decreases m - k,
{
    if k < m {
        lemma_stopped::<N, BR, BC, P>(p, solved, keep, order, clue_min, cap, k, m - 1);
    }
}

/// Visits the cells of `order` and gives up clues as `step` says. `cap` limits the number
/// of trials.
pub fn guided_removal<const N: usize, const BR: usize, const BC: usize, P: Probe<N, BR, BC>>(
    p: &mut P,
    solution: &Grid<N, BR, BC>,
    keep: &mut Vec<bool>,
    order: &Vec<u16>,
    clue_min: u32,
    cap: u32,
)
    requires
        old(p).ready(),
        generator::is_full(*solution),
        old(keep)@.len() == N * N,
        forall|i: int| 0 <= i < order@.len() ==> (#[trigger] order@[i]) < N * N,
    ensures
        final(p).ready(),
        forall|c: Seq<u32>, t: Seq<int>| #[trigger] final(p).score(c, t) == old(p).score(c, t),
        forall|a: int, b: int| #[trigger] final(p).accepts(a, b) == old(p).accepts(a, b),
        final(keep)@ == run::<N, BR, BC, P>(
            *old(p),
            solution.solved@,
            old(keep)@,
            order@,
            clue_min,
            cap,
            order@.len() as int,
        ).keep,
        final(keep)@.len() == old(keep)@.len(),
{
    let ghost p0 = *p;
    let ghost sh = Grid::<N, BR, BC>::shape();
    let ghost solved = solution.solved@;
    let ghost s = solutions::digits_of(solved);
    let ghost keep0 = keep@;
    proof {
        peer_tables::lemma_cells_bound(sh);
        assert(carving::part_of(carving::kept(solved, keep@), s));
    }
    let v0: Vec<u8> = carving::kept_clues(&solution.solved, keep);
    let (initial, _unique) = carving::trial_grid::<N, BR, BC>(
        solution.table_arc(),
        &v0,
        Ghost(s),
    );
    proof {
        lemma_shows_candidates(initial, carving::kept(solved, keep@));
    }
    let mut score: u64 = p.score_of(&initial);
    let mut trials: u32 = 0;
    let mut k: usize = 0;
    let ghost all = order@.len() as int;
    while k < order.len()
        invariant
            p0 == *old(p),
            p.ready(),
            forall|c: Seq<u32>, t: Seq<int>| #[trigger] p.score(c, t) == p0.score(c, t),
            forall|a: int, b: int| #[trigger] p.accepts(a, b) == p0.accepts(a, b),
            sh == Grid::<N, BR, BC>::shape(),
            sh.ok(),
            sh.cells() <= 961,
            generator::is_full(*solution),
            solved == solution.solved@,
            s == solutions::digits_of(solved),
            keep0 == old(keep)@,
            keep0.len() == N * N,
            keep@.len() == N * N,
            forall|i: int| 0 <= i < order@.len() ==> (#[trigger] order@[i]) < N * N,
            k <= order@.len(),
            all == order@.len(),
            run::<N, BR, BC, P>(p0, solved, keep0, order@, clue_min, cap, k as int) == (Run {
                keep: keep@,
                score: score as int,
                trials: trials as nat,
                stopped: false,
            }),
        decreases order@.len() - k,
    {
        let c: usize = order[k] as usize;
        let ghost before = run::<N, BR, BC, P>(
            p0,
            solved,
            keep0,
            order@,
            clue_min,
            cap,
            k as int,
        );
        let ghost after = run::<N, BR, BC, P>(
            p0,
            solved,
            keep0,
            order@,
            clue_min,
            cap,
            k as int + 1,
        );
        assert(after == step::<N, BR, BC, P>(p0, solved, clue_min, cap, before, c as int));
        if trials >= cap {
            proof {
                lemma_stopped::<N, BR, BC, P>(
                    p0,
                    solved,
                    keep0,
                    order@,
                    clue_min,
                    cap,
                    k as int + 1,
                    all,
                );
            }
            return;
        }
        if keep[c] {
            let count: u32 = carving::count_kept(keep);
            if count <= clue_min {
                proof {
                    lemma_stopped::<N, BR, BC, P>(
                        p0,
                        solved,
                        keep0,
                        order@,
                        clue_min,
                        cap,
                        k as int + 1,
                        all,
                    );
                }
                return;
            }
            let ghost was = keep@;
            keep.set(c, false);
            trials += 1;
            let ghost v1 = carving::kept(solved, keep@);
            assert(carving::part_of(v1, s));
            let v: Vec<u8> = carving::kept_clues(&solution.solved, keep);
            let (trial, unique) = carving::trial_grid::<N, BR, BC>(
                solution.table_arc(),
                &v,
                Ghost(s),
            );
            proof {
                lemma_shows_candidates(trial, v1);
            }
            if !unique {
                keep.set(c, true);
                assert(keep@ =~= was);
            } else {
                let next: u64 = p.score_of(&trial);
                if p.accept(score, next) {
                    score = next;
                } else {
                    keep.set(c, true);
                    assert(keep@ =~= was);
                }
            }
        }
        k += 1;
    }
}

/// What every search keeps: clues are only given up, the solution stays determined, and
/// no more are given up than the lower limit allows.
pub proof fn law_run_keeps_solution<
    const N: usize,
    const BR: usize,
    const BC: usize,
    P: Probe<N, BR, BC>,
>(
    p: P,
    solved: Seq<u8>,
    keep: Seq<bool>,
    order: Seq<u16>,
    clue_min: u32,
    cap: u32,
    k: int,
)
    requires
        0 <= k <= order.len(),
        solved.len() == keep.len(),
        forall|i: int| 0 <= i < order.len() ==> (#[trigger] order[i]) < keep.len(),
        carving::only_solution(
            Grid::<N, BR, BC>::shape(),
            carving::kept(solved, keep),
            solutions::digits_of(solved),
        ),
    ensures
        ({
            let r = run::<N, BR, BC, P>(p, solved, keep, order, clue_min, cap, k);
            &&& r.keep.len() == keep.len()
            &&& forall|i: int| 0 <= i < keep.len() && #[trigger] r.keep[i] ==> keep[i]
            &&& carving::only_solution(
                Grid::<N, BR, BC>::shape(),
                carving::kept(solved, r.keep),
                solutions::digits_of(solved),
            )
            &&& carving::kept_count(r.keep) >= clue_min || r.keep == keep
            &&& carving::kept_count(r.keep) + r.trials >= carving::kept_count(keep)
            &&& r.trials <= cap
        }),
    decreases k,
{
    if k > 0 {
        law_run_keeps_solution::<N, BR, BC, P>(p, solved, keep, order, clue_min, cap, k - 1);
        let r = run::<N, BR, BC, P>(p, solved, keep, order, clue_min, cap, k - 1);
        let c = order[k - 1] as int;
        if 0 <= c < keep.len() && r.keep[c] {
            carving::lemma_kept_count_update(r.keep, c);
        }
        let r2 = run::<N, BR, BC, P>(p, solved, keep, order, clue_min, cap, k);
        assert forall|i: int| 0 <= i < keep.len() && #[trigger] r2.keep[i] implies keep[i] by {
            assert(r.keep[i]);
        }
    }
}

/// The limit on the trials: none where it is given as zero.
pub open spec fn trial_cap(greedy_max_trials: u32) -> u32 {
    if greedy_max_trials == 0 {
        u32::MAX
    } else {
        greedy_max_trials
    }
}

/// The cells below `n` that are kept, in ascending order.
pub open spec fn kept_below(keep: Seq<bool>, n: int) -> Seq<u16>
    decreases n,
{
    if n <= 0 {
        Seq::empty()
    } else if keep[n - 1] {
        kept_below(keep, n - 1).push((n - 1) as u16)
    } else {
        kept_below(keep, n - 1)
    }
}

/// The cells that are kept, in ascending order.
fn kept_cells(keep: &Vec<bool>) -> (v: Vec<u16>)
    requires
        keep@.len() <= 961,
    ensures
        v@ == kept_below(keep@, keep@.len() as int),
        forall|i: int|
            0 <= i < v@.len() ==> (#[trigger] v@[i]) < keep@.len() && keep@[v@[i] as int],
        v@.no_duplicates(),
        forall|i: int|
            0 <= i < keep@.len() && #[trigger] keep@[i] ==> v@.contains(i as u16),
{
    let mut v: Vec<u16> = Vec::new();
    let mut i: usize = 0;
    while i < keep.len()
        invariant
            keep@.len() <= 961,
            i <= keep@.len(),
            v@ == kept_below(keep@, i as int),
            forall|j: int| 0 <= j < v@.len() ==> (#[trigger] v@[j]) < i && keep@[v@[j] as int],
            v@.no_duplicates(),
            forall|j: int| 0 <= j < i && #[trigger] keep@[j] ==> v@.contains(j as u16),
        decreases keep@.len() - i,
    {
        let ghost before = v@;
        if keep[i] {
            v.push(i as u16);
        }
        proof {
            assert forall|j: int| 0 <= j < i + 1 && #[trigger] keep@[j] implies v@.contains(
                j as u16,
            ) by {
                if j == i {
                    assert(v@[v@.len() - 1] == i);
                } else {
                    assert(before.contains(j as u16));
                    let k = choose|k: int| 0 <= k < before.len() && before[k] == j as u16;
                    assert(v@[k] == j as u16);
                }
            }
        }
        i += 1;
    }
    v
}

/// `order` lists the cells that are kept, each once.
pub open spec fn orders_kept(order: Seq<u16>, keep: Seq<bool>) -> bool {
    &&& order.no_duplicates()
    &&& forall|i: int|
        0 <= i < order.len() ==> (#[trigger] order[i]) < keep.len() && keep[order[i] as int]
    &&& forall|i: int| 0 <= i < keep.len() && #[trigger] keep[i] ==> order.contains(i as u16)
}

/// `puzzle` comes out of a search: from a puzzle that was carved out of `solution`, with the
/// cells `keep`, clues were given up in the order `order`.
pub open spec fn comes_from<const N: usize, const BR: usize, const BC: usize, P: Probe<N, BR, BC>>(
    p: P,
    puzzle: Grid<N, BR, BC>,
    solution: Grid<N, BR, BC>,
    clue_min: u32,
    cap: u32,
    keep: Seq<bool>,
    order: Seq<u16>,
) -> bool {
    &&& keep.len() == N * N
    &&& carving::only_solution(
        Grid::<N, BR, BC>::shape(),
        carving::kept(solution.solved@, keep),
        solutions::digits_of(solution.solved@),
    )
    &&& orders_kept(order, keep)
    &&& puzzle.shows(
        carving::kept(
            solution.solved@,
            run::<N, BR, BC, P>(
                p,
                solution.solved@,
                keep,
                order,
                clue_min,
                cap,
                order.len() as int,
            ).keep,
        ),
    )
}

/// The solution and the cells of the clues that a generator with the words `words` leads to,
/// and its words afterwards.
pub open spec fn drawn_clues(g: Dims, clue_max: u32, words: Seq<u64>) -> (
    Seq<u8>,
    Seq<bool>,
    Seq<u64>,
) {
    let cfg = generator::GenConfig { target_clues: clue_max, max_attempts: 0 };
    let drawn = generator::drawn_puzzle(g, cfg, words);
    (drawn.1, Seq::new(g.cells() as nat, |i: int| drawn.0[i] != 0), drawn.2)
}

/// The same, and the order in which the clues are tried.
pub open spec fn drawn_attempt(g: Dims, clue_max: u32, words: Seq<u64>) -> (
    Seq<u8>,
    Seq<bool>,
    Seq<u16>,
    Seq<u64>,
) {
    let drawn = drawn_clues(g, clue_max, words);
    let cells = kept_below(drawn.1, g.cells());
    let shuffled = rng::shuffle_of(cells.len(), drawn.2);
    (drawn.0, drawn.1, rng::picked(cells, shuffled.0), shuffled.1)
}

/// The words that a generator holds after `n` attempts.
pub open spec fn words_after(g: Dims, clue_max: u32, words: Seq<u64>, n: nat) -> Seq<u64>
    decreases n,
{
    if n == 0 {
        words
    } else {
        drawn_attempt(g, clue_max, words_after(g, clue_max, words, (n - 1) as nat)).3
    }
}

/// Attempts that follow others leave the words that all of them leave together.
pub proof fn lemma_words_add(g: Dims, clue_max: u32, words: Seq<u64>, m: nat, n: nat)
    ensures
        words_after(g, clue_max, words_after(g, clue_max, words, m), n) == words_after(
            g,
            clue_max,
            words,
            m + n,
        ),
    decreases n,
{
    if n > 0 {
        lemma_words_add(g, clue_max, words, m, (n - 1) as nat);
        assert((m + n - 1) as nat == m + (n - 1) as nat);
    }
}

/// The puzzle and its solution come out of the `n`-th attempt of a generator that held the
/// words `words` before the first.
pub open spec fn is_attempt<const N: usize, const BR: usize, const BC: usize, P: Probe<N, BR, BC>>(
    p: P,
    puzzle: Grid<N, BR, BC>,
    solution: Grid<N, BR, BC>,
    clue_min: u32,
    clue_max: u32,
    cap: u32,
    words: Seq<u64>,
    n: nat,
) -> bool {
    let g = Grid::<N, BR, BC>::shape();
    let drawn = drawn_attempt(g, clue_max, words_after(g, clue_max, words, (n - 1) as nat));
    &&& generator::is_full(solution)
    &&& solution.solved@ == drawn.0
    &&& comes_from::<N, BR, BC, P>(p, puzzle, solution, clue_min, cap, drawn.1, drawn.2)
}

/// Generators that hold the same words, as two of the same seed do, try the same puzzles one
/// after another.
pub proof fn law_same_words_same_attempts<
    const N: usize,
    const BR: usize,
    const BC: usize,
    P: Probe<N, BR, BC>,
>(
    p: P,
    a: (Grid<N, BR, BC>, Grid<N, BR, BC>),
    b: (Grid<N, BR, BC>, Grid<N, BR, BC>),
    clue_min: u32,
    clue_max: u32,
    cap: u32,
    words: Seq<u64>,
    n: nat,
)
    requires
        is_attempt::<N, BR, BC, P>(p, a.0, a.1, clue_min, clue_max, cap, words, n),
        is_attempt::<N, BR, BC, P>(p, b.0, b.1, clue_min, clue_max, cap, words, n),
    ensures
        a.0.same(&b.0),
        a.1.same(&b.1),
{
    let v = solutions::digits_of(a.0.solved@);
    assert(v == solutions::digits_of(b.0.solved@));
    assert(a.0.solved@ =~= b.0.solved@) by {
        assert forall|i: int| 0 <= i < a.0.solved@.len() implies a.0.solved@[i]
            == b.0.solved@[i] by {
            assert(v[i] == a.0.solved@[i]);
            assert(solutions::digits_of(b.0.solved@)[i] == b.0.solved@[i]);
        }
    }
    lemma_shows_candidates(a.0, v);
    lemma_shows_candidates(b.0, v);
    assert(a.1.candidates@ =~= b.1.candidates@) by {
        assert forall|i: int| 0 <= i < a.1.candidates@.len() implies a.1.candidates@[i]
            == b.1.candidates@[i] by {
            assert(a.1.solved@[i] != 0 && b.1.solved@[i] != 0);
        }
    }
}

/// Two probes that score alike lead to the same clues.
proof fn lemma_same_run<const N: usize, const BR: usize, const BC: usize, P: Probe<N, BR, BC>>(
    p: P,
    q: P,
    solved: Seq<u8>,
    keep: Seq<bool>,
    order: Seq<u16>,
    clue_min: u32,
    cap: u32,
    k: int,
)
    requires
        forall|c: Seq<u32>, t: Seq<int>| #[trigger] p.score(c, t) == q.score(c, t),
        forall|a: int, b: int| #[trigger] p.accepts(a, b) == q.accepts(a, b),
    ensures
        run::<N, BR, BC, P>(p, solved, keep, order, clue_min, cap, k) == run::<N, BR, BC, P>(
            q,
            solved,
            keep,
            order,
            clue_min,
            cap,
            k,
        ),
    decreases k,
{
    if k > 0 {
        lemma_same_run::<N, BR, BC, P>(p, q, solved, keep, order, clue_min, cap, k - 1);
    }
}

/// Two probes that score alike lead to the same puzzle.
pub proof fn lemma_same_probe<const N: usize, const BR: usize, const BC: usize, P: Probe<N, BR, BC>>(
    p: P,
    q: P,
    puzzle: Grid<N, BR, BC>,
    solution: Grid<N, BR, BC>,
    clue_min: u32,
    cap: u32,
    keep: Seq<bool>,
    order: Seq<u16>,
)
    requires
        forall|c: Seq<u32>, t: Seq<int>| #[trigger] p.score(c, t) == q.score(c, t),
        forall|a: int, b: int| #[trigger] p.accepts(a, b) == q.accepts(a, b),
        comes_from::<N, BR, BC, P>(p, puzzle, solution, clue_min, cap, keep, order),
    ensures
        comes_from::<N, BR, BC, P>(q, puzzle, solution, clue_min, cap, keep, order),
{
    lemma_same_run::<N, BR, BC, P>(
        p,
        q,
        solution.solved@,
        keep,
        order,
        clue_min,
        cap,
        order.len() as int,
    );
}

/// A puzzle with at most about `clue_max` clues is carved out of a random solution: the
/// solution, and the cells of the clues.
pub fn seed_clues<const N: usize, const BR: usize, const BC: usize>(
    rng: &mut Xoshiro256PlusPlus,
    clue_max: u32,
) -> (r: (Grid<N, BR, BC>, Vec<bool>))
    requires
        Grid::<N, BR, BC>::shape().ok(),
    ensures
        generator::is_full(r.0),
        r.1@.len() == N * N,
        carving::only_solution(
            Grid::<N, BR, BC>::shape(),
            carving::kept(r.0.solved@, r.1@),
            solutions::digits_of(r.0.solved@),
        ),
        (r.0.solved@, r.1@, rng::state(*final(rng))) == drawn_clues(
            Grid::<N, BR, BC>::shape(),
            clue_max,
            rng::state(*old(rng)),
        ),
{
    let ghost sh = Grid::<N, BR, BC>::shape();
    proof {
        peer_tables::lemma_cells_bound(sh);
    }
    let cfg = generator::GenConfig { target_clues: clue_max, max_attempts: 0 };
    let (seed, _count, solution) = generator::gen_unique_puzzle_with_solution::<N, BR, BC>(rng, &cfg);
    let ghost s = solutions::digits_of(solution.solved@);
    let mut keep: Vec<bool> = Vec::new();
    let nn: usize = N * N;
    let mut i: usize = 0;
    while i < nn
        invariant
            nn == N * N,
            seed.wf(),
            i <= nn,
            keep@.len() == i,
            forall|j: int| 0 <= j < i ==> (#[trigger] keep@[j]) == (seed.solved@[j] != 0),
        decreases nn - i,
    {
        keep.push(seed.solved[i] != 0);
        i += 1;
    }
    proof {
        let v = solutions::digits_of(seed.solved@);
        assert(carving::kept(solution.solved@, keep@) =~= v) by {
            assert forall|j: int| 0 <= j < nn implies carving::kept(solution.solved@, keep@)[j]
                == v[j] by {
                assert(v[j] == 0 || v[j] == s[j]);
                assert(v[j] == seed.solved@[j]);
                assert(keep@[j] == (seed.solved@[j] != 0));
            }
        }
        grid::lemma_shows_solutions(seed, v);
        assert(keep@ =~= Seq::new(sh.cells() as nat, |i: int| seed.solved@[i] != 0));
    }
    (solution, keep)
}

/// The same, with the cells of the clues in random order.
pub fn seed_attempt<const N: usize, const BR: usize, const BC: usize>(
    rng: &mut Xoshiro256PlusPlus,
    clue_max: u32,
) -> (r: (Grid<N, BR, BC>, Vec<bool>, Vec<u16>))
    requires
        Grid::<N, BR, BC>::shape().ok(),
    ensures
        generator::is_full(r.0),
        r.1@.len() == N * N,
        carving::only_solution(
            Grid::<N, BR, BC>::shape(),
            carving::kept(r.0.solved@, r.1@),
            solutions::digits_of(r.0.solved@),
        ),
        orders_kept(r.2@, r.1@),
        (r.0.solved@, r.1@, r.2@, rng::state(*final(rng))) == drawn_attempt(
            Grid::<N, BR, BC>::shape(),
            clue_max,
            rng::state(*old(rng)),
        ),
{
    proof {
        peer_tables::lemma_cells_bound(Grid::<N, BR, BC>::shape());
    }
    let (solution, keep) = seed_clues::<N, BR, BC>(rng, clue_max);
    let mut order: Vec<u16> = kept_cells(&keep);
    let ghost sorted = order@;
    rng::shuffle(&mut order, rng);
    proof {
        rng::lemma_shuffled(sorted, order@);
        assert forall|j: int| 0 <= j < order@.len() implies (#[trigger] order@[j]) < keep@.len()
            && keep@[order@[j] as int] by {
            assert(order@.contains(order@[j]));
            assert(sorted.contains(order@[j]));
        }
        assert forall|j: int| 0 <= j < keep@.len() && #[trigger] keep@[j] implies order@.contains(
            j as u16,
        ) by {
            assert(sorted.contains(j as u16));
        }
    }
    (solution, keep, order)
}

/// The puzzle that shows the clues that are kept, and their number.
pub fn kept_puzzle<const N: usize, const BR: usize, const BC: usize>(
    solution: &Grid<N, BR, BC>,
    keep: &Vec<bool>,
) -> (r: (Grid<N, BR, BC>, u32))
    requires
        generator::is_full(*solution),
        keep@.len() == N * N,
        carving::only_solution(
            Grid::<N, BR, BC>::shape(),
            carving::kept(solution.solved@, keep@),
            solutions::digits_of(solution.solved@),
        ),
    ensures
        r.0.shows(carving::kept(solution.solved@, keep@)),
        r.0.sound(),
        r.0.solutions() == set![solutions::digits_of(solution.solved@)],
        r.1 == solutions::placed(r.0.solved@),
        r.1 == carving::kept_count(keep@),
{
    let ghost s = solutions::digits_of(solution.solved@);
    proof {
        peer_tables::lemma_cells_bound(Grid::<N, BR, BC>::shape());
        assert(carving::part_of(carving::kept(solution.solved@, keep@), s));
    }
    let v: Vec<u8> = carving::kept_clues(&solution.solved, keep);
    let (puzzle, _unique) = carving::trial_grid::<N, BR, BC>(solution.table_arc(), &v, Ghost(s));
    let clue_count: u32 = carving::count_kept(keep);
    proof {
        carving::lemma_kept_placed(solution.solved@, puzzle.solved@, keep@);
    }
    (puzzle, clue_count)
}

/// One attempt: a puzzle with at most about `clue_max` clues is carved out of a random
/// solution, and further clues are taken away towards the pattern, down to `clue_min`.
pub fn carve_attempt<const N: usize, const BR: usize, const BC: usize, P: Probe<N, BR, BC>>(
    rng: &mut Xoshiro256PlusPlus,
    p: &mut P,
    clue_min: u32,
    clue_max: u32,
    greedy_max_trials: u32,
) -> (r: (Grid<N, BR, BC>, Grid<N, BR, BC>, u32))
    requires
        Grid::<N, BR, BC>::shape().ok(),
        old(p).ready(),
    ensures
        final(p).ready(),
        forall|c: Seq<u32>, t: Seq<int>| #[trigger] final(p).score(c, t) == old(p).score(c, t),
        forall|a: int, b: int| #[trigger] final(p).accepts(a, b) == old(p).accepts(a, b),
        generator::is_full(r.1),
        r.0.sound(),
        r.0.solutions() == set![solutions::digits_of(r.1.solved@)],
        r.2 == solutions::placed(r.0.solved@),
        ({
            let drawn = drawn_attempt(
                Grid::<N, BR, BC>::shape(),
                clue_max,
                rng::state(*old(rng)),
            );
            &&& r.1.solved@ == drawn.0
            &&& comes_from::<N, BR, BC, P>(
                *old(p),
                r.0,
                r.1,
                clue_min,
                trial_cap(greedy_max_trials),
                drawn.1,
                drawn.2,
            )
            &&& rng::state(*final(rng)) == drawn.3
        }),
{
    let ghost p0 = *p;
    let (solution, mut keep, order) = seed_attempt::<N, BR, BC>(rng, clue_max);
    let ghost keep0 = keep@;
    let cap: u32 = if greedy_max_trials == 0 {
        u32::MAX
    } else {
        greedy_max_trials
    };
    guided_removal::<N, BR, BC, P>(p, &solution, &mut keep, &order, clue_min, cap);
    proof {
        law_run_keeps_solution::<N, BR, BC, P>(
            p0,
            solution.solved@,
            keep0,
            order@,
            clue_min,
            cap,
            order@.len() as int,
        );
    }
    let (puzzle, clue_count) = kept_puzzle(&solution, &keep);
    (puzzle, solution, clue_count)
}

} // verus!
