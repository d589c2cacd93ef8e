//! Puzzles whose rating is the one that is sought.
//!
//! Clues are taken away from a random solution. Until the rating is met for the first time,
//! every step is taken that does not overshoot the tier; from then on, only steps that keep it
//! met. When to stop is drawn at random within the limits on the number of clues.

use super::carving;
use super::generator;
use super::generator::random_solution;
use super::geometry::Dims;
use super::grid::Grid;
use super::guided_removal;
use super::peer_tables;
use super::rater;
use super::rater::{RateResult, Rater};
use super::rng;
use super::solutions;
use super::spec::TechniqueChainSpec;
use super::techniques;
use super::techniques::tier_rank;
use rand_xoshiro::Xoshiro256PlusPlus;
use vstd::prelude::*;

verus! {

/// The number of clues to stop at, for a number that was drawn.
pub open spec fn stop_for(clue_min: u32, clue_max: u32, word: u32) -> int {
    if clue_max <= clue_min {
        clue_min as int
    } else {
        clue_min + word as int % (clue_max - clue_min + 1)
    }
}

/// The number of clues to stop at: drawn from the limits.
pub fn stop_target(clue_min: u32, clue_max: u32, word: u32) -> (r: u32)
    requires
        clue_max - clue_min < u32::MAX,
    ensures
        r == stop_for(clue_min, clue_max, word),
        clue_min <= clue_max ==> clue_min <= r <= clue_max,
{
    if clue_max <= clue_min {
        clue_min
    } else {
        clue_min + word % (clue_max - clue_min + 1)
    }
}

/// Whether a step is taken, for the rating that it leads to.
pub open spec fn takes_step(locked: bool, r: RateResult, spec: TechniqueChainSpec, clues: u32) -> bool {
    !r.rater_error && if locked {
        spec.is_met(r, clues)
    } else {
        techniques::rank(r.tier) <= techniques::rank(spec.target_tier)
    }
}

/// Whether the step to a puzzle with `clues` clues is taken, for its rating: once the rating
/// was met, only if it still is; before, if its tier is not above the target.
pub fn is_step_taken(locked: bool, r: &RateResult, spec: &TechniqueChainSpec, clues: u32) -> (b:
    bool)
    ensures
        b == takes_step(locked, *r, *spec, clues),
{
    if r.rater_error {
        return false;
    }
    if locked {
        spec.matches(r, clues)
    } else {
        tier_rank(r.tier) <= tier_rank(spec.target_tier)
    }
}

/// Whether a rating without the required techniques shows that they are not needed: it is
/// without error, and the puzzle was solved at the target tier or above.
pub fn is_not_needed(without: &RateResult, spec: &TechniqueChainSpec) -> (b: bool)
    ensures
        b == (!without.rater_error && without.solved && techniques::rank(without.tier)
            >= techniques::rank(spec.target_tier)),
{
    !without.rater_error && without.solved && tier_rank(without.tier) >= tier_rank(
        spec.target_tier,
    )
}

/// The puzzle is what is sought for its rating and, where techniques are required, for its
/// rating without them, which must not show that they are not needed.
pub open spec fn is_sought(
    rate: RateResult,
    clues: u32,
    without: Option<RateResult>,
    spec: TechniqueChainSpec,
) -> bool {
    &&& spec.is_met(rate, clues)
    &&& spec.required_techniques@.len() > 0 && without is Some ==> !(!(without->0).rater_error && (
    without->0).solved && techniques::rank((without->0).tier) >= techniques::rank(spec.target_tier))
}

/// Whether a puzzle is what is sought.
pub fn is_wanted(
    rate: &RateResult,
    clues: u32,
    without: &Option<RateResult>,
    spec: &TechniqueChainSpec,
) -> (b: bool)
    ensures
        b == is_sought(*rate, clues, *without, *spec),
{
    spec.matches(rate, clues) && (spec.required_techniques.len() == 0 || match without {
        Some(w) => !is_not_needed(w, spec),
        None => true,
    })
}

/// The puzzle has one solution, its clues are within the limits, and its rating is the one
/// that is sought.
pub open spec fn is_generated<const N: usize, const BR: usize, const BC: usize>(
    puzzle: Grid<N, BR, BC>,
    r: RateResult,
    clues: u32,
    spec: TechniqueChainSpec,
) -> bool {
    &&& puzzle.sound()
    &&& puzzle.solutions().finite()
    &&& puzzle.solutions().len() == 1
    &&& clues == solutions::placed(puzzle.solved@)
    &&& clues < N * N
    &&& spec.is_met(r, clues)
}

/// The number of clues to stop at that a generator with the words `words` leads to, and the
/// words that it holds afterwards. Nothing is drawn where the limits leave no choice.
pub open spec fn drawn_stop(clue_min: u32, clue_max: u32, words: Seq<u64>) -> (int, Seq<u64>) {
    if clue_max <= clue_min {
        (clue_min as int, words)
    } else {
        let drawn = rng::half_word_of(words);
        (stop_for(clue_min, clue_max, drawn.0), drawn.1)
    }
}

/// What an attempt starts from.
pub struct Start {
    pub solved: Seq<u8>,
    pub order: Seq<u16>,
    pub stop: int,
}

/// The digits of the solution that an attempt starts from, the order in which its cells are
/// visited and the number of clues to stop at, and the words that the generator holds after it.
pub open spec fn drawn_start(g: Dims, spec: TechniqueChainSpec, words: Seq<u64>) -> (
    Start,
    Seq<u64>,
) {
    let s = generator::drawn_solution(g, words);
    let order = generator::drawn_order(g.cells() as nat, s.1);
    let stop = drawn_stop(spec.clue_min, spec.clue_max, order.1);
    (Start { solved: s.0, order: order.0, stop: stop.0 }, stop.1)
}

/// Where the taking away of clues stands.
pub struct Carving {
    pub keep: Seq<bool>,
    /// The rating was met.
    pub locked: bool,
    pub stopped: bool,
}

/// One step: the clue of cell `c` is given up if the rest still determines the solution and the
/// step is taken for the rating of the rest. Once the rating was met, it ends at `stop` clues.
pub open spec fn carving_step(
    g: Dims,
    solved: Seq<u8>,
    spec: TechniqueChainSpec,
    stop: int,
    t: Carving,
    c: int,
    rate: RateResult,
) -> Carving {
    if t.stopped || !t.keep[c] {
        t
    } else if carving::kept_count(t.keep) <= spec.clue_min {
        Carving { stopped: true, ..t }
    } else {
        let keep = t.keep.update(c, false);
        let clues = (carving::kept_count(t.keep) - 1) as u32;
        let locked = t.locked || spec.is_met(rate, clues);
        if carving::only_solution(g, carving::kept(solved, keep), solutions::digits_of(solved))
            && takes_step(t.locked, rate, spec, clues) {
            Carving { keep, locked, stopped: locked && clues <= stop }
        } else {
            t
        }
    }
}

/// The state after as many cells as there are ratings, which are those of the trials.
pub open spec fn carved(
    g: Dims,
    start: Start,
    spec: TechniqueChainSpec,
    rates: Seq<RateResult>,
) -> Carving
    decreases rates.len(),
{
    if rates.len() == 0 {
        Carving { keep: Seq::new(g.cells() as nat, |i: int| true), locked: false, stopped: false }
    } else {
        carving_step(
            g,
            start.solved,
            spec,
            start.stop,
            carved(g, start, spec, rates.drop_last()),
            start.order[rates.len() - 1] as int,
            rates.last(),
        )
    }
}

/// A step at cell `c` asks for a rating: the clue is there, it may be given up, and the rest
/// determines the solution.
pub open spec fn is_trial(g: Dims, solved: Seq<u8>, clue_min: u32, t: Carving, c: int) -> bool {
    &&& !t.stopped
    &&& t.keep[c]
    &&& carving::kept_count(t.keep) > clue_min
    &&& carving::only_solution(
        g,
        carving::kept(solved, t.keep.update(c, false)),
        solutions::digits_of(solved),
    )
}

/// `rate` is an answer that a rater can give for a puzzle with the clues `v`.
pub open spec fn may_be_rated<const N: usize, const BR: usize, const BC: usize, R: Rater<N, BR, BC>>(
    v: Seq<int>,
    rate: RateResult,
) -> bool {
    exists|g: Grid<N, BR, BC>|
        g.shows(v) && #[trigger] rater::may_say::<N, BR, BC, R>(g, rate)
}

/// The rating of step `k` is an answer that a rater can give, if it is asked for one.
pub open spec fn is_answered<const N: usize, const BR: usize, const BC: usize, R: Rater<N, BR, BC>>(
    start: Start,
    spec: TechniqueChainSpec,
    rates: Seq<RateResult>,
    k: int,
) -> bool {
    let g = Grid::<N, BR, BC>::shape();
    let t = carved(g, start, spec, rates.take(k));
    let c = start.order[k] as int;
    is_trial(g, start.solved, spec.clue_min, t, c) ==> may_be_rated::<N, BR, BC, R>(
        carving::kept(start.solved, t.keep.update(c, false)),
        rates[k],
    )
}

/// A rater can lead to the state `t`: all cells were visited, or it was time to stop, and the
/// ratings of the trials are answers that it can give.
pub open spec fn may_carve<const N: usize, const BR: usize, const BC: usize, R: Rater<N, BR, BC>>(
    start: Start,
    spec: TechniqueChainSpec,
    t: Carving,
) -> bool {
    let g = Grid::<N, BR, BC>::shape();
    exists|rates: Seq<RateResult>|
        {
            &&& t == #[trigger] carved(g, start, spec, rates)
            &&& rates.len() <= start.order.len()
            &&& t.stopped || rates.len() == start.order.len()
            &&& forall|k: int|
                0 <= k < rates.len() ==> #[trigger] is_answered::<N, BR, BC, R>(
                    start,
                    spec,
                    rates,
                    k,
                )
        }
}

/// The answers are ones that a rater can give for a puzzle with `clues` clues: it is asked
/// without the required techniques only where there are such and the rating is met.
pub open spec fn are_answers<const N: usize, const BR: usize, const BC: usize, R: Rater<N, BR, BC>>(
    spec: TechniqueChainSpec,
    puzzle: Grid<N, BR, BC>,
    clues: u32,
    rate: RateResult,
    without: Option<RateResult>,
) -> bool {
    &&& rater::may_say::<N, BR, BC, R>(puzzle, rate)
    &&& without is Some == (spec.required_techniques@.len() > 0 && spec.is_met(rate, clues))
    &&& without matches Some(w) ==> rater::may_say_without::<N, BR, BC, R>(
        puzzle,
        spec.required_techniques@,
        w,
    )
}

/// What the taking away of clues has come to can lead to `r`: to nothing if the rating was never
/// met or the clues are not within the limits; else to the puzzle, if it is what is sought.
pub open spec fn carving_leads_to<
    const N: usize,
    const BR: usize,
    const BC: usize,
    R: Rater<N, BR, BC>,
>(
    spec: TechniqueChainSpec,
    solved: Seq<u8>,
    t: Carving,
    r: Option<(Grid<N, BR, BC>, RateResult, u32)>,
) -> bool {
    let clues = carving::kept_count(t.keep);
    if !t.locked || clues > spec.clue_max || clues < spec.clue_min {
        r is None
    } else {
        exists|puzzle: Grid<N, BR, BC>, rate: RateResult, without: Option<RateResult>|
            puzzle.shows(carving::kept(solved, t.keep)) && #[trigger] are_answers::<N, BR, BC, R>(
                spec,
                puzzle,
                clues as u32,
                rate,
                without,
            ) && r == if is_sought(rate, clues as u32, without, spec) {
                Some((puzzle, rate, clues as u32))
            } else {
                None
            }
    }
}

/// An attempt of a generator with the words `words` can lead to `r`.
pub open spec fn may_lead_to<const N: usize, const BR: usize, const BC: usize, R: Rater<N, BR, BC>>(
    spec: TechniqueChainSpec,
    words: Seq<u64>,
    r: Option<(Grid<N, BR, BC>, RateResult, u32)>,
) -> bool {
    let start = drawn_start(Grid::<N, BR, BC>::shape(), spec, words).0;
    exists|t: Carving| #[trigger]
        may_carve::<N, BR, BC, R>(start, spec, t) && carving_leads_to::<N, BR, BC, R>(
            spec,
            start.solved,
            t,
            r,
        )
}

/// The rating is an answer that a rater can give for the puzzle, and where techniques are
/// required, so is one without them that does not show that they are not needed.
pub open spec fn is_confirmed<const N: usize, const BR: usize, const BC: usize, R: Rater<N, BR, BC>>(
    puzzle: Grid<N, BR, BC>,
    rate: RateResult,
    clues: u32,
    spec: TechniqueChainSpec,
) -> bool {
    &&& rater::may_say::<N, BR, BC, R>(puzzle, rate)
    &&& spec.required_techniques@.len() > 0 ==> exists|w: RateResult| #[trigger]
        rater::may_say_without::<N, BR, BC, R>(puzzle, spec.required_techniques@, w) && is_sought(
            rate,
            clues,
            Some(w),
            spec,
        )
}

/// The words that the generator holds after `n` attempts.
pub open spec fn words_after(g: Dims, spec: TechniqueChainSpec, words: Seq<u64>, n: nat) -> Seq<u64>
    decreases n,
{
    if n == 0 {
        words
    } else {
        drawn_start(g, spec, words_after(g, spec, words, (n - 1) as nat)).1
    }
}

/// The attempt after `n` others can lead to `r`.
pub open spec fn attempt_leads_to<
    const N: usize,
    const BR: usize,
    const BC: usize,
    R: Rater<N, BR, BC>,
>(
    spec: TechniqueChainSpec,
    words: Seq<u64>,
    n: nat,
    r: Option<(Grid<N, BR, BC>, RateResult, u32)>,
) -> bool {
    may_lead_to::<N, BR, BC, R>(
        spec,
        words_after(Grid::<N, BR, BC>::shape(), spec, words, n),
        r,
    )
}

/// One more rating that a rater can give, if it is asked for one.
proof fn lemma_next_rate<const N: usize, const BR: usize, const BC: usize, R: Rater<N, BR, BC>>(
    start: Start,
    spec: TechniqueChainSpec,
    rates: Seq<RateResult>,
    said: RateResult,
)
    requires
        forall|k: int|
            0 <= k < rates.len() ==> #[trigger] is_answered::<N, BR, BC, R>(start, spec, rates, k),
        ({
            let g = Grid::<N, BR, BC>::shape();
            let t = carved(g, start, spec, rates);
            let c = start.order[rates.len() as int] as int;
            is_trial(g, start.solved, spec.clue_min, t, c) ==> may_be_rated::<N, BR, BC, R>(
                carving::kept(start.solved, t.keep.update(c, false)),
                said,
            )
        }),
    ensures
        forall|k: int|
            0 <= k < rates.len() + 1 ==> #[trigger] is_answered::<N, BR, BC, R>(
                start,
                spec,
                rates.push(said),
                k,
            ),
{
    let more = rates.push(said);
    assert forall|k: int| 0 <= k < rates.len() + 1 implies #[trigger] is_answered::<N, BR, BC, R>(
        start,
        spec,
        more,
        k,
    ) by {
        assert(more.take(k) =~= rates.take(k));
        if k < rates.len() {
            assert(is_answered::<N, BR, BC, R>(start, spec, rates, k));
        } else {
            assert(rates.take(k) =~= rates);
        }
    }
}

/// One attempt with a random solution.
pub fn try_generate_constrained<
    const N: usize,
    const BR: usize,
    const BC: usize,
    R: Rater<N, BR, BC>,
>(rng: &mut Xoshiro256PlusPlus, rater: &mut R, spec: &TechniqueChainSpec) -> (r: Option<
    (Grid<N, BR, BC>, RateResult, u32),
>)
    requires
        Grid::<N, BR, BC>::shape().ok(),
        spec.clue_max - spec.clue_min < u32::MAX,
    ensures
        r matches Some((puzzle, rate, clues)) ==> is_generated(puzzle, rate, clues, *spec)
            && is_confirmed::<N, BR, BC, R>(puzzle, rate, clues, *spec),
        r matches Some((_, rate, clues)) ==> !rate.rater_error && rate.tier == spec.target_tier
            && spec.clue_min <= clues && clues <= spec.clue_max,
        r matches Some((_, rate, _)) ==> forall|i: int|
            0 <= i < spec.required_techniques@.len() ==> rate.frontier@.contains(
                #[trigger] spec.required_techniques@[i],
            ),
        r matches Some((puzzle, rate, clues)) ==> spec.required_techniques@.len() > 0 ==> exists|
            w: RateResult,
        | #[trigger]
            rater::may_say_without::<N, BR, BC, R>(puzzle, spec.required_techniques@, w) && (
            w.rater_error || !w.solved || techniques::rank(w.tier) < techniques::rank(
                spec.target_tier,
            )),
        r matches Some((puzzle, rate, clues)) ==> puzzle.solutions() == set![
            solutions::digits_of(
                drawn_start(
                    Grid::<N, BR, BC>::shape(),
                    *spec,
                    rng::state(*old(rng)),
                ).0.solved,
            ),
        ],
        may_lead_to::<N, BR, BC, R>(*spec, rng::state(*old(rng)), r),
        rng::state(*final(rng)) == drawn_start(
            Grid::<N, BR, BC>::shape(),
            *spec,
            rng::state(*old(rng)),
        ).1,
        spec.clue_min >= N * N || spec.clue_min > spec.clue_max ==> r is None,
{
    let ghost sh = Grid::<N, BR, BC>::shape();
    proof {
        peer_tables::lemma_cells_bound(sh);
    }
    let nn: usize = N * N;
    let solution: Grid<N, BR, BC> = random_solution(rng);
    let ghost solved = solution.solved@;
    let ghost s = solutions::digits_of(solved);
    let mut keep: Vec<bool> = all_kept(nn);
    let mut clue_count: u32 = nn as u32;
    let mut locked: bool = false;
    let order: Vec<u16> = generator::random_order(nn, rng);
    let stop_at: u32 = if spec.clue_max <= spec.clue_min {
        spec.clue_min
    } else {
        stop_target(spec.clue_min, spec.clue_max, rng::next_half_word(rng))
    };
    let ghost start = drawn_start(sh, *spec, rng::state(*old(rng))).0;
    assert(start == (Start { solved, order: order@, stop: stop_at as int }));
    proof {
        lemma_all_kept(keep@);
        lemma_full_is_only(solution, keep@);
    }
    let mut k: usize = 0;
    let mut stop: bool = false;
    let ghost mut rates: Seq<RateResult> = Seq::empty();
    assert(keep@ =~= carved(sh, start, *spec, rates).keep);
    while k < order.len() && !stop
        invariant
            sh == Grid::<N, BR, BC>::shape(),
            sh.ok(),
            nn == sh.cells(),
            nn <= 961,
            generator::is_full(solution),
            solved == solution.solved@,
            start == drawn_start(sh, *spec, rng::state(*old(rng))).0,
            start == (Start { solved, order: order@, stop: stop_at as int }),
            rng::state(*rng) == drawn_start(sh, *spec, rng::state(*old(rng))).1,
            s == solutions::digits_of(solved),
            keep@.len() == N * N,
            carving::only_solution(sh, carving::kept(solved, keep@), s),
            clue_count == carving::kept_count(keep@),
            clue_count <= nn,
            locked ==> clue_count < nn,
            spec.clue_min >= nn ==> clue_count == nn,
            k <= order@.len(),
            rates.len() == k,
            carved(sh, start, *spec, rates) == (Carving {
                keep: keep@,
                locked,
                stopped: stop,
            }),
            forall|i: int| 0 <= i < order@.len() ==> (#[trigger] order@[i]) < N * N,
            forall|i: int|
                0 <= i < k ==> #[trigger] is_answered::<N, BR, BC, R>(start, *spec, rates, i),
        decreases order@.len() - k,
    {
        let c: usize = order[k] as usize;
        let ghost before = carved(sh, start, *spec, rates);
        let ghost rates0 = rates;
        let ghost mut said: RateResult = arbitrary();
        k += 1;
        if keep[c] {
            if clue_count <= spec.clue_min {
                stop = true;
            } else {
                let ghost was = keep@;
                proof {
                    carving::lemma_kept_count_update(keep@, c as int);
                }
                keep.set(c, false);
                let ghost v1 = carving::kept(solved, keep@);
                assert(carving::part_of(v1, s));
                let v: Vec<u8> = carving::kept_clues(&solution.solved, &keep);
                let (trial, unique) = carving::trial_grid::<N, BR, BC>(
                    solution.table_arc(),
                    &v,
                    Ghost(s),
                );
                let mut take: bool = false;
                if unique {
                    let rate = rater.rate(&trial);
                    proof {
                        said = rate;
                        assert(solutions::digits_of(v@) =~= v1);
                        assert(rater::may_say::<N, BR, BC, R>(trial, rate));
                        assert(may_be_rated::<N, BR, BC, R>(v1, rate));
                    }
                    if is_step_taken(locked, &rate, spec, clue_count - 1) {
                        take = true;
                        if spec.matches(&rate, clue_count - 1) {
                            locked = true;
                        }
                    }
                }
                if take {
                    clue_count -= 1;
                    if locked && clue_count <= stop_at {
                        stop = true;
                    }
                } else {
                    keep.set(c, true);
                    assert(keep@ =~= was);
                }
            }
        }
        proof {
            lemma_next_rate::<N, BR, BC, R>(start, *spec, rates0, said);
            rates = rates0.push(said);
            assert(rates.drop_last() =~= rates0);
            assert(carved(sh, start, *spec, rates) == carving_step(
                sh,
                solved,
                *spec,
                stop_at as int,
                before,
                c as int,
                said,
            ));
        }
    }
    let ghost t = carved(sh, start, *spec, rates);
    assert(may_carve::<N, BR, BC, R>(start, *spec, t));
    if !locked || clue_count > spec.clue_max || clue_count < spec.clue_min {
        assert(carving_leads_to::<N, BR, BC, R>(*spec, solved, t, None));
        return None;
    }
    let (puzzle, count) = guided_removal::kept_puzzle(&solution, &keep);
    let rate = rater.rate(&puzzle);
    assert(rater::may_say::<N, BR, BC, R>(puzzle, rate));
    let without: Option<RateResult> = if spec.required_techniques.len() > 0 && spec.matches(
        &rate,
        count,
    ) {
        let w = rater.rate_excluding(&puzzle, &spec.required_techniques);
        assert(rater::may_say_without::<N, BR, BC, R>(puzzle, spec.required_techniques@, w));
        Some(w)
    } else {
        None
    };
    assert(carving::kept_count(t.keep) as u32 == count);
    assert(are_answers::<N, BR, BC, R>(*spec, puzzle, count, rate, without));
    if !is_wanted(&rate, count, &without, spec) {
        assert(carving_leads_to::<N, BR, BC, R>(*spec, solved, t, None));
        return None;
    }
    let r = (puzzle, rate, count);
    assert(is_generated(r.0, r.1, r.2, *spec));
    assert(is_confirmed::<N, BR, BC, R>(r.0, r.1, r.2, *spec));
    assert(carving_leads_to::<N, BR, BC, R>(*spec, solved, t, Some(r)));
    Some(r)
}

/// All cells are kept.
fn all_kept(n: usize) -> (v: Vec<bool>)
    ensures
        v@.len() == n,
        forall|i: int| 0 <= i < n ==> #[trigger] v@[i],
{
    let mut v: Vec<bool> = Vec::new();
    while v.len() < n
        invariant
            v@.len() <= n,
            forall|i: int| 0 <= i < v@.len() ==> #[trigger] v@[i],
        decreases n - v@.len(),
    {
        v.push(true);
    }
    v
}

proof fn lemma_all_kept(keep: Seq<bool>)
    requires
        forall|i: int| 0 <= i < keep.len() ==> #[trigger] keep[i],
    ensures
        carving::kept_count(keep) == keep.len(),
    decreases keep.len(),
{
    if keep.len() > 0 {
        let t = keep.drop_last();
        assert forall|i: int| 0 <= i < t.len() implies #[trigger] t[i] by {
            assert(keep[i]);
        }
        lemma_all_kept(t);
    }
}

/// A full grid is its only solution.
proof fn lemma_full_is_only<const N: usize, const BR: usize, const BC: usize>(
    x: Grid<N, BR, BC>,
    keep: Seq<bool>,
)
    requires
        generator::is_full(x),
        keep.len() == N * N,
        forall|i: int| 0 <= i < keep.len() ==> #[trigger] keep[i],
    ensures
        carving::only_solution(
            Grid::<N, BR, BC>::shape(),
            carving::kept(x.solved@, keep),
            solutions::digits_of(x.solved@),
        ),
{
    let g = Grid::<N, BR, BC>::shape();
    let s = solutions::digits_of(x.solved@);
    let v = carving::kept(x.solved@, keep);
    assert(v =~= s);
    carving::lemma_part_held(g, v, s);
    carving::lemma_only_or_another(g, v, s);
    if carving::another(g, v, s) {
        let t = choose|t: Seq<int>|
            #[trigger] super::grid::completions(g, v).contains(t) && t != s;
        assert(t =~= s) by {
            assert forall|i: int| 0 <= i < t.len() implies t[i] == s[i] by {
                assert(x.solved@[i] != 0);
                assert(v[i] != 0);
            }
        }
    }
}

/// Up to `max_attempts` attempts, at least one.
pub fn gen_constrained<const N: usize, const BR: usize, const BC: usize, R: Rater<N, BR, BC>>(
    rng: &mut Xoshiro256PlusPlus,
    rater: &mut R,
    spec: &TechniqueChainSpec,
    max_attempts: u32,
) -> (r: Option<(Grid<N, BR, BC>, RateResult, u32)>)
    requires
        Grid::<N, BR, BC>::shape().ok(),
        spec.clue_max - spec.clue_min < u32::MAX,
    ensures
        r matches Some((puzzle, rate, clues)) ==> is_generated(puzzle, rate, clues, *spec)
            && is_confirmed::<N, BR, BC, R>(puzzle, rate, clues, *spec),
        r matches Some((_, rate, clues)) ==> !rate.rater_error && rate.tier == spec.target_tier
            && spec.clue_min <= clues && clues <= spec.clue_max,
        r matches Some((_, rate, _)) ==> forall|i: int|
            0 <= i < spec.required_techniques@.len() ==> rate.frontier@.contains(
                #[trigger] spec.required_techniques@[i],
            ),
        r matches Some((puzzle, rate, clues)) ==> spec.required_techniques@.len() > 0 ==> exists|
            w: RateResult,
        | #[trigger]
            rater::may_say_without::<N, BR, BC, R>(puzzle, spec.required_techniques@, w) && (
            w.rater_error || !w.solved || techniques::rank(w.tier) < techniques::rank(
                spec.target_tier,
            )),
        ({
            let g = Grid::<N, BR, BC>::shape();
            let words = rng::state(*old(rng));
            let most = if max_attempts == 0 {
                1
            } else {
                max_attempts as nat
            };
            exists|n: nat|
                {
                    &&& 1 <= n <= most
                    &&& rng::state(*final(rng)) == #[trigger] words_after(g, *spec, words, n)
                    &&& r is None ==> n == most
                    &&& attempt_leads_to::<N, BR, BC, R>(*spec, words, (n - 1) as nat, r)
                    &&& forall|i: nat|
                        i + 1 < n ==> #[trigger] attempt_leads_to::<N, BR, BC, R>(
                            *spec,
                            words,
                            i,
                            None,
                        )
                    &&& r matches Some((puzzle, _, _)) ==> puzzle.solutions() == set![
                        solutions::digits_of(
                            drawn_start(
                                g,
                                *spec,
                                words_after(g, *spec, words, (n - 1) as nat),
                            ).0.solved,
                        ),
                    ]
                }
        }),
        spec.clue_min >= N * N || spec.clue_min > spec.clue_max ==> r is None,
{
    let attempts: u32 = if max_attempts == 0 {
        1
    } else {
        max_attempts
    };
    let mut i: u32 = 0;
    while i < attempts
        invariant
            Grid::<N, BR, BC>::shape().ok(),
            spec.clue_max - spec.clue_min < u32::MAX,
            i <= attempts,
            attempts == if max_attempts == 0 {
                1
            } else {
                max_attempts
            },
            rng::state(*rng) == words_after(
                Grid::<N, BR, BC>::shape(),
                *spec,
                rng::state(*old(rng)),
                i as nat,
            ),
            forall|j: nat|
                j < i ==> #[trigger] attempt_leads_to::<N, BR, BC, R>(
                    *spec,
                    rng::state(*old(rng)),
                    j,
                    None,
                ),
        decreases attempts - i,
    {
        i += 1;
        let r = try_generate_constrained(rng, rater, spec);
        proof {
            let g = Grid::<N, BR, BC>::shape();
            let words = rng::state(*old(rng));
            assert((i as nat - 1) as nat == i - 1);
            assert(words_after(g, *spec, words, i as nat) == drawn_start(
                g,
                *spec,
                words_after(g, *spec, words, (i as nat - 1) as nat),
            ).1);
            assert(attempt_leads_to::<N, BR, BC, R>(*spec, words, (i as nat - 1) as nat, r));
        }
        if r.is_some() {
            return r;
        }
    }
    proof {
        let words = rng::state(*old(rng));
        assert(attempt_leads_to::<N, BR, BC, R>(*spec, words, (attempts as nat - 1) as nat, None));
        assert(rng::state(*rng) == words_after(
            Grid::<N, BR, BC>::shape(),
            *spec,
            words,
            attempts as nat,
        ));
    }
    None
}

} // verus!
