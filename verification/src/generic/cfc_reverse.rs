//! Puzzles that need a cell forcing chain.
//!
//! A seed is carved out of a random solution and rated. As long as it is not what is sought,
//! clues are taken away one by one, as far as the solution stays the only one, and the puzzle
//! is rated again.

use super::carving;
use super::generator;
use super::geometry::Dims;
use super::grid::Grid;
use super::guided_removal;
use super::peer_tables;
use super::rater;
use super::rater::{RateResult, Rater};
use super::reverse_construct;
use super::reverse_construct::ReverseResult;
use super::rng;
use super::solutions;
use super::techniques::{contains_technique, TechniqueId};
use super::text;
use rand_xoshiro::Xoshiro256PlusPlus;
use vstd::prelude::*;

verus! {

/// The score from which a cell forcing chain has three branches or more, in thousandths.
pub const THREE_BRANCHES_SE: i64 = 8000;

/// What a puzzle has to be like. Scores are Sudoku Explainer scores in thousandths.
#[derive(Debug)]
pub struct CfcReverseSpec {
    /// The lowest score.
    pub target_se: i64,
    /// The lowest number of branches of a chain.
    pub target_k_min: u32,
    pub clue_min: u32,
    pub clue_max: u32,
    /// The number of clues that are tried for each seed, `0` for as many as there are cells.
    pub attempts_per_seed: u32,
    pub max_seeds: u32,
    pub rng_seed: u64,
    /// The puzzle has to be harder, or not solved at all, without the chain.
    pub require_load_bearing: bool,
    /// The highest score, if there is one.
    pub target_se_upper: Option<i64>,
    /// Techniques that must not be needed.
    pub excluded_techniques: Vec<TechniqueId>,
}

impl Clone for CfcReverseSpec {
    fn clone(&self) -> (r: Self)
        ensures
            r.target_se == self.target_se,
            r.target_k_min == self.target_k_min,
            r.clue_min == self.clue_min,
            r.clue_max == self.clue_max,
            r.attempts_per_seed == self.attempts_per_seed,
            r.max_seeds == self.max_seeds,
            r.rng_seed == self.rng_seed,
            r.require_load_bearing == self.require_load_bearing,
            r.target_se_upper == self.target_se_upper,
            r.excluded_techniques@ == self.excluded_techniques@,
    {
        let excluded_techniques = self.excluded_techniques.clone();
        assert(excluded_techniques@ =~= self.excluded_techniques@);
        CfcReverseSpec {
            target_se: self.target_se,
            target_k_min: self.target_k_min,
            clue_min: self.clue_min,
            clue_max: self.clue_max,
            attempts_per_seed: self.attempts_per_seed,
            max_seeds: self.max_seeds,
            rng_seed: self.rng_seed,
            require_load_bearing: self.require_load_bearing,
            target_se_upper: self.target_se_upper,
            excluded_techniques,
        }
    }
}

impl Default for CfcReverseSpec {
    fn default() -> (r: Self)
        ensures
            r.target_se == 8000,
            r.target_k_min == 3,
            r.clue_min == 20,
            r.clue_max == 28,
            r.attempts_per_seed == 200,
            r.max_seeds == 500,
            r.rng_seed == 0,
            r.require_load_bearing,
            r.target_se_upper is None,
            r.excluded_techniques@.len() == 0,
    {
        CfcReverseSpec {
            target_se: 8000,
            target_k_min: 3,
            clue_min: 20,
            clue_max: 28,
            attempts_per_seed: 200,
            max_seeds: 500,
            rng_seed: 0,
            require_load_bearing: true,
            target_se_upper: None,
            excluded_techniques: Vec::new(),
        }
    }
}

impl CfcReverseSpec {
    pub open spec fn is_valid(&self) -> bool {
        &&& self.clue_min <= self.clue_max
        &&& self.target_se >= 0
        &&& self.target_k_min >= 2
    }

    /// Whether the specification can be met; else what is wrong with it first.
    pub fn validate(&self) -> (r: Result<(), String>)
        ensures
            r is Ok == self.is_valid(),
            r matches Err(m) ==> m@ == if self.clue_min > self.clue_max {
                text::band_message(
                    "clue_min"@,
                    self.clue_min as nat,
                    "clue_max"@,
                    self.clue_max as nat,
                )
            } else if self.target_se < 0 {
                "target_se must be >= 0.0"@
            } else {
                "target_k_min must be >= 2 (CFC requires at least 2 branches)"@
            },
    {
        if self.clue_min > self.clue_max {
            return Err(
                text::inverted_band(
                    "clue_min",
                    self.clue_min as u64,
                    "clue_max",
                    self.clue_max as u64,
                ),
            );
        }
        if self.target_se < 0 {
            return Err(text::owned("target_se must be >= 0.0"));
        }
        if self.target_k_min < 2 {
            return Err(text::owned("target_k_min must be >= 2 (CFC requires at least 2 branches)"));
        }
        Ok(())
    }
}

/// The rating is one that is sought: the puzzle was solved with a cell forcing chain, the
/// score is within the limits, at least that of three branches if these are asked for, and
/// no excluded technique was needed.
pub open spec fn accepted(r: RateResult, spec: CfcReverseSpec) -> bool {
    &&& !r.rater_error
    &&& r.solved
    &&& r.frontier@.contains(TechniqueId::CellForcingChain)
    &&& r.se_milli >= spec.target_se
    &&& spec.target_k_min >= 3 ==> r.se_milli >= THREE_BRANCHES_SE
    &&& spec.target_se_upper matches Some(x) ==> r.se_milli <= x
    &&& forall|i: int|
        0 <= i < spec.excluded_techniques@.len() ==> !r.frontier@.contains(
            #[trigger] spec.excluded_techniques@[i],
        )
}

/// Whether a rating is one that is sought.
pub fn is_accept(r: &RateResult, spec: &CfcReverseSpec) -> (b: bool)
    ensures
        b == accepted(*r, *spec),
{
    if r.rater_error || !r.solved {
        return false;
    }
    if !contains_technique(&r.frontier, TechniqueId::CellForcingChain) {
        return false;
    }
    let se: i64 = r.se_milli as i64;
    if se < spec.target_se {
        return false;
    }
    if spec.target_k_min >= 3 && se < THREE_BRANCHES_SE {
        return false;
    }
    if let Some(upper) = spec.target_se_upper {
        if se > upper {
            return false;
        }
    }
    let mut i: usize = 0;
    while i < spec.excluded_techniques.len()
        invariant
            i <= spec.excluded_techniques@.len(),
            forall|j: int|
                0 <= j < i ==> !r.frontier@.contains(#[trigger] spec.excluded_techniques@[j]),
        decreases spec.excluded_techniques@.len() - i,
    {
        if contains_technique(&r.frontier, spec.excluded_techniques[i]) {
            assert(r.frontier@.contains(spec.excluded_techniques@[i as int]));
            return false;
        }
        i += 1;
    }
    true
}

/// Whether a rating without the chain shows that it is needed: it is without error, and the
/// puzzle was not solved or has a higher score than `full_se`.
pub fn bears_load(without: &RateResult, full_se: u32) -> (b: bool)
    ensures
        b == (!without.rater_error && (!without.solved || without.se_milli > full_se)),
{
    !without.rater_error && (!without.solved || without.se_milli > full_se)
}

/// A puzzle is kept for its rating and, where that is asked for, its rating without the chain.
pub open spec fn kept_for(rate: RateResult, without: Option<RateResult>, spec: CfcReverseSpec) -> bool {
    &&& accepted(rate, spec)
    &&& spec.require_load_bearing ==> without is Some && !(without->0).rater_error && (
    !(without->0).solved || (without->0).se_milli > rate.se_milli)
}

/// Whether a puzzle is kept for its rating and its rating without the chain.
pub fn keeps(rate: &RateResult, without: &Option<RateResult>, spec: &CfcReverseSpec) -> (b: bool)
    ensures
        b == kept_for(*rate, *without, *spec),
{
    is_accept(rate, spec) && (!spec.require_load_bearing || match without {
        Some(w) => bears_load(w, rate.se_milli),
        None => false,
    })
}

/// `without` is an answer that a rater can give for the puzzle without the chain. It is asked for
/// that only where the rating is sought and the chain has to be needed.
pub open spec fn is_asked_further<
    const N: usize,
    const BR: usize,
    const BC: usize,
    R: Rater<N, BR, BC>,
>(spec: CfcReverseSpec, g: Grid<N, BR, BC>, rate: RateResult, without: Option<RateResult>) -> bool {
    if spec.require_load_bearing && accepted(rate, spec) {
        without is Some && rater::may_say_without::<N, BR, BC, R>(
            g,
            seq![TechniqueId::CellForcingChain],
            without->0,
        )
    } else {
        without is None
    }
}

/// The ratings of a puzzle are answers that a rater can give.
pub open spec fn are_answers<const N: usize, const BR: usize, const BC: usize, R: Rater<N, BR, BC>>(
    spec: CfcReverseSpec,
    g: Grid<N, BR, BC>,
    rate: RateResult,
    without: Option<RateResult>,
) -> bool {
    rater::may_say::<N, BR, BC, R>(g, rate) && is_asked_further::<N, BR, BC, R>(
        spec,
        g,
        rate,
        without,
    )
}

/// A rater can answer so that the puzzle with the clues `v` is not kept.
pub open spec fn may_decline<const N: usize, const BR: usize, const BC: usize, R: Rater<N, BR, BC>>(
    spec: CfcReverseSpec,
    v: Seq<int>,
) -> bool {
    exists|g: Grid<N, BR, BC>, rate: RateResult, without: Option<RateResult>|
        g.shows(v) && #[trigger] are_answers::<N, BR, BC, R>(spec, g, rate, without) && !kept_for(
            rate,
            without,
            spec,
        )
}

/// A rater can answer so that `x` is kept, whose puzzle has the clues `v`.
pub open spec fn may_keep<const N: usize, const BR: usize, const BC: usize, R: Rater<N, BR, BC>>(
    spec: CfcReverseSpec,
    v: Seq<int>,
    x: ReverseResult<N, BR, BC>,
) -> bool {
    x.puzzle.shows(v) && exists|without: Option<RateResult>| #[trigger]
        are_answers::<N, BR, BC, R>(spec, x.puzzle, x.rate, without) && kept_for(
            x.rate,
            without,
            spec,
        )
}

/// Whether a puzzle is kept, for what the rater says of it: its rating is sought, and
/// without the chain it is harder if that is asked for.
fn is_kept<const N: usize, const BR: usize, const BC: usize, R: Rater<N, BR, BC>>(
    rater: &mut R,
    puzzle: &Grid<N, BR, BC>,
    rate: &RateResult,
    spec: &CfcReverseSpec,
) -> (b: bool)
    ensures
        b ==> accepted(*rate, *spec),
        accepted(*rate, *spec) && !spec.require_load_bearing ==> b,
        exists|without: Option<RateResult>| #[trigger]
            is_asked_further::<N, BR, BC, R>(*spec, *puzzle, *rate, without) && b == kept_for(
                *rate,
                without,
                *spec,
            ),
{
    let without: Option<RateResult> = if spec.require_load_bearing && is_accept(rate, spec) {
        let ids: Vec<TechniqueId> = vec![TechniqueId::CellForcingChain];
        assert(ids@ =~= seq![TechniqueId::CellForcingChain]);
        Some(rater.rate_excluding(puzzle, &ids))
    } else {
        None
    };
    assert(is_asked_further::<N, BR, BC, R>(*spec, *puzzle, *rate, without));
    keeps(rate, &without, spec)
}

/// The number of clues that are tried for a seed.
pub open spec fn trials_per_seed(attempts_per_seed: u32, cells: int) -> int {
    if attempts_per_seed == 0 {
        cells
    } else {
        attempts_per_seed as int
    }
}

/// Where the taking away of clues stands: the cells of the clues that are left, and the number
/// of clues that were tried.
pub struct Trim {
    pub keep: Seq<bool>,
    pub trials: nat,
}

/// The state after the first `k` cells of `order` were visited: each clue is taken away if the
/// rest still has no other solution.
pub open spec fn trimmed(g: Dims, solved: Seq<u8>, keep: Seq<bool>, order: Seq<u16>, k: int) -> Trim
    decreases k,
{
    if k <= 0 {
        Trim { keep, trials: 0 }
    } else {
        let t = trimmed(g, solved, keep, order, k - 1);
        let c = order[k - 1] as int;
        let less = t.keep.update(c, false);
        if !t.keep[c] {
            t
        } else if carving::only_solution(
            g,
            carving::kept(solved, less),
            solutions::digits_of(solved),
        ) {
            Trim { keep: less, trials: t.trials + 1 }
        } else {
            Trim { keep: t.keep, trials: t.trials + 1 }
        }
    }
}

/// The solution and the cells of the clues of the seed that a generator with the words `words`
/// leads to, and its words afterwards.
pub open spec fn drawn_seed(g: Dims, spec: CfcReverseSpec, words: Seq<u64>) -> (
    Seq<u8>,
    Seq<bool>,
    Seq<u64>,
) {
    if spec.clue_min == spec.clue_max {
        guided_removal::drawn_clues(g, spec.clue_min, words)
    } else {
        let target = rng::between_of(spec.clue_min, spec.clue_max, words);
        guided_removal::drawn_clues(g, target.0, target.1)
    }
}

/// `x` is the seed, or what is left of it after some of the trials.
pub open spec fn comes_from_seed<const N: usize, const BR: usize, const BC: usize>(
    x: ReverseResult<N, BR, BC>,
    seed: (Seq<u8>, Seq<bool>, Seq<u64>),
) -> bool {
    let g = Grid::<N, BR, BC>::shape();
    let order = generator::drawn_order(g.cells() as nat, seed.2).0;
    &&& x.solution.solved@ == seed.0
    &&& x.attempts_taken == 1 && x.puzzle.shows(carving::kept(seed.0, seed.1)) || exists|k: int|
        1 <= k <= g.cells() && {
            let t = #[trigger] trimmed(g, seed.0, seed.1, order, k);
            x.attempts_taken == t.trials && x.puzzle.shows(carving::kept(seed.0, t.keep))
        }
}

/// The clues that are left of a seed after the first `k` cells were visited.
pub open spec fn clues_at(g: Dims, seed: (Seq<u8>, Seq<bool>, Seq<u64>), k: int) -> Seq<int> {
    let order = generator::drawn_order(g.cells() as nat, seed.2).0;
    carving::kept(seed.0, trimmed(g, seed.0, seed.1, order, k).keep)
}

/// What is left of a seed after `k` cells is rated: the seed itself, and then whatever is left
/// each time that a clue was taken away, as long as there are trials.
pub open spec fn is_rated(
    g: Dims,
    spec: CfcReverseSpec,
    seed: (Seq<u8>, Seq<bool>, Seq<u64>),
    k: int,
) -> bool {
    let order = generator::drawn_order(g.cells() as nat, seed.2).0;
    k == 0 || {
        let before = trimmed(g, seed.0, seed.1, order, k - 1);
        &&& before.trials < trials_per_seed(spec.attempts_per_seed, g.cells())
        &&& trimmed(g, seed.0, seed.1, order, k).keep != before.keep
    }
}

/// A rater can answer so that what is left of a seed after `k` cells is not kept.
pub open spec fn may_decline_at<const N: usize, const BR: usize, const BC: usize, R: Rater<N, BR, BC>>(
    spec: CfcReverseSpec,
    seed: (Seq<u8>, Seq<bool>, Seq<u64>),
    k: int,
) -> bool {
    may_decline::<N, BR, BC, R>(spec, clues_at(Grid::<N, BR, BC>::shape(), seed, k))
}

/// A rater can answer so that nothing of what is rated up to cell `k` is kept.
pub open spec fn may_decline_upto<
    const N: usize,
    const BR: usize,
    const BC: usize,
    R: Rater<N, BR, BC>,
>(spec: CfcReverseSpec, seed: (Seq<u8>, Seq<bool>, Seq<u64>), k: int) -> bool {
    forall|j: int|
        0 <= j <= k && is_rated(Grid::<N, BR, BC>::shape(), spec, seed, j)
            ==> #[trigger] may_decline_at::<N, BR, BC, R>(spec, seed, j)
}

/// `x` is what is left of a seed after `k` cells, and the first that is kept.
pub open spec fn may_keep_at<const N: usize, const BR: usize, const BC: usize, R: Rater<N, BR, BC>>(
    spec: CfcReverseSpec,
    seed: (Seq<u8>, Seq<bool>, Seq<u64>),
    k: int,
    x: ReverseResult<N, BR, BC>,
) -> bool {
    let g = Grid::<N, BR, BC>::shape();
    let order = generator::drawn_order(g.cells() as nat, seed.2).0;
    &&& 0 <= k <= g.cells()
    &&& is_rated(g, spec, seed, k)
    &&& may_decline_upto::<N, BR, BC, R>(spec, seed, k - 1)
    &&& may_keep::<N, BR, BC, R>(spec, clues_at(g, seed, k), x)
    &&& x.attempts_taken == if k == 0 {
        1
    } else {
        trimmed(g, seed.0, seed.1, order, k).trials
    }
}

/// A seed can lead to `r`: to the first of what is rated that is kept, to nothing if none is.
pub open spec fn may_lead_to<const N: usize, const BR: usize, const BC: usize, R: Rater<N, BR, BC>>(
    spec: CfcReverseSpec,
    seed: (Seq<u8>, Seq<bool>, Seq<u64>),
    r: Option<ReverseResult<N, BR, BC>>,
) -> bool {
    match r {
        Some(x) => x.wf() && x.solution.solved@ == seed.0 && exists|k: int| #[trigger]
            may_keep_at::<N, BR, BC, R>(spec, seed, k, x),
        None => may_decline_upto::<N, BR, BC, R>(spec, seed, Grid::<N, BR, BC>::shape().cells()),
    }
}

/// There are no fewer trials later on.
proof fn lemma_trials_grow(g: Dims, solved: Seq<u8>, keep: Seq<bool>, order: Seq<u16>, j: int, k: int)
    requires
        j <= k,
    ensures
        trimmed(g, solved, keep, order, j).trials <= trimmed(g, solved, keep, order, k).trials,
    decreases k - j,
{
    if j < k {
        lemma_trials_grow(g, solved, keep, order, j, k - 1);
    }
}

/// Tries one seed: the seed itself, and then what is left of it as clues are taken away.
pub fn try_seed<const N: usize, const BR: usize, const BC: usize, R: Rater<N, BR, BC>>(
    rng: &mut Xoshiro256PlusPlus,
    rater: &mut R,
    spec: &CfcReverseSpec,
) -> (r: Option<ReverseResult<N, BR, BC>>)
    requires
        Grid::<N, BR, BC>::shape().ok(),
        spec.is_valid(),
    ensures
        r matches Some(x) ==> x.wf() && accepted(x.rate, *spec) && 1 <= x.attempts_taken && (
        x.attempts_taken == 1 || x.attempts_taken <= trials_per_seed(
            spec.attempts_per_seed,
            Grid::<N, BR, BC>::shape().cells(),
        )),
        ({
            let seed = drawn_seed(Grid::<N, BR, BC>::shape(), *spec, rng::state(*old(rng)));
            &&& r matches Some(x) ==> comes_from_seed(x, seed)
            &&& may_lead_to::<N, BR, BC, R>(*spec, seed, r)
            &&& rng::state(*final(rng)) == seed.2 && r is Some || rng::state(*final(rng))
                == generator::drawn_order((N * N) as nat, seed.2).1
        }),
{
    let ghost sh = Grid::<N, BR, BC>::shape();
    proof {
        peer_tables::lemma_cells_bound(sh);
    }
    let nn: usize = N * N;
    let target_clues: u32 = if spec.clue_min == spec.clue_max {
        spec.clue_min
    } else {
        rng::between(spec.clue_min, spec.clue_max, rng)
    };
    let (solution, mut keep) = guided_removal::seed_clues::<N, BR, BC>(rng, target_clues);
    let ghost drawn = drawn_seed(sh, *spec, rng::state(*old(rng)));
    let ghost keep0 = keep@;
    let ghost solved = solution.solved@;
    assert(drawn == (solved, keep0, rng::state(*rng)));
    let ghost s = solutions::digits_of(solved);
    let (seed, seed_count) = guided_removal::kept_puzzle(&solution, &keep);
    let rate = rater.rate(&seed);
    let kept_now: bool = is_kept(rater, &seed, &rate, spec);
    let ghost without = choose|without: Option<RateResult>| #[trigger]
        is_asked_further::<N, BR, BC, R>(*spec, seed, rate, without) && kept_now == kept_for(
            rate,
            without,
            *spec,
        );
    assert(are_answers::<N, BR, BC, R>(*spec, seed, rate, without));
    assert(kept_now == kept_for(rate, without, *spec));
    assert(clues_at(sh, drawn, 0) == carving::kept(solved, keep0));
    if kept_now {
        let x = ReverseResult {
            puzzle: seed,
            solution,
            rate,
            clue_count: seed_count,
            attempts_taken: 1,
        };
        assert(are_answers::<N, BR, BC, R>(*spec, x.puzzle, x.rate, without));
        assert(kept_for(x.rate, without, *spec));
        assert(may_keep::<N, BR, BC, R>(*spec, clues_at(sh, drawn, 0), x));
        assert(may_keep_at::<N, BR, BC, R>(*spec, drawn, 0, x));
        return Some(x);
    }
    assert(!kept_for(rate, without, *spec));
    assert(may_decline::<N, BR, BC, R>(*spec, clues_at(sh, drawn, 0)));
    assert(may_decline_at::<N, BR, BC, R>(*spec, drawn, 0));
    let order: Vec<u16> = generator::random_order(nn, rng);
    let max_trials: u32 = if spec.attempts_per_seed == 0 {
        nn as u32
    } else {
        spec.attempts_per_seed
    };
    let mut trials: u32 = 0;
    let mut k: usize = 0;
    while k < order.len() && trials < max_trials
        invariant
            sh == Grid::<N, BR, BC>::shape(),
            sh.ok(),
            sh.cells() <= 961,
            nn == sh.cells(),
            generator::is_full(solution),
            solved == solution.solved@,
            s == solutions::digits_of(solved),
            keep@.len() == N * N,
            carving::only_solution(sh, carving::kept(solved, keep@), s),
            forall|i: int| 0 <= i < order@.len() ==> (#[trigger] order@[i]) < N * N,
            max_trials == trials_per_seed(spec.attempts_per_seed, sh.cells()),
            drawn == drawn_seed(sh, *spec, rng::state(*old(rng))),
            drawn.0 == solved && drawn.1 == keep0,
            order@.len() == nn,
            (order@, rng::state(*rng)) == generator::drawn_order(nn as nat, drawn.2),
            k <= nn,
            trimmed(sh, solved, keep0, order@, k as int) == (Trim {
                keep: keep@,
                trials: trials as nat,
            }),
            trials <= max_trials,
            may_decline_upto::<N, BR, BC, R>(*spec, drawn, k as int),
        decreases order@.len() - k,
    {
        let c: usize = order[k] as usize;
        let ghost k0 = k as int;
        assert(order@ == generator::drawn_order(sh.cells() as nat, drawn.2).0);
        k += 1;
        if keep[c] {
            trials += 1;
            let ghost was = keep@;
            keep.set(c, false);
            let ghost v1 = carving::kept(solved, keep@);
            assert(carving::part_of(v1, s));
            let v: Vec<u8> = carving::kept_clues(&solution.solved, &keep);
            let (trial, unique) = carving::trial_grid::<N, BR, BC>(
                solution.table_arc(),
                &v,
                Ghost(s),
            );
            if !unique {
                keep.set(c, true);
                assert(keep@ =~= was);
            } else {
                let rate = rater.rate(&trial);
                let kept_now: bool = is_kept(rater, &trial, &rate, spec);
                let ghost without = choose|without: Option<RateResult>| #[trigger]
                    is_asked_further::<N, BR, BC, R>(*spec, trial, rate, without) && kept_now
                        == kept_for(rate, without, *spec);
                proof {
                    assert(kept_now == kept_for(rate, without, *spec));
                    assert(are_answers::<N, BR, BC, R>(*spec, trial, rate, without));
                    assert(trimmed(sh, solved, keep0, order@, k as int).keep == keep@);
                    assert(clues_at(sh, drawn, k as int) == carving::kept(solved, keep@));
                    assert(trial.shows(carving::kept(solved, keep@)));
                    assert(!keep@[c as int] && was[c as int]);
                    assert(is_rated(sh, *spec, drawn, k as int));
                    if !kept_now {
                        assert(may_decline::<N, BR, BC, R>(*spec, clues_at(sh, drawn, k as int)));
                        assert(may_decline_at::<N, BR, BC, R>(*spec, drawn, k as int));
                    }
                }
                if kept_now {
                    let clue_count: u32 = carving::count_kept(&keep);
                    proof {
                        carving::lemma_kept_placed(solved, trial.solved@, keep@);
                    }
                    let x = ReverseResult {
                        puzzle: trial,
                        solution,
                        rate,
                        clue_count,
                        attempts_taken: trials,
                    };
                    assert(trimmed(sh, solved, keep0, order@, k as int) == (Trim {
                        keep: keep@,
                        trials: trials as nat,
                    }));
                    assert(x.puzzle.shows(carving::kept(solved, keep@)));
                    assert(order@ == generator::drawn_order(sh.cells() as nat, drawn.2).0);
                    assert(comes_from_seed(x, drawn));
                    assert(are_answers::<N, BR, BC, R>(*spec, x.puzzle, x.rate, without));
                    assert(kept_for(x.rate, without, *spec));
                    assert(may_keep::<N, BR, BC, R>(*spec, clues_at(sh, drawn, k as int), x));
                    assert(may_keep_at::<N, BR, BC, R>(*spec, drawn, k as int, x));
                    return Some(x);
                }
            }
        }
        proof {
            assert forall|j: int|
                0 <= j <= k && is_rated(sh, *spec, drawn, j) implies #[trigger] may_decline_at::<
                N,
                BR,
                BC,
                R,
            >(*spec, drawn, j) by {
                if j <= k0 {
                    assert(may_decline_at::<N, BR, BC, R>(*spec, drawn, j));
                }
            }
        }
    }
    proof {
        assert(order@ == generator::drawn_order(sh.cells() as nat, drawn.2).0);
        assert forall|j: int|
            0 <= j <= sh.cells() && is_rated(sh, *spec, drawn, j) implies #[trigger] may_decline_at::<
            N,
            BR,
            BC,
            R,
        >(*spec, drawn, j) by {
            if j > k {
                lemma_trials_grow(sh, solved, keep0, order@, k as int, j - 1);
            }
        }
    }
    None
}

/// The words that a generator holds after `n` seeds that led to nothing.
pub open spec fn words_after(g: Dims, spec: CfcReverseSpec, words: Seq<u64>, n: nat) -> Seq<u64>
    decreases n,
{
    if n == 0 {
        words
    } else {
        let before = words_after(g, spec, words, (n - 1) as nat);
        generator::drawn_order(g.cells() as nat, drawn_seed(g, spec, before).2).1
    }
}

/// `x` comes from one of the first `n` seeds that a generator with the words `words` leads to.
pub open spec fn comes_from_some<const N: usize, const BR: usize, const BC: usize>(
    x: ReverseResult<N, BR, BC>,
    spec: CfcReverseSpec,
    words: Seq<u64>,
    n: nat,
) -> bool {
    let g = Grid::<N, BR, BC>::shape();
    exists|k: nat|
        k < n && comes_from_seed(x, drawn_seed(g, spec, #[trigger] words_after(g, spec, words, k)))
}

/// The seed after `k` others that led to nothing can lead to `r`, for a generator that held the
/// words `words` before the first.
pub open spec fn seed_may_lead_to<
    const N: usize,
    const BR: usize,
    const BC: usize,
    R: Rater<N, BR, BC>,
>(spec: CfcReverseSpec, words: Seq<u64>, k: nat, r: Option<ReverseResult<N, BR, BC>>) -> bool {
    let g = Grid::<N, BR, BC>::shape();
    may_lead_to::<N, BR, BC, R>(spec, drawn_seed(g, spec, words_after(g, spec, words, k)), r)
}

/// The first `k` seeds can all lead to nothing.
pub open spec fn seeds_may_fail<const N: usize, const BR: usize, const BC: usize, R: Rater<N, BR, BC>>(
    spec: CfcReverseSpec,
    words: Seq<u64>,
    k: nat,
) -> bool {
    forall|i: nat| i < k ==> #[trigger] seed_may_lead_to::<N, BR, BC, R>(spec, words, i, None)
}

/// A search can find `r`: what the first of the seeds leads to that leads to anything.
pub open spec fn may_find<const N: usize, const BR: usize, const BC: usize, R: Rater<N, BR, BC>>(
    spec: CfcReverseSpec,
    words: Seq<u64>,
    r: Option<ReverseResult<N, BR, BC>>,
) -> bool {
    match r {
        Some(x) => exists|k: nat|
            k < spec.max_seeds && #[trigger] seed_may_lead_to::<N, BR, BC, R>(spec, words, k, r)
                && seeds_may_fail::<N, BR, BC, R>(spec, words, k),
        None => seeds_may_fail::<N, BR, BC, R>(spec, words, spec.max_seeds as nat),
    }
}

/// Tries up to `max_seeds` seeds until one leads to a puzzle that is sought.
pub fn cfc_reverse_construct<const N: usize, const BR: usize, const BC: usize, R: Rater<N, BR, BC>>(
    rater: &mut R,
    spec: &CfcReverseSpec,
) -> (r: Option<ReverseResult<N, BR, BC>>)
    requires
        Grid::<N, BR, BC>::shape().ok(),
    ensures
        !spec.is_valid() || spec.max_seeds == 0 ==> r is None,
        r matches Some(x) ==> x.wf() && accepted(x.rate, *spec) && comes_from_some(
            x,
            *spec,
            rng::seed_state(spec.rng_seed),
            spec.max_seeds as nat,
        ),
        spec.is_valid() ==> may_find::<N, BR, BC, R>(*spec, rng::seed_state(spec.rng_seed), r),
{
    if spec.validate().is_err() {
        return None;
    }
    let mut rng: Xoshiro256PlusPlus = rng::seeded(spec.rng_seed);
    let mut tried: u32 = 0;
    while tried < spec.max_seeds
        invariant
            Grid::<N, BR, BC>::shape().ok(),
            spec.is_valid(),
            tried <= spec.max_seeds,
            rng::state(rng) == words_after(
                Grid::<N, BR, BC>::shape(),
                *spec,
                rng::seed_state(spec.rng_seed),
                tried as nat,
            ),
            seeds_may_fail::<N, BR, BC, R>(
                *spec,
                rng::seed_state(spec.rng_seed),
                tried as nat,
            ),
        decreases spec.max_seeds - tried,
    {
        let ghost k = tried as nat;
        tried += 1;
        let found = try_seed(&mut rng, rater, spec);
        assert(seed_may_lead_to::<N, BR, BC, R>(
            *spec,
            rng::seed_state(spec.rng_seed),
            k,
            found,
        ));
        if found.is_some() {
            return found;
        }
    }
    None
}

/// A generator with the words `words` can hold the words `to` after the next seed. A seed that
/// is kept as it is leaves other words than one whose clues were tried.
pub open spec fn can_follow(g: Dims, spec: CfcReverseSpec, words: Seq<u64>, to: Seq<u64>) -> bool {
    let seed = drawn_seed(g, spec, words);
    to == seed.2 || to == generator::drawn_order(g.cells() as nat, seed.2).1
}

/// A generator with the words `from` can hold the words `to` after `n` seeds.
pub open spec fn can_reach(g: Dims, spec: CfcReverseSpec, from: Seq<u64>, to: Seq<u64>, n: nat) -> bool
    decreases n,
{
    if n == 0 {
        to == from
    } else {
        exists|words: Seq<u64>|
            can_reach(g, spec, from, words, (n - 1) as nat) && #[trigger] can_follow(
                g,
                spec,
                words,
                to,
            )
    }
}

/// `x` comes from one of the seeds of a worker, which goes on from a seed number of its own and
/// tries no more seeds than its share.
pub open spec fn comes_from_worker<const N: usize, const BR: usize, const BC: usize>(
    x: ReverseResult<N, BR, BC>,
    spec: CfcReverseSpec,
    rng_seed: u64,
    threads: usize,
) -> bool {
    let g = Grid::<N, BR, BC>::shape();
    exists|w: int, k: nat, words: Seq<u64>|
        0 <= w < reverse_construct::workers_for(threads) && k < reverse_construct::share_of_attempts(
            spec.max_seeds,
            reverse_construct::workers_for(threads),
        ) && #[trigger] can_reach(
            g,
            spec,
            rng::seed_state(reverse_construct::seed_of_worker(rng_seed, w)),
            words,
            k,
        ) && comes_from_seed(x, drawn_seed(g, spec, words))
}

/// What a batch goes by: the specification, the seed number, the share of seeds of each worker,
/// and the number of results.
pub struct Order {
    pub spec: CfcReverseSpec,
    pub rng_seed: u64,
    pub share: int,
    pub num: int,
}

/// The next seed of a worker, whose generator holds the words `v`, can make `b` of the results `a`
/// and leave the words `words`.
pub open spec fn takes_turn<const N: usize, const BR: usize, const BC: usize, R: Rater<N, BR, BC>>(
    o: Order,
    v: Seq<u64>,
    a: Seq<ReverseResult<N, BR, BC>>,
    words: Seq<u64>,
    b: Seq<ReverseResult<N, BR, BC>>,
) -> bool {
    let g = Grid::<N, BR, BC>::shape();
    &&& a.len() < o.num
    &&& can_follow(g, o.spec, v, words)
    &&& exists|r: Option<ReverseResult<N, BR, BC>>| #[trigger]
        may_lead_to::<N, BR, BC, R>(o.spec, drawn_seed(g, o.spec, v), r) && match r {
            Some(x) => b == a.push(x),
            None => b == a,
        }
}

/// `k` seeds of worker `w` can make `b` of the results `a` and leave the words `words`.
pub open spec fn works<const N: usize, const BR: usize, const BC: usize, R: Rater<N, BR, BC>>(
    o: Order,
    w: int,
    k: nat,
    a: Seq<ReverseResult<N, BR, BC>>,
    words: Seq<u64>,
    b: Seq<ReverseResult<N, BR, BC>>,
) -> bool
    decreases k,
{
    if k == 0 {
        words == rng::seed_state(reverse_construct::seed_of_worker(o.rng_seed, w)) && b == a
    } else {
        exists|v: Seq<u64>, f: Seq<ReverseResult<N, BR, BC>>|
            works::<N, BR, BC, R>(o, w, (k - 1) as nat, a, v, f) && #[trigger] takes_turn::<
                N,
                BR,
                BC,
                R,
            >(o, v, f, words, b)
    }
}

/// Worker `w` can make `b` of the results `a`: it tries seeds until its share is used up or there
/// are enough results.
pub open spec fn worker_adds<const N: usize, const BR: usize, const BC: usize, R: Rater<N, BR, BC>>(
    o: Order,
    w: int,
    a: Seq<ReverseResult<N, BR, BC>>,
    b: Seq<ReverseResult<N, BR, BC>>,
) -> bool {
    exists|k: nat, words: Seq<u64>| #[trigger]
        works::<N, BR, BC, R>(o, w, k, a, words, b) && k <= o.share && (k == o.share || b.len()
            >= o.num)
}

/// The first `w` workers can find `out` together, one after another.
pub open spec fn workers_find<const N: usize, const BR: usize, const BC: usize, R: Rater<N, BR, BC>>(
    o: Order,
    w: nat,
    out: Seq<ReverseResult<N, BR, BC>>,
) -> bool
    decreases w,
{
    if w == 0 {
        out.len() == 0
    } else {
        exists|a: Seq<ReverseResult<N, BR, BC>>|
            workers_find::<N, BR, BC, R>(o, (w - 1) as nat, a) && #[trigger] worker_adds::<
                N,
                BR,
                BC,
                R,
            >(o, w - 1, a, out)
    }
}

/// What a batch on so many threads goes by.
pub open spec fn order_for(spec: CfcReverseSpec, rng_seed: u64, num: u32, threads: usize) -> Order {
    Order {
        spec,
        rng_seed,
        share: reverse_construct::share_of_attempts(
            spec.max_seeds,
            reverse_construct::workers_for(threads),
        ) as int,
        num: num as int,
    }
}

/// Searches for up to `num_puzzles` puzzles. The seeds are shared out among `threads` workers,
/// at least one, each with a generator of its own, which take their turns one after another.
pub fn batch_cfc_reverse_construct<
    const N: usize,
    const BR: usize,
    const BC: usize,
    R: Rater<N, BR, BC>,
>(
    rng_seed: u64,
    rater: &mut R,
    spec: &CfcReverseSpec,
    num_puzzles: u32,
    threads: usize,
) -> (r: Vec<ReverseResult<N, BR, BC>>)
    requires
        Grid::<N, BR, BC>::shape().ok(),
    ensures
        r@.len() <= num_puzzles,
        !spec.is_valid() ==> r@.len() == 0,
        forall|i: int|
            0 <= i < r@.len() ==> (#[trigger] r@[i]).wf() && accepted(r@[i].rate, *spec)
                && comes_from_worker(r@[i], *spec, rng_seed, threads),
        spec.is_valid() ==> workers_find::<N, BR, BC, R>(
            order_for(*spec, rng_seed, num_puzzles, threads),
            reverse_construct::workers_for(threads) as nat,
            r@,
        ),
{
    let mut found: Vec<ReverseResult<N, BR, BC>> = Vec::new();
    if spec.validate().is_err() {
        return found;
    }
    let workers: usize = if threads == 0 {
        1
    } else {
        threads
    };
    let per_worker: u32 = reverse_construct::per_worker_attempts(spec.max_seeds, workers);
    let ghost o = order_for(*spec, rng_seed, num_puzzles, threads);
    let mut w: usize = 0;
    while w < workers
        invariant
            Grid::<N, BR, BC>::shape().ok(),
            spec.is_valid(),
            w <= workers,
            found@.len() <= num_puzzles,
            forall|i: int|
                0 <= i < found@.len() ==> (#[trigger] found@[i]).wf() && accepted(
                    found@[i].rate,
                    *spec,
                ) && comes_from_worker(found@[i], *spec, rng_seed, threads),
            workers == reverse_construct::workers_for(threads),
            per_worker == reverse_construct::share_of_attempts(spec.max_seeds, workers as int),
            o == order_for(*spec, rng_seed, num_puzzles, threads),
            workers_find::<N, BR, BC, R>(o, w as nat, found@),
        decreases workers - w,
    {
        let ghost at_first = found@;
        let mut rng: Xoshiro256PlusPlus = rng::seeded(reverse_construct::worker_seed(rng_seed, w));
        let mut used: u32 = 0;
        while used < per_worker && found.len() < num_puzzles as usize
            invariant
                Grid::<N, BR, BC>::shape().ok(),
                spec.is_valid(),
                found@.len() <= num_puzzles,
                forall|i: int|
                    0 <= i < found@.len() ==> (#[trigger] found@[i]).wf() && accepted(
                        found@[i].rate,
                        *spec,
                    ) && comes_from_worker(found@[i], *spec, rng_seed, threads),
                w < workers,
                workers == reverse_construct::workers_for(threads),
                per_worker == reverse_construct::share_of_attempts(spec.max_seeds, workers as int),
                used <= per_worker,
                o == order_for(*spec, rng_seed, num_puzzles, threads),
                works::<N, BR, BC, R>(
                    o,
                    w as int,
                    used as nat,
                    at_first,
                    rng::state(rng),
                    found@,
                ),
                can_reach(
                    Grid::<N, BR, BC>::shape(),
                    *spec,
                    rng::seed_state(reverse_construct::seed_of_worker(rng_seed, w as int)),
                    rng::state(rng),
                    used as nat,
                ),
            decreases per_worker - used,
        {
            let ghost words = rng::state(rng);
            let ghost f = found@;
            used += 1;
            let next = try_seed(&mut rng, rater, spec);
            proof {
                let from = rng::seed_state(reverse_construct::seed_of_worker(rng_seed, w as int));
                assert(can_reach(
                    Grid::<N, BR, BC>::shape(),
                    *spec,
                    from,
                    words,
                    (used as nat - 1) as nat,
                ));
                assert(can_follow(Grid::<N, BR, BC>::shape(), *spec, words, rng::state(rng)));
                assert(can_reach(
                    Grid::<N, BR, BC>::shape(),
                    *spec,
                    from,
                    rng::state(rng),
                    used as nat,
                ));
            }
            let ghost led_to = next;
            if let Some(x) = next {
                found.push(x);
            }
            proof {
                assert(may_lead_to::<N, BR, BC, R>(
                    o.spec,
                    drawn_seed(Grid::<N, BR, BC>::shape(), o.spec, words),
                    led_to,
                ));
                assert(takes_turn::<N, BR, BC, R>(o, words, f, rng::state(rng), found@));
                assert(works::<N, BR, BC, R>(
                    o,
                    w as int,
                    (used as nat - 1) as nat,
                    at_first,
                    words,
                    f,
                ));
            }
        }
        proof {
            assert(works::<N, BR, BC, R>(
                o,
                w as int,
                used as nat,
                at_first,
                rng::state(rng),
                found@,
            ));
            assert(worker_adds::<N, BR, BC, R>(o, (w + 1) as nat - 1, at_first, found@));
        }
        w += 1;
    }
    found
}

} // verus!
