//! What the constructive searches share.

use super::generator;
use super::geometry::Dims;
use super::grid::Grid;
use super::guided_removal;
use super::rater;
use super::rater::{RateResult, Rater};
use super::solutions;
use super::rng;
use super::techniques;
use super::techniques::{tier_rank, Tier};
use rand_xoshiro::Xoshiro256PlusPlus;
use vstd::prelude::*;

verus! {

/// A puzzle that was constructed.
pub struct ReverseResult<const N: usize, const BR: usize, const BC: usize> {
    pub puzzle: Grid<N, BR, BC>,
    pub solution: Grid<N, BR, BC>,
    pub rate: RateResult,
    pub clue_count: u32,
    /// The number of the attempt that succeeded, from one upwards.
    pub attempts_taken: u32,
}

impl<const N: usize, const BR: usize, const BC: usize> ReverseResult<N, BR, BC> {
    /// The puzzle shows clues of the solution, which is its only one.
    pub open spec fn wf(&self) -> bool {
        &&& generator::is_full(self.solution)
        &&& self.puzzle.sound()
        &&& self.puzzle.solutions() == set![solutions::digits_of(self.solution.solved@)]
        &&& self.clue_count == solutions::placed(self.puzzle.solved@)
    }
}

/// The number that spreads the seeds of the workers.
pub const SEED_STRIDE: u64 = 0x9E3779B97F4A7C15;

/// The seed of worker `w`.
pub open spec fn seed_of_worker(seed: u64, w: int) -> u64 {
    ((seed + w * SEED_STRIDE) % 0x1_0000_0000_0000_0000) as u64
}

/// The seed of worker `w`: `w` strides on from the seed, modulo two to the 64.
pub fn worker_seed(seed: u64, w: usize) -> (r: u64)
    ensures
        r == seed_of_worker(seed, w as int),
{
    let m: u64 = (w as u64).wrapping_mul(SEED_STRIDE);
    let r: u64 = seed.wrapping_add(m);
    proof {
        let t = 0x1_0000_0000_0000_0000int;
        let p = w as int * SEED_STRIDE as int;
        assert(p >= 0) by (nonlinear_arith)
            requires
                w >= 0,
                SEED_STRIDE >= 0,
                p == w as int * SEED_STRIDE as int,
        ;
        assert(m == p % t);
        assert(r == (seed + m) % t);
        vstd::arithmetic::div_mod::lemma_add_mod_noop(seed as int, p, t);
        vstd::arithmetic::div_mod::lemma_small_mod(seed as nat, t as nat);
    }
    r
}

/// Attempts per worker: an equal share, rounded up; without a limit, as many as there
/// are numbers.
pub open spec fn share_of_attempts(max_attempts: u32, threads: int) -> u32 {
    if max_attempts == 0 {
        u32::MAX
    } else {
        ((max_attempts + threads - 1) / threads) as u32
    }
}

pub fn per_worker_attempts(max_attempts: u32, threads: usize) -> (r: u32)
    requires
        0 < threads,
    ensures
        r == share_of_attempts(max_attempts, threads as int),
        max_attempts != 0 ==> r * threads >= max_attempts,
        max_attempts != 0 ==> (r - 1) * threads < max_attempts,
{
    if max_attempts == 0 {
        u32::MAX
    } else {
        let less: u64 = max_attempts as u64 - 1;
        let q: u64 = less / threads as u64;
        proof {
            let t = threads as int;
            vstd::arithmetic::div_mod::lemma_fundamental_div_mod(less as int, t);
            vstd::arithmetic::div_mod::lemma_mod_bound(less as int, t);
            vstd::arithmetic::div_mod::lemma_hoist_over_denominator(less as int, 1, t as nat);
            assert(q * t == t * q) by (nonlinear_arith);
            assert((q + 1) * t == q * t + t) by (nonlinear_arith);
            assert(q <= less) by (nonlinear_arith)
                requires
                    q * t <= less,
                    t >= 1,
                    q >= 0,
            ;
        }
        q as u32 + 1
    }
}

/// Attempts that a worker takes on at once: what is left of its share, at most 32.
pub open spec fn chunk_of(share: int, used: int) -> int {
    if share <= used {
        0
    } else if share - used <= 32 {
        share - used
    } else {
        32
    }
}

/// Attempts that a worker takes on at once.
pub fn next_chunk(per_worker: u32, used: u32) -> (r: u32)
    ensures
        r == chunk_of(per_worker as int, used as int),
{
    if per_worker <= used {
        0
    } else if per_worker - used <= 32 {
        per_worker - used
    } else {
        32
    }
}

/// The rating names the technique `at` the target tier.
pub open spec fn rated_at(r: RateResult, target: Tier, id: techniques::TechniqueId) -> bool {
    &&& !r.rater_error
    &&& techniques::rank(r.tier) == techniques::rank(target)
    &&& r.frontier@.contains(id)
}

/// Whether the rating is without error, of the target tier, and names the technique.
pub fn is_rated_at(r: &RateResult, target: Tier, id: techniques::TechniqueId) -> (b: bool)
    ensures
        b == rated_at(*r, target, id),
{
    !r.rater_error && tier_rank(r.tier) == tier_rank(target) && techniques::contains_technique(
        &r.frontier,
        id,
    )
}

/// The rating without a technique is above the target tier.
pub open spec fn above_tier(r: RateResult, target: Tier) -> bool {
    !r.rater_error && techniques::rank(r.tier) > techniques::rank(target)
}

/// Whether a rating without a technique shows that the target tier needs it: it is
/// without error and of a harder tier.
pub fn is_above_tier(r: &RateResult, target: Tier) -> (b: bool)
    ensures
        b == above_tier(*r, target),
{
    !r.rater_error && tier_rank(r.tier) > tier_rank(target)
}

/// The rating without a technique shows, where that is asked for, that the target tier needs it.
pub open spec fn bears_load(required: bool, without: Option<RateResult>, target: Tier) -> bool {
    required ==> without is Some && above_tier(without->0, target)
}

/// What an attempt leads to: its puzzle, if the rating fits and the technique is needed where
/// that is asked for.
pub open spec fn outcome<const N: usize, const BR: usize, const BC: usize>(
    fits: bool,
    required: bool,
    target: Tier,
    without: Option<RateResult>,
    x: ReverseResult<N, BR, BC>,
) -> Option<ReverseResult<N, BR, BC>> {
    if fits && bears_load(required, without, target) {
        Some(x)
    } else {
        None
    }
}

/// The ratings of a puzzle are answers that a rater can give. It is asked for the rating without
/// the technique only where the first one fits and the technique has to be needed.
pub open spec fn are_answers<const N: usize, const BR: usize, const BC: usize, R: Rater<N, BR, BC>>(
    fits: bool,
    required: bool,
    id: techniques::TechniqueId,
    without: Option<RateResult>,
    x: ReverseResult<N, BR, BC>,
) -> bool {
    &&& rater::may_say::<N, BR, BC, R>(x.puzzle, x.rate)
    &&& if fits && required {
        without is Some && rater::may_say_without::<N, BR, BC, R>(
            x.puzzle,
            seq![id],
            without->0,
        )
    } else {
        without is None
    }
}

/// What an attempt leads to: its puzzle, if the rating fits and the technique is needed where
/// that is asked for.
pub fn judged<const N: usize, const BR: usize, const BC: usize>(
    fits: bool,
    required: bool,
    target: Tier,
    without: Option<RateResult>,
    x: ReverseResult<N, BR, BC>,
) -> (r: Option<ReverseResult<N, BR, BC>>)
    ensures
        r == outcome(fits, required, target, without, x),
{
    let needed: bool = match without {
        Some(w) => is_above_tier(&w, target),
        None => false,
    };
    if fits && (!required || needed) {
        Some(x)
    } else {
        None
    }
}

/// A search for one puzzle, with a limit on its attempts.
pub trait Construct<const N: usize, const BR: usize, const BC: usize> {
    /// What the search promises of a result besides that it is well formed.
    spec fn accepts(&self, x: ReverseResult<N, BR, BC>) -> bool;

    /// The search can be made; else it finds nothing and draws nothing.
    spec fn is_possible(&self) -> bool;

    /// The most clues that an attempt starts with.
    spec fn most_clues(&self) -> u32;

    /// The puzzle and its solution come out of the `n`-th attempt of a generator that held
    /// the words `words` before the first.
    spec fn draws(&self, x: ReverseResult<N, BR, BC>, words: Seq<u64>, n: nat) -> bool;

    /// The `n`-th attempt of a generator that held the words `words` before the first can lead
    /// to `r`.
    spec fn leads_to(&self, words: Seq<u64>, n: nat, r: Option<ReverseResult<N, BR, BC>>) -> bool;

    fn construct(&mut self, rng: &mut Xoshiro256PlusPlus, max_attempts: u32) -> (r: Option<
        ReverseResult<N, BR, BC>,
    >)
        requires
            Grid::<N, BR, BC>::shape().ok(),
        ensures
            forall|x: ReverseResult<N, BR, BC>| #[trigger]
                final(self).accepts(x) == old(self).accepts(x),
            final(self).is_possible() == old(self).is_possible(),
            final(self).most_clues() == old(self).most_clues(),
            forall|x: ReverseResult<N, BR, BC>, words: Seq<u64>, n: nat| #[trigger]
                final(self).draws(x, words, n) == old(self).draws(x, words, n),
            forall|words: Seq<u64>, n: nat, x: Option<ReverseResult<N, BR, BC>>| #[trigger]
                final(self).leads_to(words, n, x) == old(self).leads_to(words, n, x),
            !old(self).is_possible() ==> r is None,
            r matches Some(x) ==> old(self).leads_to(
                rng::state(*old(rng)),
                x.attempts_taken as nat,
                r,
            ),
            old(self).is_possible() ==> forall|i: nat|
                1 <= i <= (match r {
                    Some(x) => x.attempts_taken - 1,
                    None => max_attempts as int,
                }) ==> #[trigger] old(self).leads_to(rng::state(*old(rng)), i, None),
            r matches Some(x) ==> x.wf() && old(self).accepts(x) && 1 <= x.attempts_taken
                <= max_attempts && old(self).draws(
                x,
                rng::state(*old(rng)),
                x.attempts_taken as nat,
            ),
            rng::state(*final(rng)) == if old(self).is_possible() {
                guided_removal::words_after(
                    Grid::<N, BR, BC>::shape(),
                    old(self).most_clues(),
                    rng::state(*old(rng)),
                    match r {
                        Some(x) => x.attempts_taken as nat,
                        None => max_attempts as nat,
                    },
                )
            } else {
                rng::state(*old(rng))
            },
    ;
}

/// Up to `max` attempts can lead to `r`: it comes out of the first attempt that leads to
/// anything.
pub open spec fn is_run<const N: usize, const BR: usize, const BC: usize, C: Construct<N, BR, BC>>(
    job: C,
    words: Seq<u64>,
    max: nat,
    r: Option<ReverseResult<N, BR, BC>>,
) -> bool {
    let failed: int = match r {
        Some(x) => x.attempts_taken - 1,
        None => max as int,
    };
    &&& r matches Some(x) ==> 1 <= x.attempts_taken <= max && job.leads_to(
        words,
        x.attempts_taken as nat,
        r,
    )
    &&& forall|i: nat| 1 <= i <= failed ==> #[trigger] job.leads_to(words, i, None)
}

/// The words of worker `w` after `m` attempts. Every worker goes on from a seed of its own.
pub open spec fn worker_words(g: Dims, clue_max: u32, seed: u64, w: int, m: nat) -> Seq<u64> {
    guided_removal::words_after(g, clue_max, rng::seed_state(seed_of_worker(seed, w)), m)
}

/// The result comes out of an attempt of one of the workers, whose attempts do not exceed its
/// share.
pub open spec fn is_drawn<const N: usize, const BR: usize, const BC: usize, C: Construct<N, BR, BC>>(
    job: C,
    x: ReverseResult<N, BR, BC>,
    seed: u64,
    max_attempts: u32,
    threads: usize,
) -> bool {
    exists|w: int, m: nat|
        0 <= w < workers_for(threads) && m + x.attempts_taken <= share_of_attempts(
            max_attempts,
            workers_for(threads),
        ) && #[trigger] job.draws(
            x,
            worker_words(Grid::<N, BR, BC>::shape(), job.most_clues(), seed, w, m),
            x.attempts_taken as nat,
        )
}

/// What a batch goes by: the search, the seed, the share of attempts of each worker, and the
/// number of results.
pub struct Order<C> {
    pub job: C,
    pub seed: u64,
    pub share: int,
    pub num: int,
}

/// Worker `w`, having used `u` of its attempts with the results at `f`, takes on a chunk of
/// attempts, which can lead to `used` attempts and the results `found`.
pub open spec fn takes_turn<const N: usize, const BR: usize, const BC: usize, C: Construct<N, BR, BC>>(
    o: Order<C>,
    w: int,
    u: nat,
    f: Seq<ReverseResult<N, BR, BC>>,
    used: nat,
    found: Seq<ReverseResult<N, BR, BC>>,
) -> bool {
    let words = worker_words(Grid::<N, BR, BC>::shape(), o.job.most_clues(), o.seed, w, u);
    let chunk = chunk_of(o.share, u as int) as nat;
    &&& u < o.share
    &&& f.len() < o.num
    &&& exists|r: Option<ReverseResult<N, BR, BC>>| #[trigger]
        is_run::<N, BR, BC, C>(o.job, words, chunk, r) && match r {
            Some(x) => used == u + x.attempts_taken && found == f.push(x),
            None => used == u + chunk && found == f,
        }
}

/// `k` turns of worker `w` can lead from the results `a` to `b`, with `used` of its attempts.
pub open spec fn works<const N: usize, const BR: usize, const BC: usize, C: Construct<N, BR, BC>>(
    o: Order<C>,
    w: int,
    k: nat,
    a: Seq<ReverseResult<N, BR, BC>>,
    used: nat,
    b: Seq<ReverseResult<N, BR, BC>>,
) -> bool
    decreases k,
{
    if k == 0 {
        used == 0 && b == a
    } else {
        exists|u: nat, f: Seq<ReverseResult<N, BR, BC>>|
            works::<N, BR, BC, C>(o, w, (k - 1) as nat, a, u, f) && #[trigger] takes_turn::<
                N,
                BR,
                BC,
                C,
            >(o, w, u, f, used, b)
    }
}

/// Worker `w` can make `b` of the results `a`: it takes turns until its attempts are used up or
/// there are enough results.
pub open spec fn worker_adds<const N: usize, const BR: usize, const BC: usize, C: Construct<N, BR, BC>>(
    o: Order<C>,
    w: int,
    a: Seq<ReverseResult<N, BR, BC>>,
    b: Seq<ReverseResult<N, BR, BC>>,
) -> bool {
    exists|k: nat, used: nat| #[trigger]
        works::<N, BR, BC, C>(o, w, k, a, used, b) && (used >= o.share || b.len() >= o.num)
}

/// The first `w` workers can find `out` together, one after another.
pub open spec fn workers_find<const N: usize, const BR: usize, const BC: usize, C: Construct<N, BR, BC>>(
    o: Order<C>,
    w: nat,
    out: Seq<ReverseResult<N, BR, BC>>,
) -> bool
    decreases w,
{
    if w == 0 {
        out.len() == 0
    } else {
        exists|a: Seq<ReverseResult<N, BR, BC>>|
            workers_find::<N, BR, BC, C>(o, (w - 1) as nat, a) && #[trigger] worker_adds::<
                N,
                BR,
                BC,
                C,
            >(o, w - 1, a, out)
    }
}

/// A batch can find `out`: nothing if the search cannot be made; else what the workers find.
pub open spec fn may_find<const N: usize, const BR: usize, const BC: usize, C: Construct<N, BR, BC>>(
    job: C,
    seed: u64,
    max_attempts: u32,
    num: u32,
    threads: usize,
    out: Seq<ReverseResult<N, BR, BC>>,
) -> bool {
    let workers = workers_for(threads);
    if job.is_possible() {
        workers_find::<N, BR, BC, C>(
            Order {
                job,
                seed,
                share: share_of_attempts(max_attempts, workers) as int,
                num: num as int,
            },
            workers as nat,
            out,
        )
    } else {
        out.len() == 0
    }
}

/// The number of workers for `threads` threads: at least one.
pub open spec fn workers_for(threads: usize) -> int {
    if threads == 0 {
        1
    } else {
        threads as int
    }
}

/// Runs a search over and over until it has found `num_puzzles` puzzles or its attempts are
/// used up. These are shared out among `threads` workers, at least one, each with a
/// generator of its own; they take their turns one after another.
pub fn batch<const N: usize, const BR: usize, const BC: usize, C: Construct<N, BR, BC>>(
    job: &mut C,
    rng_seed: u64,
    max_attempts: u32,
    num_puzzles: u32,
    threads: usize,
) -> (r: Vec<ReverseResult<N, BR, BC>>)
    requires
        Grid::<N, BR, BC>::shape().ok(),
    ensures
        r@.len() <= num_puzzles,
        forall|i: int|
            0 <= i < r@.len() ==> (#[trigger] r@[i]).wf() && old(job).accepts(r@[i]),
        forall|i: int|
            0 <= i < r@.len() ==> is_drawn::<N, BR, BC, C>(
                *old(job),
                #[trigger] r@[i],
                rng_seed,
                max_attempts,
                threads,
            ),
        !old(job).is_possible() ==> r@.len() == 0,
        may_find::<N, BR, BC, C>(*old(job), rng_seed, max_attempts, num_puzzles, threads, r@),
{
    let workers: usize = if threads == 0 {
        1
    } else {
        threads
    };
    let per_worker: u32 = per_worker_attempts(max_attempts, workers);
    let mut found: Vec<ReverseResult<N, BR, BC>> = Vec::new();
    let ghost o = Order {
        job: *job,
        seed: rng_seed,
        share: per_worker as int,
        num: num_puzzles as int,
    };
    let mut w: usize = 0;
    while w < workers
        invariant
            Grid::<N, BR, BC>::shape().ok(),
            w <= workers,
            found@.len() <= num_puzzles,
            forall|x: ReverseResult<N, BR, BC>| #[trigger] job.accepts(x) == old(job).accepts(x),
            forall|i: int|
                0 <= i < found@.len() ==> (#[trigger] found@[i]).wf() && old(job).accepts(found@[i]),
            job.is_possible() == old(job).is_possible(),
            job.most_clues() == old(job).most_clues(),
            forall|x: ReverseResult<N, BR, BC>, words: Seq<u64>, n: nat| #[trigger]
                job.draws(x, words, n) == old(job).draws(x, words, n),
            !old(job).is_possible() ==> found@.len() == 0,
            workers == workers_for(threads),
            per_worker == share_of_attempts(max_attempts, workers as int),
            forall|i: int|
                0 <= i < found@.len() ==> is_drawn::<N, BR, BC, C>(
                    *old(job),
                    #[trigger] found@[i],
                    rng_seed,
                    max_attempts,
                    threads,
                ),
            o == (Order {
                job: *old(job),
                seed: rng_seed,
                share: per_worker as int,
                num: num_puzzles as int,
            }),
            forall|words: Seq<u64>, n: nat, x: Option<ReverseResult<N, BR, BC>>| #[trigger]
                job.leads_to(words, n, x) == old(job).leads_to(words, n, x),
            old(job).is_possible() ==> workers_find::<N, BR, BC, C>(o, w as nat, found@),
        decreases workers - w,
    {
        let ghost at_first = found@;
        let ghost mut turns: nat = 0;
        let mut rng: Xoshiro256PlusPlus = rng::seeded(worker_seed(rng_seed, w));
        let mut used: u32 = 0;
        while used < per_worker && found.len() < num_puzzles as usize
            invariant
                Grid::<N, BR, BC>::shape().ok(),
                found@.len() <= num_puzzles,
                forall|x: ReverseResult<N, BR, BC>| #[trigger] job.accepts(x) == old(job).accepts(x),
                forall|i: int|
                    0 <= i < found@.len() ==> (#[trigger] found@[i]).wf() && old(job).accepts(
                        found@[i],
                    ),
                w < workers,
                used <= per_worker,
                workers == workers_for(threads),
                per_worker == share_of_attempts(max_attempts, workers as int),
                job.is_possible() == old(job).is_possible(),
                job.most_clues() == old(job).most_clues(),
                forall|x: ReverseResult<N, BR, BC>, words: Seq<u64>, n: nat| #[trigger]
                    job.draws(x, words, n) == old(job).draws(x, words, n),
                !old(job).is_possible() ==> found@.len() == 0,
                old(job).is_possible() ==> rng::state(rng) == guided_removal::words_after(
                    Grid::<N, BR, BC>::shape(),
                    old(job).most_clues(),
                    rng::seed_state(seed_of_worker(rng_seed, w as int)),
                    used as nat,
                ),
                forall|i: int|
                    0 <= i < found@.len() ==> is_drawn::<N, BR, BC, C>(
                        *old(job),
                        #[trigger] found@[i],
                        rng_seed,
                        max_attempts,
                        threads,
                    ),
                o == (Order {
                    job: *old(job),
                    seed: rng_seed,
                    share: per_worker as int,
                    num: num_puzzles as int,
                }),
                forall|words: Seq<u64>, n: nat, x: Option<ReverseResult<N, BR, BC>>| #[trigger]
                    job.leads_to(words, n, x) == old(job).leads_to(words, n, x),
                old(job).is_possible() ==> works::<N, BR, BC, C>(
                    o,
                    w as int,
                    turns,
                    at_first,
                    used as nat,
                    found@,
                ),
            decreases per_worker - used,
        {
            let ghost f = found@;
            let ghost words = rng::state(rng);
            let chunk: u32 = next_chunk(per_worker, used);
            let ghost before = used as nat;
            let ghost prev = *job;
            let found_now = job.construct(&mut rng, chunk);
            let ghost led_to = found_now;
            proof {
                if old(job).is_possible() {
                    assert(words == worker_words(
                        Grid::<N, BR, BC>::shape(),
                        old(job).most_clues(),
                        rng_seed,
                        w as int,
                        before,
                    ));
                    let failed: int = match led_to {
                        Some(x) => x.attempts_taken - 1,
                        None => chunk as int,
                    };
                    assert forall|i: nat| 1 <= i <= failed implies #[trigger] old(job).leads_to(
                        words,
                        i,
                        None,
                    ) by {
                        assert(prev.leads_to(words, i, None));
                    }
                    if led_to is Some {
                        assert(prev.leads_to(
                            words,
                            (led_to->0).attempts_taken as nat,
                            led_to,
                        ));
                    }
                    assert(is_run::<N, BR, BC, C>(*old(job), words, chunk as nat, led_to));
                }
                guided_removal::lemma_words_add(
                    Grid::<N, BR, BC>::shape(),
                    old(job).most_clues(),
                    rng::seed_state(seed_of_worker(rng_seed, w as int)),
                    before,
                    if found_now is Some {
                        (found_now->0).attempts_taken as nat
                    } else {
                        chunk as nat
                    },
                );
            }
            match found_now {
                Some(x) => {
                    assert(old(job).draws(
                        x,
                        worker_words(
                            Grid::<N, BR, BC>::shape(),
                            old(job).most_clues(),
                            rng_seed,
                            w as int,
                            before,
                        ),
                        x.attempts_taken as nat,
                    ));
                    used = used + x.attempts_taken;
                    found.push(x);
                },
                None => {
                    used = used + chunk;
                },
            }
            proof {
                if old(job).is_possible() {
                    assert(is_run::<N, BR, BC, C>(
                        o.job,
                        worker_words(
                            Grid::<N, BR, BC>::shape(),
                            o.job.most_clues(),
                            o.seed,
                            w as int,
                            before,
                        ),
                        chunk_of(o.share, before as int) as nat,
                        led_to,
                    ));
                    assert(match led_to {
                        Some(x) => used == before + x.attempts_taken && found@ == f.push(x),
                        None => used == before + chunk && found@ == f,
                    });
                    assert(takes_turn::<N, BR, BC, C>(
                        o,
                        w as int,
                        before,
                        f,
                        used as nat,
                        found@,
                    ));
                    assert(((turns + 1) - 1) as nat == turns);
                    assert(works::<N, BR, BC, C>(
                        o,
                        w as int,
                        turns + 1,
                        at_first,
                        used as nat,
                        found@,
                    ));
                }
                turns = turns + 1;
            }
        }
        proof {
            if old(job).is_possible() {
                assert(works::<N, BR, BC, C>(
                    o,
                    w as int,
                    turns,
                    at_first,
                    used as nat,
                    found@,
                ));
                assert(worker_adds::<N, BR, BC, C>(o, (w + 1) as nat - 1, at_first, found@));
            }
        }
        w += 1;
    }
    found
}

} // verus!
