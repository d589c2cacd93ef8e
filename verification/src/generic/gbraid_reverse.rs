//! Puzzles whose first chain is a g-braid of about a given length.

use super::aic_reverse;
use super::carving;
use super::chain_rating;
use super::chain_rating::{build_post_brt_grid, rate_chain, ChainRating, GBraidSearch};
use super::generator;
use super::grid::Grid;
use super::guided_removal;
use super::peer_tables;
use super::rater;
use super::rater::{RateResult, Rater};
use super::reverse_construct;
use super::rng;
use super::solutions;
use super::techniques::TechniqueId;
use super::text;
use rand_xoshiro::Xoshiro256PlusPlus;
use vstd::prelude::*;

verus! {

/// What a puzzle has to be like.
#[derive(Clone, Copy, Debug)]
pub struct GBraidReverseSpec {
    /// The length that the first g-braid should have.
    pub target_k: u32,
    /// How far the length may be off.
    pub k_slack: u32,
    pub clue_min: u32,
    pub clue_max: u32,
    pub max_attempts: u32,
    /// The puzzle must not be solved without g-braids.
    pub load_bearing: bool,
    /// The seed of the generator.
    pub seed: u64,
}

impl GBraidReverseSpec {
    pub fn new_gb(target_k: u32, k_slack: u32, max_attempts: u32) -> (r: Self)
        ensures
            r.target_k == target_k,
            r.k_slack == k_slack,
            r.clue_min == 22,
            r.clue_max == 30,
            r.max_attempts == max_attempts,
            r.load_bearing,
            r.seed == 0,
    {
        GBraidReverseSpec {
            target_k,
            k_slack,
            clue_min: 22,
            clue_max: 30,
            max_attempts,
            load_bearing: true,
            seed: 0,
        }
    }

    /// The same with another seed.
    pub fn with_seed(self, seed: u64) -> (r: Self)
        ensures
            r == (GBraidReverseSpec { seed, ..self }),
    {
        let mut r = self;
        r.seed = seed;
        r
    }

    pub open spec fn is_valid(&self) -> bool {
        &&& self.clue_min <= self.clue_max <= 81
        &&& 3 <= self.target_k <= 36
    }

    /// Whether the specification can be met; else what is wrong with it first.
    pub fn validate(&self) -> (r: Result<(), String>)
        ensures
            r is Ok == self.is_valid(),
            r matches Err(m) ==> m@ == if self.clue_min > self.clue_max {
                text::band_message(
                    "clue_min"@,
                    self.clue_min as nat,
                    "clue_max"@,
                    self.clue_max as nat,
                )
            } else if self.target_k < 3 {
                "target_k ("@ + text::decimal(self.target_k as nat)
                    + ") must be >= 3 (g-braid minimum length is 3)"@
            } else if self.target_k > 36 {
                "target_k ("@ + text::decimal(self.target_k as nat)
                    + ") exceeds maximum chain length 36"@
            } else {
                "clue_max ("@ + text::decimal(self.clue_max as nat) + ") > 81"@
            },
    {
        if self.clue_min > self.clue_max {
            return Err(
                text::inverted_band(
                    "clue_min",
                    self.clue_min as u64,
                    "clue_max",
                    self.clue_max as u64,
                ),
            );
        }
        if self.target_k < 3 {
            return Err(
                text::around_number(
                    "target_k (",
                    self.target_k as u64,
                    ") must be >= 3 (g-braid minimum length is 3)",
                ),
            );
        }
        if self.target_k > 36 {
            return Err(
                text::around_number(
                    "target_k (",
                    self.target_k as u64,
                    ") exceeds maximum chain length 36",
                ),
            );
        }
        if self.clue_max > 81 {
            return Err(text::around_number("clue_max (", self.clue_max as u64, ") > 81"));
        }
        Ok(())
    }

    /// The length up to which g-braids are searched.
    pub open spec fn longest(&self) -> int {
        if self.target_k + self.k_slack < 36 {
            self.target_k + self.k_slack
        } else {
            36
        }
    }

    fn k_max(&self) -> (r: u8)
        requires
            self.is_valid(),
        ensures
            r == self.longest(),
    {
        let sum: u64 = self.target_k as u64 + self.k_slack as u64;
        if sum < 36 {
            sum as u8
        } else {
            36
        }
    }

    /// A length is near enough to the target.
    pub open spec fn near(&self, k: int) -> bool {
        aic_reverse::distance(k, self.target_k as int) <= self.k_slack
    }

    fn is_near(&self, k: u8) -> (r: bool)
        ensures
            r == self.near(k as int),
    {
        distance_to(k, self.target_k) <= self.k_slack as u64
    }
}

/// How far a length is off a target.
fn distance_to(k: u8, target: u32) -> (r: u64)
    ensures
        r == aic_reverse::distance(k as int, target as int),
{
    if k as u32 <= target {
        (target - k as u32) as u64
    } else {
        (k as u32 - target) as u64
    }
}

/// A puzzle that was constructed.
pub struct ConstructedGBraidPuzzle {
    pub puzzle: Grid<9, 3, 3>,
    pub solution: Grid<9, 3, 3>,
    /// The length of the g-braid that was found.
    pub fired_k: u32,
    pub clue_count: u32,
    pub seed_used: u64,
    /// The number of the attempt that succeeded, from one upwards.
    pub attempts_taken: u32,
}

impl Clone for ConstructedGBraidPuzzle {
    fn clone(&self) -> (r: Self)
        ensures
            r.puzzle.same(&self.puzzle),
            r.solution.same(&self.solution),
            r.fired_k == self.fired_k,
            r.clue_count == self.clue_count,
            r.seed_used == self.seed_used,
            r.attempts_taken == self.attempts_taken,
    {
        ConstructedGBraidPuzzle {
            puzzle: self.puzzle.clone(),
            solution: self.solution.clone(),
            fired_k: self.fired_k,
            clue_count: self.clue_count,
            seed_used: self.seed_used,
            attempts_taken: self.attempts_taken,
        }
    }
}

impl ConstructedGBraidPuzzle {
    /// The puzzle shows clues of the solution, which is its only one, and meets the
    /// specification.
    pub open spec fn wf(&self, spec: GBraidReverseSpec) -> bool {
        &&& spec.is_valid()
        &&& generator::is_full(self.solution)
        &&& self.puzzle.sound()
        &&& self.puzzle.solutions() == set![solutions::digits_of(self.solution.solved@)]
        &&& self.clue_count == solutions::placed(self.puzzle.solved@)
        &&& spec.clue_min <= self.clue_count <= spec.clue_max
        &&& spec.near(self.fired_k as int)
        &&& chain_rating::left_open(self.puzzle) is Some
    }
}

/// How well a grid meets the target, for what the search says of it: zero without a
/// g-braid, else one more than its length is off.
pub open spec fn score_of_reply(reply: Option<u8>, target: u32) -> int {
    match reply {
        Some(k) => 1 + aic_reverse::distance(k as int, target as int),
        None => 0,
    }
}

/// Whether a clue is given up that the solution does not need: without a g-braid so far
/// always; else the g-braid must not be lost, nor get further off the target.
pub open spec fn takes(current: int, next: int) -> bool {
    current == 0 || 1 <= next <= current
}

/// Where the search for a puzzle stands.
pub struct Removal {
    pub keep: Seq<bool>,
    pub score: int,
    pub stopped: bool,
}

/// One step: the clue of cell `c` is given up if the rest still determines the solution and
/// its score `next` is taken.
pub open spec fn removal_step(
    solved: Seq<u8>,
    clue_min: u32,
    r: Removal,
    c: int,
    next: int,
) -> Removal {
    let g = Grid::<9, 3, 3>::shape();
    if r.stopped || !r.keep[c] {
        r
    } else if carving::kept_count(r.keep) <= clue_min {
        Removal { stopped: true, ..r }
    } else {
        let keep = r.keep.update(c, false);
        if carving::only_solution(g, carving::kept(solved, keep), solutions::digits_of(solved))
            && takes(r.score, next) {
            Removal { keep, score: next, stopped: false }
        } else {
            r
        }
    }
}

/// The state after the first `k` cells of `order` were visited; `scores` are the scores of
/// the beginning and of the trials.
pub open spec fn removal(
    solved: Seq<u8>,
    keep: Seq<bool>,
    order: Seq<u16>,
    clue_min: u32,
    scores: Seq<int>,
    k: int,
) -> Removal
    decreases k,
{
    if k <= 0 {
        Removal { keep, score: scores[0], stopped: false }
    } else {
        removal_step(
            solved,
            clue_min,
            removal(solved, keep, order, clue_min, scores, k - 1),
            order[k - 1] as int,
            scores[k],
        )
    }
}

/// Whatever the scores, clues are only given up, the solution stays determined, and no more
/// are given up than the lower limit allows.
pub proof fn law_removal_keeps_solution(
    solved: Seq<u8>,
    keep: Seq<bool>,
    order: Seq<u16>,
    clue_min: u32,
    scores: Seq<int>,
    k: int,
)
    requires
        0 <= k <= order.len(),
        solved.len() == keep.len(),
        forall|i: int| 0 <= i < order.len() ==> (#[trigger] order[i]) < keep.len(),
        carving::only_solution(
            Grid::<9, 3, 3>::shape(),
            carving::kept(solved, keep),
            solutions::digits_of(solved),
        ),
    ensures
        ({
            let r = removal(solved, keep, order, clue_min, scores, k);
            &&& r.keep.len() == keep.len()
            &&& forall|i: int| 0 <= i < keep.len() && #[trigger] r.keep[i] ==> keep[i]
            &&& carving::only_solution(
                Grid::<9, 3, 3>::shape(),
                carving::kept(solved, r.keep),
                solutions::digits_of(solved),
            )
            &&& carving::kept_count(r.keep) >= clue_min || r.keep == keep
        }),
    decreases k,
{
    if k > 0 {
        law_removal_keeps_solution(solved, keep, order, clue_min, scores, k - 1);
        let r = removal(solved, keep, order, clue_min, scores, k - 1);
        let c = order[k - 1] as int;
        if r.keep[c] {
            carving::lemma_kept_count_update(r.keep, c);
        }
        let r2 = removal(solved, keep, order, clue_min, scores, k);
        assert forall|i: int| 0 <= i < keep.len() && #[trigger] r2.keep[i] implies keep[i] by {
            assert(r.keep[i]);
        }
    }
}

/// Later scores make no difference to earlier states.
proof fn lemma_later_scores(
    solved: Seq<u8>,
    keep: Seq<bool>,
    order: Seq<u16>,
    clue_min: u32,
    scores: Seq<int>,
    more: Seq<int>,
    k: int,
)
    requires
        0 <= k < scores.len(),
        scores.len() <= more.len(),
        forall|i: int| 0 <= i < scores.len() ==> #[trigger] more[i] == scores[i],
    ensures
        removal(solved, keep, order, clue_min, scores, k) == removal(
            solved,
            keep,
            order,
            clue_min,
            more,
            k,
        ),
    decreases k,
{
    assert(more[k] == scores[k]);
    if k > 0 {
        lemma_later_scores(solved, keep, order, clue_min, scores, more, k - 1);
    } else {
        assert(more[0] == scores[0]);
    }
}

/// A stopped search stays where it is.
proof fn lemma_stopped(
    solved: Seq<u8>,
    keep: Seq<bool>,
    order: Seq<u16>,
    clue_min: u32,
    scores: Seq<int>,
    k: int,
    m: int,
)
    requires
        0 <= k <= m,
        removal(solved, keep, order, clue_min, scores, k).stopped,
    ensures
        removal(solved, keep, order, clue_min, scores, m) == removal(
            solved,
            keep,
            order,
            clue_min,
            scores,
            k,
        ),
    decreases m - k,
{
    if k < m {
        lemma_stopped(solved, keep, order, clue_min, scores, k, m - 1);
    }
}

/// `reply` is what a search can say of a grid once its singles are placed: nothing, if they
/// leave nothing open.
pub open spec fn may_reply<S: GBraidSearch>(
    grid: Grid<9, 3, 3>,
    k_max: u8,
    reply: Option<u8>,
) -> bool {
    if chain_rating::left_open(grid) is None {
        reply is None
    } else {
        exists|h: Grid<9, 3, 3>|
            chain_rating::is_left(grid, h) && #[trigger] chain_rating::may_find_excluding::<S>(
                h,
                k_max,
                reply,
            )
    }
}

/// `score` is one that a search can give a puzzle with the clues `v`.
pub open spec fn may_score<S: GBraidSearch>(
    spec: GBraidReverseSpec,
    v: Seq<int>,
    score: int,
) -> bool {
    exists|g: Grid<9, 3, 3>, reply: Option<u8>|
        g.shows(v) && #[trigger] may_reply::<S>(g, spec.longest() as u8, reply) && score
            == score_of_reply(reply, spec.target_k)
}

/// A step at cell `c` asks for a score: the clue is there, it may be given up, and the rest
/// determines the solution.
pub open spec fn is_trial(solved: Seq<u8>, clue_min: u32, r: Removal, c: int) -> bool {
    &&& !r.stopped
    &&& r.keep[c]
    &&& carving::kept_count(r.keep) > clue_min
    &&& carving::only_solution(
        Grid::<9, 3, 3>::shape(),
        carving::kept(solved, r.keep.update(c, false)),
        solutions::digits_of(solved),
    )
}

/// The scores of the first `k` steps, and that of the beginning, are scores that a search can
/// give.
pub open spec fn are_scores<S: GBraidSearch>(
    spec: GBraidReverseSpec,
    solved: Seq<u8>,
    keep: Seq<bool>,
    order: Seq<u16>,
    scores: Seq<int>,
    k: int,
) -> bool {
    &&& may_score::<S>(spec, carving::kept(solved, keep), scores[0])
    &&& forall|j: int|
        1 <= j <= k ==> {
            let r = removal(solved, keep, order, spec.clue_min, scores, j - 1);
            let c = order[j - 1] as int;
            is_trial(solved, spec.clue_min, r, c) ==> may_score::<S>(
                spec,
                carving::kept(solved, r.keep.update(c, false)),
                #[trigger] scores[j],
            )
        }
}

/// A search can make `after` of the clues `keep`, which it visits in the order `order`.
pub open spec fn may_leave<S: GBraidSearch>(
    spec: GBraidReverseSpec,
    solved: Seq<u8>,
    keep: Seq<bool>,
    order: Seq<u16>,
    after: Seq<bool>,
) -> bool {
    exists|scores: Seq<int>|
        after == (#[trigger] removal(
            solved,
            keep,
            order,
            spec.clue_min,
            scores,
            order.len() as int,
        )).keep && are_scores::<S>(spec, solved, keep, order, scores, order.len() as int)
}

/// One more score that a search can give, if it is asked for one.
proof fn lemma_next_score<S: GBraidSearch>(
    spec: GBraidReverseSpec,
    solved: Seq<u8>,
    keep: Seq<bool>,
    order: Seq<u16>,
    scores: Seq<int>,
    next: int,
    k: int,
)
    requires
        k >= 0,
        scores.len() == k + 1,
        are_scores::<S>(spec, solved, keep, order, scores, k),
        ({
            let r = removal(solved, keep, order, spec.clue_min, scores, k);
            let c = order[k] as int;
            is_trial(solved, spec.clue_min, r, c) ==> may_score::<S>(
                spec,
                carving::kept(solved, r.keep.update(c, false)),
                next,
            )
        }),
    ensures
        are_scores::<S>(spec, solved, keep, order, scores.push(next), k + 1),
{
    let more = scores.push(next);
    assert forall|j: int| 1 <= j <= k + 1 implies ({
        let r = removal(solved, keep, order, spec.clue_min, more, j - 1);
        let c = order[j - 1] as int;
        is_trial(solved, spec.clue_min, r, c) ==> may_score::<S>(
            spec,
            carving::kept(solved, r.keep.update(c, false)),
            #[trigger] more[j],
        )
    }) by {
        lemma_later_scores(solved, keep, order, spec.clue_min, scores, more, j - 1);
        if j <= k {
            assert(more[j] == scores[j]);
        }
    }
}

/// A stopped search asks for no further scores.
proof fn lemma_no_more_scores<S: GBraidSearch>(
    spec: GBraidReverseSpec,
    solved: Seq<u8>,
    keep: Seq<bool>,
    order: Seq<u16>,
    scores: Seq<int>,
    k: int,
    m: int,
)
    requires
        0 <= k <= m,
        are_scores::<S>(spec, solved, keep, order, scores, k),
        removal(solved, keep, order, spec.clue_min, scores, k).stopped,
    ensures
        are_scores::<S>(spec, solved, keep, order, scores, m),
{
    assert forall|j: int| 1 <= j <= m implies ({
        let r = removal(solved, keep, order, spec.clue_min, scores, j - 1);
        let c = order[j - 1] as int;
        is_trial(solved, spec.clue_min, r, c) ==> may_score::<S>(
            spec,
            carving::kept(solved, r.keep.update(c, false)),
            #[trigger] scores[j],
        )
    }) by {
        if j > k {
            lemma_stopped(solved, keep, order, spec.clue_min, scores, k, j - 1);
        }
    }
}

/// What the search says of a grid once its singles are placed.
fn probe<S: GBraidSearch>(search: &mut S, grid: &Grid<9, 3, 3>, k_max: u8) -> (r: Option<u8>)
    requires
        grid.sound(),
    ensures
        may_reply::<S>(*grid, k_max, r),
{
    proof {
        solutions::lemma_placed_bound(grid.solved@);
    }
    match build_post_brt_grid(grid) {
        Some(h) => {
            let reply = search.find_first_gbraid_excluding_wgwb(&h, k_max);
            assert(chain_rating::is_left(*grid, h));
            assert(chain_rating::may_find_excluding::<S>(h, k_max, reply));
            reply
        },
        None => None,
    }
}

/// The score for what the search says.
pub fn gbraid_score(reply: Option<u8>, target: u32) -> (r: u64)
    ensures
        r == score_of_reply(reply, target),
{
    match reply {
        Some(k) => 1 + distance_to(k, target),
        None => 0,
    }
}

/// Visits the cells of `order` and gives up clues as `removal_step` says.
fn remove_clues<S: GBraidSearch>(
    search: &mut S,
    spec: &GBraidReverseSpec,
    solution: &Grid<9, 3, 3>,
    keep: &mut Vec<bool>,
    order: &Vec<u16>,
)
    requires
        spec.is_valid(),
        generator::is_full(*solution),
        old(keep)@.len() == 81,
        forall|i: int| 0 <= i < order@.len() ==> (#[trigger] order@[i]) < 81,
    ensures
        final(keep)@.len() == 81,
        may_leave::<S>(*spec, solution.solved@, old(keep)@, order@, final(keep)@),
{
    let ghost sh = Grid::<9, 3, 3>::shape();
    let ghost solved = solution.solved@;
    let ghost s = solutions::digits_of(solved);
    let ghost keep0 = keep@;
    let k_max: u8 = spec.k_max();
    let clue_min: u32 = spec.clue_min;
    proof {
        peer_tables::lemma_cells_bound(sh);
        assert(carving::part_of(carving::kept(solved, keep@), s));
    }
    let v0: Vec<u8> = carving::kept_clues(&solution.solved, keep);
    let (initial, _unique) = carving::trial_grid::<9, 3, 3>(solution.table_arc(), &v0, Ghost(s));
    let first = probe(search, &initial, k_max);
    let mut score: u64 = gbraid_score(first, spec.target_k);
    let ghost mut scores: Seq<int> = seq![score as int];
    proof {
        assert(solutions::digits_of(v0@) =~= carving::kept(solved, keep0));
        assert(may_reply::<S>(initial, spec.longest() as u8, first));
        assert(may_score::<S>(*spec, carving::kept(solved, keep0), scores[0]));
    }
    let mut k: usize = 0;
    let ghost all = order@.len() as int;
    while k < order.len()
        invariant
            sh == Grid::<9, 3, 3>::shape(),
            sh.ok(),
            spec.is_valid(),
            clue_min == spec.clue_min,
            generator::is_full(*solution),
            solved == solution.solved@,
            s == solutions::digits_of(solved),
            keep0 == old(keep)@,
            keep0.len() == 81,
            keep@.len() == 81,
            forall|i: int| 0 <= i < order@.len() ==> (#[trigger] order@[i]) < 81,
            k <= order@.len(),
            all == order@.len(),
            scores.len() == k + 1,
            removal(solved, keep0, order@, clue_min, scores, k as int) == (Removal {
                keep: keep@,
                score: score as int,
                stopped: false,
            }),
            k_max == spec.longest(),
            are_scores::<S>(*spec, solved, keep0, order@, scores, k as int),
        decreases order@.len() - k,
    {
        let c: usize = order[k] as usize;
        let ghost before = removal(solved, keep0, order@, clue_min, scores, k as int);
        let ghost mut said: int = 0;
        if keep[c] {
            let count: u32 = carving::count_kept(keep);
            if count <= clue_min {
                proof {
                    let more = scores.push(0);
                    lemma_later_scores(solved, keep0, order@, clue_min, scores, more, k as int);
                    lemma_stopped(solved, keep0, order@, clue_min, more, k as int + 1, all);
                    lemma_next_score::<S>(*spec, solved, keep0, order@, scores, 0, k as int);
                    lemma_no_more_scores::<S>(
                        *spec,
                        solved,
                        keep0,
                        order@,
                        more,
                        k as int + 1,
                        all,
                    );
                }
                return;
            }
            let ghost was = keep@;
            keep.set(c, false);
            let ghost v1 = carving::kept(solved, keep@);
            assert(carving::part_of(v1, s));
            let v: Vec<u8> = carving::kept_clues(&solution.solved, keep);
            let (trial, unique) = carving::trial_grid::<9, 3, 3>(
                solution.table_arc(),
                &v,
                Ghost(s),
            );
            let mut take: bool = false;
            if unique {
                let reply = probe(search, &trial, k_max);
                let next: u64 = gbraid_score(reply, spec.target_k);
                proof {
                    said = next as int;
                    assert(solutions::digits_of(v@) =~= v1);
                    assert(may_reply::<S>(trial, spec.longest() as u8, reply));
                    assert(may_score::<S>(*spec, v1, said));
                }
                if score == 0 || (1 <= next && next <= score) {
                    take = true;
                    score = next;
                }
            }
            if !take {
                keep.set(c, true);
                assert(keep@ =~= was);
            }
        }
        proof {
            let more = scores.push(said);
            lemma_next_score::<S>(*spec, solved, keep0, order@, scores, said, k as int);
            lemma_later_scores(solved, keep0, order@, clue_min, scores, more, k as int);
            scores = more;
        }
        k += 1;
    }
}

/// What the gates say of a puzzle, for what the searches said: a g-braid was found near the
/// target, and the rating is a g-braid near the target.
pub open spec fn passes(spec: GBraidReverseSpec, fired: Option<u8>, rating: Option<ChainRating>) -> bool {
    &&& fired matches Some(k) && spec.near(k as int)
    &&& rating matches Some(ChainRating::GB(k)) && spec.near(k as int)
}

/// Whether a puzzle is one that is sought: a g-braid was found near the target, and no other
/// kind of chain comes first.
pub fn is_gbraid_puzzle(
    spec: &GBraidReverseSpec,
    fired: Option<u8>,
    rating: Option<ChainRating>,
) -> (r: bool)
    ensures
        r == passes(*spec, fired, rating),
{
    let found: bool = match fired {
        Some(k) => spec.is_near(k),
        None => false,
    };
    let rated: bool = match rating {
        Some(ChainRating::GB(k)) => spec.is_near(k),
        _ => false,
    };
    found && rated
}

/// Whether a rating without g-braids shows that they are needed: it is without error and
/// the puzzle was not solved.
pub fn is_unsolved_without(r: &RateResult) -> (b: bool)
    ensures
        b == (!r.rater_error && !r.solved),
{
    !r.rater_error && !r.solved
}

/// The puzzle is what is sought, for what the searches said and, where g-braids have to be
/// needed, for its rating without them.
pub open spec fn is_sought(
    spec: GBraidReverseSpec,
    fired: Option<u8>,
    rating: Option<ChainRating>,
    without: Option<RateResult>,
) -> bool {
    &&& passes(spec, fired, rating)
    &&& spec.load_bearing ==> without is Some && !(without->0).rater_error && !(without->0).solved
}

/// Whether a puzzle is what is sought.
pub fn is_kept(
    spec: &GBraidReverseSpec,
    fired: Option<u8>,
    rating: Option<ChainRating>,
    without: &Option<RateResult>,
) -> (r: bool)
    ensures
        r == is_sought(*spec, fired, rating, *without),
{
    is_gbraid_puzzle(spec, fired, rating) && (!spec.load_bearing || match without {
        Some(w) => is_unsolved_without(w),
        None => false,
    })
}

/// The puzzle and its solution come out of the `n`-th attempt of a generator that held the
/// words `words` before the first, for some scores of the trials.
pub open spec fn is_attempt(
    spec: GBraidReverseSpec,
    x: ConstructedGBraidPuzzle,
    words: Seq<u64>,
) -> bool {
    let g = Grid::<9, 3, 3>::shape();
    let before = guided_removal::words_after(
        g,
        spec.clue_max,
        words,
        (x.attempts_taken - 1) as nat,
    );
    let drawn = guided_removal::drawn_attempt(g, spec.clue_max, before);
    &&& x.solution.solved@ == drawn.0
    &&& exists|scores: Seq<int>|
        x.puzzle.shows(
            carving::kept(
                drawn.0,
                (#[trigger] removal(
                    drawn.0,
                    drawn.1,
                    drawn.2,
                    spec.clue_min,
                    scores,
                    drawn.2.len() as int,
                )).keep,
            ),
        )
}

/// The answers are ones that a search and a rater can give for a puzzle: without a g-braid in it
/// neither is asked further, and the rater is asked only where g-braids have to be needed and
/// the gates are passed.
pub open spec fn are_answers<S: GBraidSearch, R: Rater<9, 3, 3>>(
    spec: GBraidReverseSpec,
    puzzle: Grid<9, 3, 3>,
    fired: Option<u8>,
    rating: Option<ChainRating>,
    without: Option<RateResult>,
) -> bool {
    let k_max = spec.longest() as u8;
    &&& chain_rating::may_fire::<S>(puzzle, k_max, fired)
    &&& if fired is None {
        rating is None && without is None
    } else {
        &&& chain_rating::may_rate::<S>(puzzle, k_max, rating)
        &&& match without {
            Some(w) => spec.load_bearing && passes(spec, fired, rating) && rater::may_say_without::<
                9,
                3,
                3,
                R,
            >(puzzle, seq![TechniqueId::GBraid], w),
            None => !(spec.load_bearing && passes(spec, fired, rating)),
        }
    }
}

/// The clues `keep` of a solution can lead to `r` in the `n`-th attempt: to nothing if there are
/// too few or too many; else to the puzzle, if it is what is sought.
pub open spec fn clues_lead_to<S: GBraidSearch, R: Rater<9, 3, 3>>(
    spec: GBraidReverseSpec,
    solved: Seq<u8>,
    keep: Seq<bool>,
    n: nat,
    r: Option<ConstructedGBraidPuzzle>,
) -> bool {
    let count = carving::kept_count(keep);
    if count < spec.clue_min || count > spec.clue_max {
        r is None
    } else {
        exists|
            puzzle: Grid<9, 3, 3>,
            fired: Option<u8>,
            rating: Option<ChainRating>,
            without: Option<RateResult>,
        |
            puzzle.shows(carving::kept(solved, keep)) && #[trigger] are_answers::<S, R>(
                spec,
                puzzle,
                fired,
                rating,
                without,
            ) && match r {
                Some(x) => {
                    &&& is_sought(spec, fired, rating, without)
                    &&& x.puzzle == puzzle
                    &&& x.solution.solved@ == solved
                    &&& fired == Some(x.fired_k as u8)
                    &&& x.fired_k <= 255
                    &&& x.clue_count == count
                    &&& x.seed_used == spec.seed
                    &&& x.attempts_taken == n
                },
                None => !is_sought(spec, fired, rating, without),
            }
    }
}

/// The `n`-th attempt of a generator that held the words `words` before the first can lead to
/// `r`.
pub open spec fn leads_to<S: GBraidSearch, R: Rater<9, 3, 3>>(
    spec: GBraidReverseSpec,
    words: Seq<u64>,
    n: nat,
    r: Option<ConstructedGBraidPuzzle>,
) -> bool {
    let g = Grid::<9, 3, 3>::shape();
    let before = guided_removal::words_after(g, spec.clue_max, words, (n - 1) as nat);
    let drawn = guided_removal::drawn_attempt(g, spec.clue_max, before);
    exists|keep: Seq<bool>| #[trigger]
        may_leave::<S>(spec, drawn.0, drawn.1, drawn.2, keep) && clues_lead_to::<S, R>(
            spec,
            drawn.0,
            keep,
            n,
            r,
        )
}

/// A search that begins with the words `words` can end with `r`: the attempt that it names leads
/// to it and those before it to nothing; without a result all attempts lead to nothing.
pub open spec fn is_run<S: GBraidSearch, R: Rater<9, 3, 3>>(
    spec: GBraidReverseSpec,
    words: Seq<u64>,
    r: Option<ConstructedGBraidPuzzle>,
) -> bool {
    let failed = match r {
        Some(x) => x.attempts_taken - 1,
        None => spec.max_attempts as int,
    };
    &&& r matches Some(x) ==> 1 <= x.attempts_taken <= spec.max_attempts && leads_to::<S, R>(
        spec,
        words,
        x.attempts_taken as nat,
        r,
    )
    &&& forall|i: nat| 1 <= i <= failed ==> #[trigger] leads_to::<S, R>(spec, words, i, None)
}

/// What the clues that are left can lead to, the attempt can lead to.
proof fn lemma_leads_to<S: GBraidSearch, R: Rater<9, 3, 3>>(
    spec: GBraidReverseSpec,
    words: Seq<u64>,
    n: nat,
    drawn: (Seq<u8>, Seq<bool>, Seq<u16>, Seq<u64>),
    keep: Seq<bool>,
    r: Option<ConstructedGBraidPuzzle>,
)
    requires
        drawn == guided_removal::drawn_attempt(
            Grid::<9, 3, 3>::shape(),
            spec.clue_max,
            guided_removal::words_after(
                Grid::<9, 3, 3>::shape(),
                spec.clue_max,
                words,
                (n - 1) as nat,
            ),
        ),
        may_leave::<S>(spec, drawn.0, drawn.1, drawn.2, keep),
        clues_lead_to::<S, R>(spec, drawn.0, keep, n, r),
    ensures
        leads_to::<S, R>(spec, words, n, r),
{
}

/// Searches for a puzzle whose first chain is a g-braid of about the target length. Each
/// attempt carves a puzzle out of a random solution, takes further clues away towards the
/// length, and rates it.
#[verifier::rlimit(40)]
pub fn gbraid_reverse_construct<S: GBraidSearch, R: Rater<9, 3, 3>>(
    spec: &GBraidReverseSpec,
    rng: &mut Xoshiro256PlusPlus,
    search: &mut S,
    rater: &mut R,
) -> (r: Option<ConstructedGBraidPuzzle>)
    ensures
        !spec.is_valid() || spec.max_attempts == 0 ==> r is None,
        r matches Some(x) ==> x.wf(*spec) && x.seed_used == spec.seed && 1 <= x.attempts_taken
            <= spec.max_attempts && is_attempt(*spec, x, rng::state(*old(rng))),
        spec.is_valid() ==> rng::state(*final(rng)) == guided_removal::words_after(
            Grid::<9, 3, 3>::shape(),
            spec.clue_max,
            rng::state(*old(rng)),
            match r {
                Some(x) => x.attempts_taken as nat,
                None => spec.max_attempts as nat,
            },
        ),
        spec.is_valid() ==> is_run::<S, R>(*spec, rng::state(*old(rng)), r),
{
    if spec.validate().is_err() {
        return None;
    }
    let k_max: u8 = spec.k_max();
    assert(Grid::<9, 3, 3>::shape().ok());
    let mut attempt: u32 = 0;
    while attempt < spec.max_attempts
        invariant
            Grid::<9, 3, 3>::shape().ok(),
            spec.is_valid(),
            k_max == spec.longest(),
            attempt <= spec.max_attempts,
            rng::state(*rng) == guided_removal::words_after(
                Grid::<9, 3, 3>::shape(),
                spec.clue_max,
                rng::state(*old(rng)),
                attempt as nat,
            ),
            forall|i: nat|
                1 <= i <= attempt ==> #[trigger] leads_to::<S, R>(
                    *spec,
                    rng::state(*old(rng)),
                    i,
                    None,
                ),
        decreases spec.max_attempts - attempt,
    {
        attempt += 1;
        let ghost start = rng::state(*old(rng));
        let ghost words = rng::state(*rng);
        let (solution, mut keep, order) = guided_removal::seed_attempt::<9, 3, 3>(
            rng,
            spec.clue_max,
        );
        let ghost keep0 = keep@;
        let ghost solved = solution.solved@;
        remove_clues(search, spec, &solution, &mut keep, &order);
        let ghost scores = choose|scores: Seq<int>|
            keep@ == (#[trigger] removal(
                solution.solved@,
                keep0,
                order@,
                spec.clue_min,
                scores,
                order@.len() as int,
            )).keep && are_scores::<S>(
                *spec,
                solution.solved@,
                keep0,
                order@,
                scores,
                order@.len() as int,
            );
        proof {
            law_removal_keeps_solution(
                solution.solved@,
                keep0,
                order@,
                spec.clue_min,
                scores,
                order@.len() as int,
            );
        }
        let (puzzle, clue_count) = guided_removal::kept_puzzle(&solution, &keep);
        let ghost drawn = guided_removal::drawn_attempt(
            Grid::<9, 3, 3>::shape(),
            spec.clue_max,
            words,
        );
        proof {
            assert((attempt as nat - 1) as nat == attempt - 1);
            assert(words == guided_removal::words_after(
                Grid::<9, 3, 3>::shape(),
                spec.clue_max,
                rng::state(*old(rng)),
                (attempt as nat - 1) as nat,
            ));
            assert(drawn.0 == solved && drawn.1 == keep0 && drawn.2 == order@);
            assert(may_leave::<S>(*spec, drawn.0, drawn.1, drawn.2, keep@));
        }
        if clue_count < spec.clue_min || clue_count > spec.clue_max {
            proof {
                assert(clues_lead_to::<S, R>(*spec, solved, keep@, attempt as nat, None));
                lemma_leads_to::<S, R>(*spec, start, attempt as nat, drawn, keep@, None);
            }
            continue;
        }
        proof {
            solutions::lemma_placed_bound(puzzle.solved@);
        }
        let fired: Option<u8> = match build_post_brt_grid(&puzzle) {
            Some(h) => {
                let reply = search.find_first_gbraid(&h, k_max);
                assert(chain_rating::is_left(puzzle, h));
                assert(chain_rating::may_find::<S>(h, k_max, reply));
                reply
            },
            None => None,
        };
        assert(chain_rating::may_fire::<S>(puzzle, k_max, fired));
        let fired_k: u32 = match fired {
            Some(k) => k as u32,
            None => {
                proof {
                    assert(are_answers::<S, R>(*spec, puzzle, fired, None, None));
                    assert(clues_lead_to::<S, R>(*spec, solved, keep@, attempt as nat, None));
                    lemma_leads_to::<S, R>(*spec, start, attempt as nat, drawn, keep@, None);
                }
                continue;
            },
        };
        let rating = rate_chain(&puzzle, k_max, search);
        let without: Option<RateResult> = if spec.load_bearing && is_gbraid_puzzle(
            spec,
            fired,
            rating,
        ) {
            let ids: Vec<TechniqueId> = vec![TechniqueId::GBraid];
            assert(ids@ =~= seq![TechniqueId::GBraid]);
            Some(rater.rate_excluding(&puzzle, &ids))
        } else {
            None
        };
        assert(are_answers::<S, R>(*spec, puzzle, fired, rating, without));
        if !is_kept(spec, fired, rating, &without) {
            proof {
                assert(clues_lead_to::<S, R>(*spec, solved, keep@, attempt as nat, None));
                lemma_leads_to::<S, R>(*spec, start, attempt as nat, drawn, keep@, None);
            }
            continue;
        }
        let x = ConstructedGBraidPuzzle {
            puzzle,
            solution,
            fired_k,
            clue_count,
            seed_used: spec.seed,
            attempts_taken: attempt,
        };
        proof {
            assert(words == guided_removal::words_after(
                Grid::<9, 3, 3>::shape(),
                spec.clue_max,
                rng::state(*old(rng)),
                (x.attempts_taken - 1) as nat,
            ));
            assert(drawn.0 == solved && drawn.1 == keep0 && drawn.2 == order@);
            assert(x.puzzle.shows(
                carving::kept(
                    solved,
                    removal(
                        solved,
                        keep0,
                        order@,
                        spec.clue_min,
                        scores,
                        order@.len() as int,
                    ).keep,
                ),
            ));
            assert(is_attempt(*spec, x, rng::state(*old(rng))));
            assert(clues_lead_to::<S, R>(*spec, solved, keep@, attempt as nat, Some(x)));
            lemma_leads_to::<S, R>(*spec, start, attempt as nat, drawn, keep@, Some(x));
        }
        return Some(x);
    }
    None
}

/// The same with a generator for the seed of the specification.
pub fn gbraid_reverse_construct_from_seed<S: GBraidSearch, R: Rater<9, 3, 3>>(
    spec: &GBraidReverseSpec,
    search: &mut S,
    rater: &mut R,
) -> (r: Option<ConstructedGBraidPuzzle>)
    ensures
        !spec.is_valid() || spec.max_attempts == 0 ==> r is None,
        r matches Some(x) ==> x.wf(*spec) && x.seed_used == spec.seed && 1 <= x.attempts_taken
            <= spec.max_attempts && is_attempt(*spec, x, rng::seed_state(spec.seed)),
        spec.is_valid() ==> is_run::<S, R>(*spec, rng::seed_state(spec.seed), r),
{
    let mut rng: Xoshiro256PlusPlus = rng::seeded(spec.seed);
    gbraid_reverse_construct(spec, &mut rng, search, rater)
}

/// A result of one of `workers` workers: it meets the specification, its seed is that of the
/// worker, and it comes out of an attempt of the worker, whose attempts do not exceed its share.
pub open spec fn comes_from_worker(
    spec: GBraidReverseSpec,
    x: ConstructedGBraidPuzzle,
    workers: int,
) -> bool {
    &&& x.wf(spec)
    &&& exists|w: int, m: nat|
        0 <= w < workers && x.seed_used == reverse_construct::seed_of_worker(spec.seed, w) && m
            + x.attempts_taken <= reverse_construct::share_of_attempts(spec.max_attempts, workers)
            && is_attempt(
            spec,
            x,
            #[trigger] reverse_construct::worker_words(
                Grid::<9, 3, 3>::shape(),
                spec.clue_max,
                spec.seed,
                w,
                m,
            ),
        )
}

/// What workers are to find: the attempts of each, and how many results are enough.
pub struct Order {
    pub spec: GBraidReverseSpec,
    pub share: int,
    pub num: int,
}

/// The specification for a turn of worker `w` after `u` of its attempts: its own seed, and the
/// attempts of one chunk.
pub open spec fn spec_for_turn(o: Order, w: int, u: nat) -> GBraidReverseSpec {
    GBraidReverseSpec {
        max_attempts: reverse_construct::chunk_of(o.share, u as int) as u32,
        seed: reverse_construct::seed_of_worker(o.spec.seed, w),
        ..o.spec
    }
}

/// Worker `w`, having used `u` of its attempts with the results at `f`, takes on a chunk of
/// attempts, which can lead to `used` attempts and the results `found`.
pub open spec fn takes_turn<S: GBraidSearch, R: Rater<9, 3, 3>>(
    o: Order,
    w: int,
    u: nat,
    f: Seq<ConstructedGBraidPuzzle>,
    used: nat,
    found: Seq<ConstructedGBraidPuzzle>,
) -> bool {
    let words = reverse_construct::worker_words(
        Grid::<9, 3, 3>::shape(),
        o.spec.clue_max,
        o.spec.seed,
        w,
        u,
    );
    let part = spec_for_turn(o, w, u);
    &&& u < o.share
    &&& f.len() < o.num
    &&& exists|r: Option<ConstructedGBraidPuzzle>| #[trigger]
        is_run::<S, R>(part, words, r) && match r {
            Some(x) => used == u + x.attempts_taken && found == f.push(x),
            None => used == u + part.max_attempts && found == f,
        }
}

/// `k` turns of worker `w` can lead from the results `a` to `b`, with `used` of its attempts.
pub open spec fn works<S: GBraidSearch, R: Rater<9, 3, 3>>(
    o: Order,
    w: int,
    k: nat,
    a: Seq<ConstructedGBraidPuzzle>,
    used: nat,
    b: Seq<ConstructedGBraidPuzzle>,
) -> bool
    decreases k,
{
    if k == 0 {
        used == 0 && b == a
    } else {
        exists|u: nat, f: Seq<ConstructedGBraidPuzzle>|
            works::<S, R>(o, w, (k - 1) as nat, a, u, f) && #[trigger] takes_turn::<S, R>(
                o,
                w,
                u,
                f,
                used,
                b,
            )
    }
}

/// Worker `w` can make `b` of the results `a`: it takes turns until its attempts are used up or
/// there are enough results.
pub open spec fn worker_adds<S: GBraidSearch, R: Rater<9, 3, 3>>(
    o: Order,
    w: int,
    a: Seq<ConstructedGBraidPuzzle>,
    b: Seq<ConstructedGBraidPuzzle>,
) -> bool {
    exists|k: nat, used: nat| #[trigger]
        works::<S, R>(o, w, k, a, used, b) && (used >= o.share || b.len() >= o.num)
}

/// The first `w` workers can find `out` together, one after another.
pub open spec fn workers_find<S: GBraidSearch, R: Rater<9, 3, 3>>(
    o: Order,
    w: nat,
    out: Seq<ConstructedGBraidPuzzle>,
) -> bool
    decreases w,
{
    if w == 0 {
        out.len() == 0
    } else {
        exists|a: Seq<ConstructedGBraidPuzzle>|
            workers_find::<S, R>(o, (w - 1) as nat, a) && #[trigger] worker_adds::<S, R>(
                o,
                w - 1,
                a,
                out,
            )
    }
}

/// The number of workers for `threads` threads: at least one.
pub open spec fn workers_for(threads: u32) -> int {
    if threads == 0 {
        1
    } else {
        threads as int
    }
}

/// What the workers of a batch are to find.
pub open spec fn order_for(spec: GBraidReverseSpec, num: u32, threads: u32) -> Order {
    Order {
        spec,
        share: reverse_construct::share_of_attempts(
            spec.max_attempts,
            workers_for(threads),
        ) as int,
        num: num as int,
    }
}

/// Searches for up to `num_puzzles` puzzles. The attempts are shared out among `threads`
/// workers, at least one, each with a generator of its own, which take their turns one after
/// another.
pub fn batch_gbraid_reverse_construct<S: GBraidSearch, R: Rater<9, 3, 3>>(
    spec: &GBraidReverseSpec,
    num_puzzles: u32,
    threads: u32,
    search: &mut S,
    rater: &mut R,
) -> (r: Vec<ConstructedGBraidPuzzle>)
    ensures
        r@.len() <= num_puzzles,
        !spec.is_valid() ==> r@.len() == 0,
        forall|i: int|
            0 <= i < r@.len() ==> comes_from_worker(
                *spec,
                #[trigger] r@[i],
                workers_for(threads),
            ),
        spec.is_valid() ==> workers_find::<S, R>(
            order_for(*spec, num_puzzles, threads),
            workers_for(threads) as nat,
            r@,
        ),
{
    let mut found: Vec<ConstructedGBraidPuzzle> = Vec::new();
    if spec.validate().is_err() {
        return found;
    }
    let workers: usize = if threads == 0 {
        1
    } else {
        threads as usize
    };
    let per_worker: u32 = reverse_construct::per_worker_attempts(spec.max_attempts, workers);
    let ghost o = order_for(*spec, num_puzzles, threads);
    let mut w: usize = 0;
    while w < workers
        invariant
            w <= workers,
            spec.is_valid(),
            found@.len() <= num_puzzles,
            forall|i: int|
                0 <= i < found@.len() ==> comes_from_worker(
                    *spec,
                    #[trigger] found@[i],
                    workers as int,
                ),
            per_worker == reverse_construct::share_of_attempts(spec.max_attempts, workers as int),
            workers == workers_for(threads),
            o == order_for(*spec, num_puzzles, threads),
            workers_find::<S, R>(o, w as nat, found@),
        decreases workers - w,
    {
        let ghost at_first = found@;
        let ghost mut turns: nat = 0;
        let seed: u64 = reverse_construct::worker_seed(spec.seed, w);
        let mut rng: Xoshiro256PlusPlus = rng::seeded(seed);
        let mut used: u32 = 0;
        while used < per_worker && found.len() < num_puzzles as usize
            invariant
                w < workers,
                spec.is_valid(),
                seed == reverse_construct::seed_of_worker(spec.seed, w as int),
                found@.len() <= num_puzzles,
                forall|i: int|
                    0 <= i < found@.len() ==> comes_from_worker(
                        *spec,
                        #[trigger] found@[i],
                        workers as int,
                    ),
                per_worker == reverse_construct::share_of_attempts(
                    spec.max_attempts,
                    workers as int,
                ),
                used <= per_worker,
                rng::state(rng) == reverse_construct::worker_words(
                    Grid::<9, 3, 3>::shape(),
                    spec.clue_max,
                    spec.seed,
                    w as int,
                    used as nat,
                ),
                workers == workers_for(threads),
                o == order_for(*spec, num_puzzles, threads),
                works::<S, R>(o, w as int, turns, at_first, used as nat, found@),
            decreases per_worker - used,
        {
            let ghost before = used as nat;
            let ghost f = found@;
            let ghost words = rng::state(rng);
            let chunk: u32 = reverse_construct::next_chunk(per_worker, used);
            let mut part: GBraidReverseSpec = *spec;
            part.max_attempts = chunk;
            part.seed = seed;
            let found_now = gbraid_reverse_construct(&part, &mut rng, search, rater);
            let ghost led_to = found_now;
            proof {
                guided_removal::lemma_words_add(
                    Grid::<9, 3, 3>::shape(),
                    spec.clue_max,
                    rng::seed_state(seed),
                    before,
                    if found_now is Some {
                        (found_now->0).attempts_taken as nat
                    } else {
                        chunk as nat
                    },
                );
            }
            match found_now {
                Some(x) => {
                    used = used + x.attempts_taken;
                    assert(x.wf(*spec));
                    assert(is_attempt(part, x, words));
                    assert(is_attempt(*spec, x, words));
                    assert(comes_from_worker(*spec, x, workers as int));
                    found.push(x);
                },
                None => {
                    used = used + chunk;
                },
            }
            proof {
                assert(part == spec_for_turn(o, w as int, before));
                assert(is_run::<S, R>(spec_for_turn(o, w as int, before), words, led_to));
                assert(takes_turn::<S, R>(o, w as int, before, f, used as nat, found@));
                assert(((turns + 1) - 1) as nat == turns);
                assert(works::<S, R>(o, w as int, turns + 1, at_first, used as nat, found@));
                turns = turns + 1;
            }
        }
        proof {
            assert(works::<S, R>(o, w as int, turns, at_first, used as nat, found@));
            assert(worker_adds::<S, R>(o, (w + 1) as nat - 1, at_first, found@));
        }
        w += 1;
    }
    found
}

} // verus!
