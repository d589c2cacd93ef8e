//! What a climb makes of each proposal.

use super::climb::{BxbMutator, Candidate, Climb, ClimbRules, Verdict};
use super::entries;
use super::expand;
use super::puzzle_text;
use vstd::prelude::*;

verus! {

/// Nothing keeps the puzzle from being rated: its number of clues may be what it is, it is a
/// puzzle with one solution, and neither it nor a related one was looked at.
pub open spec fn is_welcome(
    a: Climb,
    rules: ClimbRules,
    before: Set<u128>,
    q: Seq<u8>,
) -> bool {
    &&& rules.mutator == BxbMutator::V3 || rules.allow_clue_count_change
        || puzzle_text::clue_total(q) == a.seed_clues
    &&& expand::is_puzzle(q)
    &&& expand::solved_by(q).len() == 1
    &&& !before.contains(entries::hash_text(q))
    &&& !a.seen@.contains(entries::hash_text(q))
}

/// A climb goes on from a welcome puzzle just if that is rated no lower than where it stands; and
/// then it puts the puzzle out just if the rating reaches the target.
pub proof fn law_good_puzzle_is_put_out(
    a: Climb,
    b: Climb,
    rules: ClimbRules,
    before: Set<u128>,
    v: Verdict,
    c: Candidate,
    x: u16,
)
    requires
        a.wf(),
        a.follows(&b, rules, before, v),
        a.answers(&b, rules, before, v, Some(c), Some(x)),
        is_welcome(a, rules, before, c.puzzle),
    ensures
        b.seen@ == a.seen@.insert(entries::hash_text(c.puzzle)),
        b.diag.n_rated == a.diag.n_rated + 1,
        x >= a.best_bxb ==> b.current.puzzle@ == c.puzzle && b.current.bxb == x && b.best_bxb == x
            && b.current.generation == a.current.generation + 1,
        x < a.best_bxb ==> b.current == a.current && b.best_bxb == a.best_bxb && b.outputs@
            == a.outputs@,
        x > a.best_bxb ==> b.stall == 0,
        x <= a.best_bxb ==> b.stall == a.stall + 1,
        x >= a.best_bxb && x >= rules.target_bxb ==> b.outputs@.len() == a.outputs@.len() + 1
            && b.outputs@.last().puzzle@ == c.puzzle && b.outputs@.last().bxb == x,
        x < rules.target_bxb ==> b.outputs@ == a.outputs@,
        x >= rules.target_bxb ==> b.diag.n_above_target == a.diag.n_above_target + 1,
        x < rules.target_bxb ==> b.diag.n_above_target == a.diag.n_above_target,
{
}

/// From any other proposal a climb does not go on: it stands where it stood, puts out nothing and
/// rates nothing.
pub proof fn law_unwelcome_puzzle_is_left(
    a: Climb,
    b: Climb,
    rules: ClimbRules,
    before: Set<u128>,
    v: Verdict,
    c: Candidate,
    rating: Option<u16>,
)
    requires
        a.wf(),
        a.follows(&b, rules, before, v),
        a.answers(&b, rules, before, v, Some(c), rating),
        !is_welcome(a, rules, before, c.puzzle),
    ensures
        b.current == a.current,
        b.best_bxb == a.best_bxb,
        b.outputs@ == a.outputs@,
        b.diag.n_rated == a.diag.n_rated,
        b.diag.n_above_target == a.diag.n_above_target,
{
}

/// Each step is counted once as proposed, and at most once as one of: of another number of clues,
/// looked at before, not unique, rated.
pub proof fn law_steps_are_counted(
    a: Climb,
    b: Climb,
    rules: ClimbRules,
    before: Set<u128>,
    v: Verdict,
)
    requires
        a.wf(),
        a.follows(&b, rules, before, v),
    ensures
        b.diag.n_mutations_proposed == a.diag.n_mutations_proposed + 1,
        b.iters == a.iters + 1,
        ({
            let n = (b.diag.n_clue_mismatch - a.diag.n_clue_mismatch) + (b.diag.n_canonical_dup
                - a.diag.n_canonical_dup) + (b.diag.n_uniqueness_fail - a.diag.n_uniqueness_fail)
                + (b.diag.n_rated - a.diag.n_rated);
            &&& 0 <= n <= 1
            &&& n == 0 ==> v == Verdict::NoCandidate || v == Verdict::Unreadable
            &&& v == Verdict::Unreadable ==> n == 0
            &&& v == Verdict::NoCandidate && rules.mutator != BxbMutator::V3 ==> n == 0
            &&& v == Verdict::NoCandidate && rules.mutator == BxbMutator::V3
                ==> b.diag.n_uniqueness_fail == a.diag.n_uniqueness_fail + 1
            &&& v == Verdict::ClueMismatch ==> b.diag.n_clue_mismatch == a.diag.n_clue_mismatch + 1
            &&& v == Verdict::Seen ==> b.diag.n_canonical_dup == a.diag.n_canonical_dup + 1
            &&& v == Verdict::NotUnique ==> b.diag.n_uniqueness_fail == a.diag.n_uniqueness_fail + 1
        }),
{
}

/// A climb rests once its outputs are to be handed over or its steps are used up.
pub proof fn law_climb_rests(a: Climb, rules: ClimbRules, budget_iters: int)
    ensures
        a.iters >= budget_iters ==> a.is_at_rest(rules, budget_iters),
        rules.mute@.len() == 0 ==> a.is_at_rest(rules, budget_iters),
        a.outputs@.len() == 0 && rules.mute@.len() > 0 && a.iters < budget_iters
            && a.current.generation < u32::MAX ==> !a.is_at_rest(rules, budget_iters),
{
}

} // verus!
