//! What the constrained generator asks of a puzzle.

use super::generator_constrained::{is_sought, stop_for, takes_step};
use super::rater::RateResult;
use super::spec::TechniqueChainSpec;
use super::techniques;
use super::techniques::{TechniqueId, Tier};
use vstd::prelude::*;

verus! {

/// A rating that meets a specification is without error and of the target tier, every required
/// technique was needed, and the clues are within the limits. Every such rating meets it.
pub proof fn law_every_required_technique(spec: TechniqueChainSpec, r: RateResult, clues: u32)
    ensures
        spec.is_met(r, clues) ==> !r.rater_error && r.tier == spec.target_tier && spec.clue_min
            <= clues && clues <= spec.clue_max,
        spec.is_met(r, clues) ==> forall|t: TechniqueId| #[trigger]
            spec.required_techniques@.contains(t) ==> r.frontier@.contains(t),
        !r.rater_error && r.tier == spec.target_tier && spec.clue_min <= clues && clues
            <= spec.clue_max && (forall|t: TechniqueId| #[trigger]
            spec.required_techniques@.contains(t) ==> r.frontier@.contains(t)) ==> spec.is_met(
            r,
            clues,
        ),
{
    if spec.is_met(r, clues) {
        assert forall|t: TechniqueId| #[trigger]
            spec.required_techniques@.contains(t) implies r.frontier@.contains(t) by {
            let i = choose|i: int|
                0 <= i < spec.required_techniques@.len() && spec.required_techniques@[i] == t;
            assert(r.frontier@.contains(spec.required_techniques@[i]));
        }
    }
    if forall|t: TechniqueId| #[trigger]
        spec.required_techniques@.contains(t) ==> r.frontier@.contains(t) {
        assert forall|i: int| 0 <= i < spec.required_techniques@.len() implies r.frontier@.contains(
            #[trigger] spec.required_techniques@[i],
        ) by {
            assert(spec.required_techniques@.contains(spec.required_techniques@[i]));
        }
    }
}

/// One more required technique is one more demand: the rating has to meet what was asked before,
/// and the technique has to have been needed.
pub proof fn law_one_more_technique(
    spec: TechniqueChainSpec,
    more: TechniqueChainSpec,
    t: TechniqueId,
    r: RateResult,
    clues: u32,
)
    requires
        more.required_techniques@ == spec.required_techniques@.push(t),
        more.target_tier == spec.target_tier,
        more.clue_min == spec.clue_min,
        more.clue_max == spec.clue_max,
    ensures
        more.is_met(r, clues) == (spec.is_met(r, clues) && r.frontier@.contains(t)),
{
    let (a, b) = (spec.required_techniques@, more.required_techniques@);
    if more.is_met(r, clues) {
        assert forall|i: int| 0 <= i < a.len() implies r.frontier@.contains(#[trigger] a[i]) by {
            assert(b[i] == a[i]);
        }
        assert(b[a.len() as int] == t);
    }
    if spec.is_met(r, clues) && r.frontier@.contains(t) {
        assert forall|i: int| 0 <= i < b.len() implies r.frontier@.contains(#[trigger] b[i]) by {
            if i < a.len() {
                assert(b[i] == a[i]);
            }
        }
    }
}

/// The tiers ascend from the first to the fourth.
pub proof fn law_tiers_ascend()
    ensures
        techniques::rank(Tier::T1) < techniques::rank(Tier::T2) < techniques::rank(Tier::T3)
            < techniques::rank(Tier::T4Plus),
{
}

/// A step that is taken has a rating without error whose tier is not above the target. Before the
/// rating was met every such step is taken; afterwards those that meet it, and no others.
pub proof fn law_steps_never_overshoot(
    locked: bool,
    r: RateResult,
    spec: TechniqueChainSpec,
    clues: u32,
)
    ensures
        takes_step(locked, r, spec, clues) ==> !r.rater_error && techniques::rank(r.tier)
            <= techniques::rank(spec.target_tier),
        !locked && !r.rater_error && techniques::rank(r.tier) <= techniques::rank(
            spec.target_tier,
        ) ==> takes_step(locked, r, spec, clues),
        locked ==> takes_step(locked, r, spec, clues) == spec.is_met(r, clues),
{
}

/// Every number of clues within the limits can be drawn to stop at, and no other.
pub proof fn law_every_stop_can_be_drawn(clue_min: u32, clue_max: u32, stop: u32, word: u32)
    requires
        clue_min <= stop <= clue_max,
        clue_max - clue_min < u32::MAX,
    ensures
        clue_min <= stop_for(clue_min, clue_max, word) <= clue_max,
        stop_for(clue_min, clue_max, (stop - clue_min) as u32) == stop,
{
    if clue_min < clue_max {
        let n = clue_max - clue_min + 1;
        vstd::arithmetic::div_mod::lemma_mod_bound(word as int, n);
        vstd::arithmetic::div_mod::lemma_small_mod((stop - clue_min) as nat, n as nat);
    }
}

/// With required techniques a puzzle is given up if it is solved without them, without error, at
/// the target tier or above; whatever else is said of it without them, its own rating decides.
pub proof fn law_required_techniques_are_needed(
    rate: RateResult,
    clues: u32,
    w: RateResult,
    spec: TechniqueChainSpec,
)
    requires
        spec.required_techniques@.len() > 0,
    ensures
        !w.rater_error && w.solved && techniques::rank(w.tier) >= techniques::rank(spec.target_tier)
            ==> !is_sought(rate, clues, Some(w), spec),
        w.rater_error || !w.solved || techniques::rank(w.tier) < techniques::rank(spec.target_tier)
            ==> is_sought(rate, clues, Some(w), spec) == spec.is_met(rate, clues),
{
}

/// Without required techniques the rating alone decides.
pub proof fn law_rating_alone_decides(
    rate: RateResult,
    clues: u32,
    without: Option<RateResult>,
    spec: TechniqueChainSpec,
)
    requires
        spec.required_techniques@.len() == 0,
    ensures
        is_sought(rate, clues, without, spec) == spec.is_met(rate, clues),
{
}

} // verus!
