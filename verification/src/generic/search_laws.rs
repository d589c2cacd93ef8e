//! What the searches for puzzles accept.

use super::aic_reverse;
use super::als_xz_reverse;
use super::cfc_reverse;
use super::cfc_reverse::CfcReverseSpec;
use super::dfc_reverse;
use super::dfc_reverse::DfcReverseSpec;
use super::fish_reverse;
use super::gbraid_reverse;
use super::gbraid_reverse::GBraidReverseSpec;
use super::chain_rating::ChainRating;
use super::grid::Grid;
use super::hidden_quad_reverse;
use super::rater;
use super::rater::{RateResult, Rater};
use super::reverse_construct;
use super::reverse_construct::ReverseResult;
use super::solutions;
use super::techniques;
use super::techniques::{TechniqueId, Tier};
use vstd::prelude::*;

verus! {

/// How far two numbers are apart does not depend on which comes first, is nothing only for equal
/// numbers, and is at most `s` just for those from `s` below to `s` above.
pub proof fn law_distance(a: int, b: int, s: int)
    ensures
        aic_reverse::distance(a, b) == aic_reverse::distance(b, a),
        aic_reverse::distance(a, b) >= 0,
        aic_reverse::distance(a, b) == 0 <==> a == b,
        aic_reverse::distance(a, b) <= s <==> b - s <= a <= b + s,
{
}

/// A rating at a tier with a technique is without error, of just that tier, and the technique was
/// needed; and every such rating is one.
pub proof fn law_rated_at(r: RateResult, target: Tier, id: TechniqueId)
    ensures
        reverse_construct::rated_at(r, target, id) <==> !r.rater_error && r.tier == target
            && r.frontier@.contains(id),
{
}

/// A technique that has to be needed is so only if the rating without it is without error and of
/// a harder tier; a technique that does not have to be needed is never asked about.
pub proof fn law_technique_is_needed(target: Tier, w: RateResult)
    ensures
        !reverse_construct::bears_load(true, None, target),
        w.rater_error || techniques::rank(w.tier) <= techniques::rank(target)
            ==> !reverse_construct::bears_load(true, Some(w), target),
        !w.rater_error && techniques::rank(w.tier) > techniques::rank(target)
            ==> reverse_construct::bears_load(true, Some(w), target),
        reverse_construct::bears_load(false, None, target),
        techniques::rank(Tier::T1) < techniques::rank(Tier::T2) < techniques::rank(Tier::T3)
            < techniques::rank(Tier::T4Plus),
{
}

/// The rating of a puzzle is an answer of the rater, of the tier, with the technique, and where it
/// has to be needed, an answer without it is of a harder tier.
pub open spec fn is_proper<const N: usize, const BR: usize, const BC: usize, R: Rater<N, BR, BC>>(
    x: ReverseResult<N, BR, BC>,
    tier: Tier,
    id: TechniqueId,
    required: bool,
) -> bool {
    &&& rater::may_say::<N, BR, BC, R>(x.puzzle, x.rate)
    &&& !x.rate.rater_error
    &&& x.rate.tier == tier
    &&& x.rate.frontier@.contains(id)
    &&& required ==> exists|w: RateResult| #[trigger]
        rater::may_say_without::<N, BR, BC, R>(x.puzzle, seq![id], w) && !w.rater_error
            && techniques::rank(w.tier) > techniques::rank(tier)
    &&& x.puzzle.solutions() == set![solutions::digits_of(x.solution.solved@)]
    &&& x.clue_count == solutions::placed(x.puzzle.solved@)
}

/// What an attempt for alternating chains leads to is a puzzle that needs one, whose first chain is
/// as long as asked for, give or take the slack.
pub proof fn law_aic_results<const N: usize, const BR: usize, const BC: usize, R: Rater<N, BR, BC>>(
    spec: aic_reverse::AicReverseSpec,
    words: Seq<u64>,
    n: nat,
    x: ReverseResult<N, BR, BC>,
)
    requires
        aic_reverse::aic_leads_to::<N, BR, BC, R>(spec, words, n, Some(x)),
    ensures
        is_proper::<N, BR, BC, R>(
            x,
            spec.target_tier,
            TechniqueId::Aic,
            spec.require_load_bearing,
        ),
        x.attempts_taken == n,
        aic_reverse::chain_length(
            Grid::<N, BR, BC>::shape(),
            x.puzzle.candidates@,
            solutions::digits_of(x.puzzle.solved@),
        ) matches Some(k) && spec.target_chain_length - spec.chain_length_slack <= k
            && k <= spec.target_chain_length + spec.chain_length_slack,
{
    let (y, without) = choose|y: ReverseResult<N, BR, BC>, without: Option<RateResult>| #[trigger]
        aic_reverse::aic_is_tried::<N, BR, BC, R>(spec, words, n, y, without) && Some(x)
            == reverse_construct::outcome(
            aic_reverse::aic_fits(spec, y.rate, y.puzzle),
            spec.require_load_bearing,
            spec.target_tier,
            without,
            y,
        );
    assert(y == x);
    if spec.require_load_bearing {
        assert(rater::may_say_without::<N, BR, BC, R>(
            x.puzzle,
            seq![TechniqueId::Aic],
            without->0,
        ));
    }
}

/// What an attempt for fish leads to is a puzzle that needs one, with a fish of the size asked for
/// and none that is smaller.
pub proof fn law_fish_results<const N: usize, const BR: usize, const BC: usize, R: Rater<N, BR, BC>>(
    spec: fish_reverse::FishReverseSpec,
    words: Seq<u64>,
    n: nat,
    x: ReverseResult<N, BR, BC>,
)
    requires
        2 <= spec.target_size <= 4,
        fish_reverse::fish_leads_to::<N, BR, BC, R>(spec, words, n, Some(x)),
    ensures
        is_proper::<N, BR, BC, R>(
            x,
            spec.target_tier,
            if spec.target_size == 2 {
                TechniqueId::XWing
            } else if spec.target_size == 3 {
                TechniqueId::Swordfish
            } else {
                TechniqueId::Jellyfish
            },
            spec.require_load_bearing,
        ),
        x.attempts_taken == n,
        fish_reverse::fish_at(
            Grid::<N, BR, BC>::shape(),
            x.puzzle.candidates@,
            solutions::digits_of(x.puzzle.solved@),
            spec.target_size as int,
        ),
        forall|j: int|
            2 <= j < spec.target_size ==> !#[trigger] fish_reverse::fish_at(
                Grid::<N, BR, BC>::shape(),
                x.puzzle.candidates@,
                solutions::digits_of(x.puzzle.solved@),
                j,
            ),
{
    let (y, without) = choose|y: ReverseResult<N, BR, BC>, without: Option<RateResult>| #[trigger]
        fish_reverse::fish_is_tried::<N, BR, BC, R>(spec, words, n, y, without) && Some(x)
            == reverse_construct::outcome(
            fish_reverse::fish_fits(spec, y.rate, y.puzzle),
            spec.require_load_bearing,
            spec.target_tier,
            without,
            y,
        );
    assert(y == x);
    if spec.require_load_bearing {
        assert(rater::may_say_without::<N, BR, BC, R>(
            x.puzzle,
            seq![fish_reverse::fish_of(spec.target_size as int)],
            without->0,
        ));
    }
}

/// What an attempt for almost locked sets leads to is a puzzle that needs them, and the smaller set
/// of the first pair is of a size that is asked for.
pub proof fn law_als_results<const N: usize, const BR: usize, const BC: usize, R: Rater<N, BR, BC>>(
    spec: als_xz_reverse::AlsXzReverseSpec,
    words: Seq<u64>,
    n: nat,
    x: ReverseResult<N, BR, BC>,
)
    requires
        als_xz_reverse::als_leads_to::<N, BR, BC, R>(spec, words, n, Some(x)),
    ensures
        is_proper::<N, BR, BC, R>(
            x,
            spec.target_tier,
            TechniqueId::AlsXz,
            spec.require_load_bearing,
        ),
        x.attempts_taken == n,
        als_xz_reverse::first_als_xz(
            Grid::<N, BR, BC>::shape(),
            x.puzzle.candidates@,
            solutions::digits_of(x.puzzle.solved@),
        ) matches Some((lo, _)) && spec.als_size_min <= lo && lo <= spec.als_size_max,
{
    let (y, without) = choose|y: ReverseResult<N, BR, BC>, without: Option<RateResult>| #[trigger]
        als_xz_reverse::als_is_tried::<N, BR, BC, R>(spec, words, n, y, without) && Some(x)
            == reverse_construct::outcome(
            als_xz_reverse::als_xz_fits(spec, y.rate, y.puzzle),
            spec.require_load_bearing,
            spec.target_tier,
            without,
            y,
        );
    assert(y == x);
    if spec.require_load_bearing {
        assert(rater::may_say_without::<N, BR, BC, R>(
            x.puzzle,
            seq![TechniqueId::AlsXz],
            without->0,
        ));
    }
}

/// What an attempt for hidden quads leads to is a puzzle that needs one.
pub proof fn law_quad_results<const N: usize, const BR: usize, const BC: usize, R: Rater<N, BR, BC>>(
    spec: hidden_quad_reverse::HiddenQuadReverseSpec,
    words: Seq<u64>,
    n: nat,
    x: ReverseResult<N, BR, BC>,
)
    requires
        hidden_quad_reverse::quad_leads_to::<N, BR, BC, R>(spec, words, n, Some(x)),
    ensures
        is_proper::<N, BR, BC, R>(
            x,
            spec.target_tier,
            TechniqueId::HiddenQuad,
            spec.require_load_bearing,
        ),
        x.attempts_taken == n,
{
    let (y, without) = choose|y: ReverseResult<N, BR, BC>, without: Option<RateResult>| #[trigger]
        hidden_quad_reverse::quad_is_tried::<N, BR, BC, R>(spec, words, n, y, without) && Some(x)
            == reverse_construct::outcome(
            reverse_construct::rated_at(y.rate, spec.target_tier, TechniqueId::HiddenQuad),
            spec.require_load_bearing,
            spec.target_tier,
            without,
            y,
        );
    assert(y == x);
    if spec.require_load_bearing {
        assert(rater::may_say_without::<N, BR, BC, R>(
            x.puzzle,
            seq![TechniqueId::HiddenQuad],
            without->0,
        ));
    }
}

/// A rating is accepted for cell forcing chains just if the puzzle was solved without error, with
/// such a chain, with a score in the limits, both included, of eight at least if three branches are
/// asked for, and without any excluded technique.
pub proof fn law_cell_chains(r: RateResult, spec: CfcReverseSpec)
    ensures
        cfc_reverse::accepted(r, spec) <==> !r.rater_error && r.solved && r.frontier@.contains(
            TechniqueId::CellForcingChain,
        ) && spec.target_se <= r.se_milli && (spec.target_k_min < 3 || 8000 <= r.se_milli) && (
        spec.target_se_upper is None || r.se_milli <= spec.target_se_upper->0) && forall|
            t: TechniqueId,
        | #[trigger]
            spec.excluded_techniques@.contains(t) ==> !r.frontier@.contains(t),
{
    if forall|t: TechniqueId| #[trigger]
        spec.excluded_techniques@.contains(t) ==> !r.frontier@.contains(t) {
        assert forall|i: int|
            0 <= i < spec.excluded_techniques@.len() implies !r.frontier@.contains(
            #[trigger] spec.excluded_techniques@[i],
        ) by {
            assert(spec.excluded_techniques@.contains(spec.excluded_techniques@[i]));
        }
    }
    if cfc_reverse::accepted(r, spec) {
        assert forall|t: TechniqueId| #[trigger]
            spec.excluded_techniques@.contains(t) implies !r.frontier@.contains(t) by {
            let i = choose|i: int|
                0 <= i < spec.excluded_techniques@.len() && spec.excluded_techniques@[i] == t;
            assert(!r.frontier@.contains(spec.excluded_techniques@[i]));
        }
    }
}

/// One more excluded technique is one more demand: the rating has to be accepted without it, and
/// must not name it.
pub proof fn law_one_more_excluded(
    spec: CfcReverseSpec,
    more: CfcReverseSpec,
    t: TechniqueId,
    r: RateResult,
)
    requires
        more.excluded_techniques@ == spec.excluded_techniques@.push(t),
        more.target_se == spec.target_se,
        more.target_k_min == spec.target_k_min,
        more.target_se_upper == spec.target_se_upper,
    ensures
        cfc_reverse::accepted(r, more) == (cfc_reverse::accepted(r, spec) && !r.frontier@.contains(
            t,
        )),
{
    let (a, b) = (spec.excluded_techniques@, more.excluded_techniques@);
    if cfc_reverse::accepted(r, more) {
        assert forall|i: int| 0 <= i < a.len() implies !r.frontier@.contains(#[trigger] a[i]) by {
            assert(b[i] == a[i]);
        }
        assert(b[a.len() as int] == t);
    }
    if cfc_reverse::accepted(r, spec) && !r.frontier@.contains(t) {
        assert forall|i: int| 0 <= i < b.len() implies !r.frontier@.contains(#[trigger] b[i]) by {
            if i < a.len() {
                assert(b[i] == a[i]);
            }
        }
    }
}

/// A puzzle whose chain has to be needed is kept only if without it the puzzle is rated without
/// error and is not solved, or has a higher score; else its own rating decides.
pub proof fn law_cell_chain_is_needed(rate: RateResult, w: RateResult, spec: CfcReverseSpec)
    ensures
        spec.require_load_bearing ==> !cfc_reverse::kept_for(rate, None, spec),
        spec.require_load_bearing && (w.rater_error || (w.solved && w.se_milli <= rate.se_milli))
            ==> !cfc_reverse::kept_for(rate, Some(w), spec),
        spec.require_load_bearing && !w.rater_error && (!w.solved || w.se_milli > rate.se_milli)
            ==> cfc_reverse::kept_for(rate, Some(w), spec) == cfc_reverse::accepted(rate, spec),
        !spec.require_load_bearing ==> cfc_reverse::kept_for(rate, None, spec)
            == cfc_reverse::accepted(rate, spec),
{
}

/// A rating is accepted for dynamic forcing chains just if the puzzle was solved without error,
/// with such a chain, with a score from the lower limit to below the upper one.
pub proof fn law_dynamic_chains(r: RateResult, spec: DfcReverseSpec)
    ensures
        dfc_reverse::accepted(r, spec) <==> !r.rater_error && r.solved && r.frontier@.contains(
            TechniqueId::DynamicForcingChain,
        ) && spec.target_se <= r.se_milli && (spec.target_se_upper is None || r.se_milli
            < spec.target_se_upper->0),
        dfc_reverse::taken(r, spec) is Some == dfc_reverse::accepted(r, spec),
        dfc_reverse::taken(r, spec) matches Some((se, f)) ==> se == r.se_milli && f == r.frontier,
{
}

/// Nested forcing chains are left out at all their levels, and nothing else is.
pub proof fn law_nested_chains(t: TechniqueId)
    ensures
        dfc_reverse::nested_fcs().contains(t) <==> t == TechniqueId::NestedForcingChain || t
            == TechniqueId::NestedForcingChainL3 || t == TechniqueId::NestedForcingChainL4,
{
    let s = dfc_reverse::nested_fcs();
    assert(s[0] == TechniqueId::NestedForcingChain);
    assert(s[1] == TechniqueId::NestedForcingChainL3);
    assert(s[2] == TechniqueId::NestedForcingChainL4);
}

/// A puzzle is sought for its g-braids just if one was found and rated, both within the slack of
/// the target; where they have to be needed, it must be rated without error and not solved
/// without them.
pub proof fn law_gbraid_puzzles(
    spec: GBraidReverseSpec,
    found: u8,
    rated: u8,
    w: RateResult,
)
    ensures
        ({
            let (lo, hi) = (spec.target_k - spec.k_slack, spec.target_k + spec.k_slack);
            let near = lo <= found <= hi && lo <= rated <= hi;
            let rating = Some(ChainRating::GB(rated));
            &&& gbraid_reverse::passes(spec, Some(found), rating) == near
            &&& !gbraid_reverse::passes(spec, None, rating)
            &&& !gbraid_reverse::passes(spec, Some(found), None)
            &&& !gbraid_reverse::passes(spec, Some(found), Some(ChainRating::W(rated)))
            &&& !gbraid_reverse::passes(spec, Some(found), Some(ChainRating::GW(rated)))
            &&& !gbraid_reverse::passes(spec, Some(found), Some(ChainRating::B(rated)))
            &&& !spec.load_bearing ==> gbraid_reverse::is_sought(spec, Some(found), rating, None)
                == near
            &&& spec.load_bearing ==> gbraid_reverse::is_sought(
                spec,
                Some(found),
                rating,
                Some(w),
            ) == (near && !w.rater_error && !w.solved)
            &&& spec.load_bearing ==> !gbraid_reverse::is_sought(spec, Some(found), rating, None)
        }),
{
}

/// Towards a target a clue is given up if there is no pattern yet; once there is one, only if it
/// stays and gets no further off.
pub proof fn law_patterns_are_not_lost(target: u32, now: Option<u8>, next: Option<u8>)
    ensures
        ({
            let (a, b) = (
                gbraid_reverse::score_of_reply(now, target),
                gbraid_reverse::score_of_reply(next, target),
            );
            gbraid_reverse::takes(a, b) <==> now is None || (next is Some
                && aic_reverse::distance(next->0 as int, target as int) <= aic_reverse::distance(
                now->0 as int,
                target as int,
            ))
        }),
{
}

} // verus!
