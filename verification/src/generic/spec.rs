//! What the rating of a puzzle should be.

use super::rater::RateResult;
use super::techniques::{contains_technique, TechniqueId, Tier};
use vstd::prelude::*;

verus! {

/// A tier, techniques that have to be needed, and limits on the number of clues.
#[derive(Debug)]
pub struct TechniqueChainSpec {
    pub target_tier: Tier,
    pub required_techniques: Vec<TechniqueId>,
    pub clue_min: u32,
    pub clue_max: u32,
}

impl TechniqueChainSpec {
    /// The rating of a puzzle with `clues` clues is one that is sought.
    pub open spec fn is_met(&self, r: RateResult, clues: u32) -> bool {
        &&& !r.rater_error
        &&& r.tier == self.target_tier
        &&& forall|i: int|
            0 <= i < self.required_techniques@.len() ==> r.frontier@.contains(
                #[trigger] self.required_techniques@[i],
            )
        &&& self.clue_min <= clues <= self.clue_max
    }

    /// Whether the rating of a puzzle with `clues` clues is one that is sought.
    pub fn matches(&self, r: &RateResult, clues: u32) -> (b: bool)
        ensures
            b == self.is_met(*r, clues),
            b ==> !r.rater_error && r.tier == self.target_tier,
            b ==> self.clue_min <= clues && clues <= self.clue_max,
            b ==> forall|t: TechniqueId| #[trigger]
                self.required_techniques@.contains(t) ==> r.frontier@.contains(t),
            !b ==> r.rater_error || r.tier != self.target_tier || clues < self.clue_min || clues
                > self.clue_max || exists|i: int|
                0 <= i < self.required_techniques@.len() && !r.frontier@.contains(
                    #[trigger] self.required_techniques@[i],
                ),
    {
        if r.rater_error || r.tier != self.target_tier || clues < self.clue_min || clues
            > self.clue_max {
            return false;
        }
        let mut i: usize = 0;
        while i < self.required_techniques.len()
            invariant
                i <= self.required_techniques@.len(),
                forall|j: int|
                    0 <= j < i ==> r.frontier@.contains(#[trigger] self.required_techniques@[j]),
            decreases self.required_techniques@.len() - i,
        {
            if !contains_technique(&r.frontier, self.required_techniques[i]) {
                assert(!r.frontier@.contains(self.required_techniques@[i as int]));
                return false;
            }
            i += 1;
        }
        true
    }
}

} // verus!
