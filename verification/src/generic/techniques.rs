//! Solving techniques and the tiers that they belong to.

use vstd::prelude::*;

verus! {

/// How hard a puzzle is.
#[derive(Copy, Clone, PartialEq, Eq, Structural, Debug)]
pub enum Tier {
    T1,
    T2,
    T3,
    T4Plus,
}

/// The techniques.
#[derive(Copy, Clone, PartialEq, Eq, Structural, Debug)]
pub enum TechniqueId {
    LockedPointing,
    LockedClaiming,
    NakedPair,
    NakedTriple,
    NakedQuad,
    HiddenPair,
    HiddenTriple,
    HiddenQuad,
    XWing,
    Swordfish,
    Jellyfish,
    XyWing,
    UrType1,
    UrType2,
    Aic,
    AlsXz,
    XyzWing,
    Bug,
    SimpleColoring,
    Skyscraper,
    TwoStringKite,
    CellForcingChain,
    RegionForcingChain,
    DynamicForcingChain,
    NestedForcingChain,
    NestedForcingChainL3,
    NestedForcingChainL4,
    GBraid,
}

/// The rank of a tier, from one upwards.
pub open spec fn rank(t: Tier) -> int {
    match t {
        Tier::T1 => 1,
        Tier::T2 => 2,
        Tier::T3 => 3,
        Tier::T4Plus => 4,
    }
}

/// The rank of a tier, from one upwards.
pub fn tier_rank(t: Tier) -> (r: u8)
    ensures
        r == rank(t),
{
    match t {
        Tier::T1 => 1,
        Tier::T2 => 2,
        Tier::T3 => 3,
        Tier::T4Plus => 4,
    }
}

/// Whether `id` is among `ids`.
pub fn contains_technique(ids: &Vec<TechniqueId>, id: TechniqueId) -> (r: bool)
    ensures
        r == ids@.contains(id),
{
    let mut i: usize = 0;
    while i < ids.len()
        invariant
            i <= ids@.len(),
            forall|j: int| 0 <= j < i ==> #[trigger] ids@[j] != id,
        decreases ids@.len() - i,
    {
        if ids[i] == id {
            assert(ids@[i as int] == id);
            return true;
        }
        i += 1;
    }
    false
}

} // verus!
