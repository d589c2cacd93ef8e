//! Which techniques are left out of a search.

use super::modes::MatchKind;
use crate::generic::techniques;
use crate::generic::techniques::{contains_technique, tier_rank, TechniqueId, Tier};
use crate::generic::text;
use vstd::prelude::*;

verus! {

/// The techniques that a search can be asked for.
pub open spec fn all_ids() -> Seq<TechniqueId> {
    seq![
        TechniqueId::LockedPointing,
        TechniqueId::LockedClaiming,
        TechniqueId::NakedPair,
        TechniqueId::NakedTriple,
        TechniqueId::NakedQuad,
        TechniqueId::HiddenPair,
        TechniqueId::HiddenTriple,
        TechniqueId::HiddenQuad,
        TechniqueId::XWing,
        TechniqueId::Swordfish,
        TechniqueId::Jellyfish,
        TechniqueId::XyWing,
        TechniqueId::UrType1,
        TechniqueId::UrType2,
        TechniqueId::Aic,
        TechniqueId::AlsXz,
    ]
}

/// The techniques that a search can be asked for.
pub fn all_techniques() -> (v: Vec<TechniqueId>)
    ensures
        v@ == all_ids(),
{
    let v: Vec<TechniqueId> = vec![
        TechniqueId::LockedPointing,
        TechniqueId::LockedClaiming,
        TechniqueId::NakedPair,
        TechniqueId::NakedTriple,
        TechniqueId::NakedQuad,
        TechniqueId::HiddenPair,
        TechniqueId::HiddenTriple,
        TechniqueId::HiddenQuad,
        TechniqueId::XWing,
        TechniqueId::Swordfish,
        TechniqueId::Jellyfish,
        TechniqueId::XyWing,
        TechniqueId::UrType1,
        TechniqueId::UrType2,
        TechniqueId::Aic,
        TechniqueId::AlsXz,
    ];
    assert(v@ =~= all_ids());
    v
}

/// The tier of a technique: locked candidates and subsets are of the second, all others of
/// the third.
pub open spec fn tier_for(id: TechniqueId) -> Tier {
    match id {
        TechniqueId::LockedPointing
        | TechniqueId::LockedClaiming
        | TechniqueId::NakedPair
        | TechniqueId::HiddenPair
        | TechniqueId::NakedTriple
        | TechniqueId::HiddenTriple
        | TechniqueId::NakedQuad
        | TechniqueId::HiddenQuad => Tier::T2,
        _ => Tier::T3,
    }
}

/// The tier of a technique.
pub fn tier_of(id: TechniqueId) -> (t: Tier)
    ensures
        t == tier_for(id),
{
    match id {
        TechniqueId::LockedPointing
        | TechniqueId::LockedClaiming
        | TechniqueId::NakedPair
        | TechniqueId::HiddenPair
        | TechniqueId::NakedTriple
        | TechniqueId::HiddenTriple
        | TechniqueId::NakedQuad
        | TechniqueId::HiddenQuad => Tier::T2,
        _ => Tier::T3,
    }
}

/// What leaves techniques out.
#[derive(Debug, Clone, Copy, PartialEq, Eq, Structural)]
pub enum Cut {
    /// Everything but this technique and easier ones.
    MaxTechnique(TechniqueId),
    /// Everything above this tier.
    MaxTier(Tier),
    /// Everything that is not required.
    AllOthers,
}

/// The technique is left out by the cut. A required one never is.
pub open spec fn is_cut(cut: Cut, required: Seq<TechniqueId>, t: TechniqueId) -> bool {
    !required.contains(t) && match cut {
        Cut::MaxTechnique(m) => t != m && techniques::rank(tier_for(t)) >= techniques::rank(
            tier_for(m),
        ),
        Cut::MaxTier(m) => techniques::rank(tier_for(t)) > techniques::rank(m),
        Cut::AllOthers => true,
    }
}

/// The techniques that a cut leaves out, in order.
pub open spec fn cut_ids(cut: Cut, required: Seq<TechniqueId>) -> Seq<TechniqueId> {
    all_ids().filter(|t: TechniqueId| is_cut(cut, required, t))
}

/// Whether a cut leaves a technique out.
fn cuts(cut: Cut, required: &Vec<TechniqueId>, t: TechniqueId) -> (r: bool)
    ensures
        r == is_cut(cut, required@, t),
{
    if contains_technique(required, t) {
        return false;
    }
    match cut {
        Cut::MaxTechnique(m) => t != m && tier_rank(tier_of(t)) >= tier_rank(tier_of(m)),
        Cut::MaxTier(m) => tier_rank(tier_of(t)) > tier_rank(m),
        Cut::AllOthers => true,
    }
}

/// The techniques that a cut leaves out, in order.
pub fn excluded_by(cut: Cut, required: &Vec<TechniqueId>) -> (r: Vec<TechniqueId>)
    ensures
        r@ == cut_ids(cut, required@),
{
    let all: Vec<TechniqueId> = all_techniques();
    let mut r: Vec<TechniqueId> = Vec::new();
    let mut i: usize = 0;
    let ghost pred = |t: TechniqueId| is_cut(cut, required@, t);
    proof {
        reveal(Seq::filter);
        assert(all@.take(0).filter(pred) =~= Seq::<TechniqueId>::empty());
    }
    while i < all.len()
        invariant
            i <= all@.len(),
            all@ == all_ids(),
            pred == (|t: TechniqueId| is_cut(cut, required@, t)),
            r@ == all@.take(i as int).filter(pred),
        decreases all@.len() - i,
    {
        proof {
            reveal(Seq::filter);
            assert(all@.take(i + 1).drop_last() =~= all@.take(i as int));
            assert(all@.take(i + 1).last() == all@[i as int]);
        }
        if cuts(cut, required, all[i]) {
            r.push(all[i]);
        }
        i += 1;
    }
    assert(all@.take(i as int) =~= all@);
    r
}

/// The techniques that a highest technique leaves out: those of its tier and above, but for
/// itself and what is required.
pub fn excluded_from_max_technique(max: TechniqueId, required: &Vec<TechniqueId>) -> (r: Vec<
    TechniqueId,
>)
    ensures
        r@ == cut_ids(Cut::MaxTechnique(max), required@),
{
    excluded_by(Cut::MaxTechnique(max), required)
}

/// The techniques that a highest tier leaves out: those above it, but for what is required.
pub fn excluded_from_max_tier(max: Tier, required: &Vec<TechniqueId>) -> (r: Vec<TechniqueId>)
    ensures
        r@ == cut_ids(Cut::MaxTier(max), required@),
{
    excluded_by(Cut::MaxTier(max), required)
}

/// Every technique that is not required.
pub fn excluded_all_others(required: &Vec<TechniqueId>) -> (r: Vec<TechniqueId>)
    ensures
        r@ == cut_ids(Cut::AllOthers, required@),
{
    excluded_by(Cut::AllOthers, required)
}

/// A cut leaves out no required technique, nothing that is no technique to ask for, and
/// everything else that it names.
pub proof fn law_cut(cut: Cut, required: Seq<TechniqueId>, t: TechniqueId)
    ensures
        cut_ids(cut, required).contains(t) == (all_ids().contains(t) && is_cut(cut, required, t)),
        required.contains(t) ==> !cut_ids(cut, required).contains(t),
{
    let pred = |t: TechniqueId| is_cut(cut, required, t);
    broadcast use vstd::seq_lib::group_filter_ensures;

    if all_ids().contains(t) && is_cut(cut, required, t) {
        let i = choose|i: int| 0 <= i < all_ids().len() && all_ids()[i] == t;
        assert(pred(all_ids()[i]));
    }
    if cut_ids(cut, required).contains(t) {
        let i = choose|i: int|
            0 <= i < cut_ids(cut, required).len() && cut_ids(cut, required)[i] == t;
        assert(pred(all_ids().filter(pred)[i]));
        lemma_filter_part(all_ids(), pred, t);
    }
}

/// What a filter keeps was there.
proof fn lemma_filter_part(s: Seq<TechniqueId>, pred: spec_fn(TechniqueId) -> bool, t: TechniqueId)
    requires
        s.filter(pred).contains(t),
    ensures
        s.contains(t),
    decreases s.len(),
{
    reveal(Seq::filter);
    if s.len() > 0 {
        let i = choose|i: int| 0 <= i < s.filter(pred).len() && s.filter(pred)[i] == t;
        let rest = s.drop_last();
        if i < rest.filter(pred).len() {
            assert(rest.filter(pred)[i] == t);
            lemma_filter_part(rest, pred, t);
            let j = choose|j: int| 0 <= j < rest.len() && rest[j] == t;
            assert(s[j] == t);
        } else {
            assert(s[s.len() - 1] == t);
        }
    }
}

/// Why techniques cannot be left out as asked.
#[derive(Debug, Clone, Copy, PartialEq, Eq, Structural)]
pub enum SelectionError {
    /// More than one of the cuts is asked for.
    TwoCuts,
    /// A cut is asked for along with a list.
    CutAndList,
    /// All others are to be left out, but nothing is required.
    NothingRequired,
    /// The technique is required and left out.
    Conflict(TechniqueId),
}

/// The number of cuts that are asked for.
pub open spec fn cut_count(
    max_technique: Option<TechniqueId>,
    max_tier: Option<Tier>,
    all_others: bool,
) -> int {
    (if max_technique is Some {
        1int
    } else {
        0
    }) + (if max_tier is Some {
        1int
    } else {
        0
    }) + (if all_others {
        1int
    } else {
        0
    })
}

/// The techniques that are left out: those of the cut, if one is asked for, or those listed.
pub open spec fn asked_out(
    required: Seq<TechniqueId>,
    listed: Seq<TechniqueId>,
    max_technique: Option<TechniqueId>,
    max_tier: Option<Tier>,
    all_others: bool,
) -> Seq<TechniqueId> {
    if max_technique is Some {
        cut_ids(Cut::MaxTechnique(max_technique->0), required)
    } else if max_tier is Some {
        cut_ids(Cut::MaxTier(max_tier->0), required)
    } else if all_others {
        cut_ids(Cut::AllOthers, required)
    } else {
        listed
    }
}

/// `t` is the first required technique that is left out.
pub open spec fn is_first_conflict(
    required: Seq<TechniqueId>,
    out: Seq<TechniqueId>,
    t: TechniqueId,
) -> bool {
    exists|i: int|
        0 <= i < required.len() && #[trigger] required[i] == t && out.contains(t) && forall|j: int|
            0 <= j < i ==> !out.contains(#[trigger] required[j])
}

/// The first required technique that is left out, if there is one.
fn first_conflict(required: &Vec<TechniqueId>, out: &Vec<TechniqueId>) -> (r: Option<TechniqueId>)
    ensures
        r is None == (forall|i: int|
            0 <= i < required@.len() ==> !out@.contains(#[trigger] required@[i])),
        r matches Some(t) ==> is_first_conflict(required@, out@, t),
{
    let mut i: usize = 0;
    while i < required.len()
        invariant
            i <= required@.len(),
            forall|j: int| 0 <= j < i ==> !out@.contains(#[trigger] required@[j]),
        decreases required@.len() - i,
    {
        if contains_technique(out, required[i]) {
            assert(required@[i as int] == required@[i as int]);
            return Some(required[i]);
        }
        i += 1;
    }
    None
}

/// The techniques to leave out: those that a cut names, or those listed. Cuts cannot be
/// combined, neither with one another nor with a list, and nothing required can be left out.
pub fn select_excluded(
    required: &Vec<TechniqueId>,
    listed: &Vec<TechniqueId>,
    max_technique: Option<TechniqueId>,
    max_tier: Option<Tier>,
    all_others: bool,
) -> (r: Result<Vec<TechniqueId>, SelectionError>)
    ensures
        ({
            let cuts = cut_count(max_technique, max_tier, all_others);
            let out = asked_out(required@, listed@, max_technique, max_tier, all_others);
            if cuts > 1 {
                r == Err::<Vec<TechniqueId>, _>(SelectionError::TwoCuts)
            } else if cuts == 1 && listed@.len() > 0 {
                r == Err::<Vec<TechniqueId>, _>(SelectionError::CutAndList)
            } else if all_others && required@.len() == 0 {
                r == Err::<Vec<TechniqueId>, _>(SelectionError::NothingRequired)
            } else if forall|i: int|
                0 <= i < required@.len() ==> !out.contains(#[trigger] required@[i]) {
                r is Ok && r->Ok_0@ == out
            } else {
                r matches Err(SelectionError::Conflict(t)) && is_first_conflict(required@, out, t)
            }
        }),
{
    let count: u8 = (if max_technique.is_some() {
        1u8
    } else {
        0u8
    }) + (if max_tier.is_some() {
        1u8
    } else {
        0u8
    }) + (if all_others {
        1u8
    } else {
        0u8
    });
    if count > 1 {
        return Err(SelectionError::TwoCuts);
    }
    if count > 0 && listed.len() > 0 {
        return Err(SelectionError::CutAndList);
    }
    let out: Vec<TechniqueId> = match max_technique {
        Some(m) => excluded_from_max_technique(m, required),
        None => match max_tier {
            Some(m) => excluded_from_max_tier(m, required),
            None => if all_others {
                if required.len() == 0 {
                    return Err(SelectionError::NothingRequired);
                }
                excluded_all_others(required)
            } else {
                let copy: Vec<TechniqueId> = listed.clone();
                assert(copy@ =~= listed@);
                copy
            },
        },
    };
    match first_conflict(required, &out) {
        Some(t) => Err(SelectionError::Conflict(t)),
        None => Ok(out),
    }
}

/// Only a list can leave out what is required: a cut never does.
pub proof fn law_cuts_never_conflict(
    required: Seq<TechniqueId>,
    max_technique: Option<TechniqueId>,
    max_tier: Option<Tier>,
    all_others: bool,
    i: int,
)
    requires
        cut_count(max_technique, max_tier, all_others) > 0,
        0 <= i < required.len(),
    ensures
        !asked_out(required, Seq::empty(), max_technique, max_tier, all_others).contains(
            required[i],
        ),
{
    assert(required.contains(required[i]));
    if max_technique is Some {
        law_cut(Cut::MaxTechnique(max_technique->0), required, required[i]);
    } else if max_tier is Some {
        law_cut(Cut::MaxTier(max_tier->0), required, required[i]);
    } else {
        law_cut(Cut::AllOthers, required, required[i]);
    }
}

/// A row of a benchmark leaves out what is listed but for its own technique.
pub fn row_excluded(listed: &Vec<TechniqueId>, t: TechniqueId) -> (r: Vec<TechniqueId>)
    ensures
        r@ == listed@.filter(|x: TechniqueId| x != t),
{
    let mut r: Vec<TechniqueId> = Vec::new();
    let ghost pred = |x: TechniqueId| x != t;
    let mut i: usize = 0;
    proof {
        reveal(Seq::filter);
        assert(listed@.take(0).filter(pred) =~= Seq::<TechniqueId>::empty());
    }
    while i < listed.len()
        invariant
            i <= listed@.len(),
            pred == (|x: TechniqueId| x != t),
            r@ == listed@.take(i as int).filter(pred),
        decreases listed@.len() - i,
    {
        proof {
            reveal(Seq::filter);
            assert(listed@.take(i + 1).drop_last() =~= listed@.take(i as int));
            assert(listed@.take(i + 1).last() == listed@[i as int]);
        }
        if listed[i] != t {
            r.push(listed[i]);
        }
        i += 1;
    }
    assert(listed@.take(i as int) =~= listed@);
    r
}

/// The techniques of a benchmark: those listed, or all if none is.
pub fn bench_techniques(listed: &Vec<TechniqueId>) -> (r: Vec<TechniqueId>)
    ensures
        r@ == if listed@.len() == 0 {
            all_ids()
        } else {
            listed@
        },
{
    if listed.len() == 0 {
        all_techniques()
    } else {
        let copy: Vec<TechniqueId> = listed.clone();
        assert(copy@ =~= listed@);
        copy
    }
}

/// Several techniques that a benchmark asks for together.
#[derive(Debug)]
pub struct Mix {
    pub kind: MatchKind,
    pub techniques: Vec<TechniqueId>,
    /// How many of them have to occur or to be picked.
    pub count: u32,
}

/// The mixes of a benchmark: the kind, the techniques and the count of each.
pub open spec fn mixes() -> Seq<(MatchKind, Seq<TechniqueId>, u32)> {
    seq![
        (
            MatchKind::AnyOf,
            seq![TechniqueId::Aic, TechniqueId::XWing, TechniqueId::Swordfish],
            1u32,
        ),
        (
            MatchKind::AtLeastK,
            seq![TechniqueId::Aic, TechniqueId::XWing, TechniqueId::XyWing, TechniqueId::UrType1],
            2u32,
        ),
        (MatchKind::Weighted, seq![TechniqueId::Aic, TechniqueId::XWing], 1u32),
    ]
}

/// Whether a benchmark of a shape tries mixes too: that of nine digits does.
pub fn has_mixes(n: u32, br: u32, bc: u32) -> (r: bool)
    ensures
        r == (n == 9 && br == 3 && bc == 3),
{
    n == 9 && br == 3 && bc == 3
}

/// The mixes of a benchmark.
pub fn bench_mixes() -> (v: Vec<Mix>)
    ensures
        v@.len() == mixes().len(),
        forall|i: int|
            0 <= i < v@.len() ==> ((#[trigger] v@[i]).kind, v@[i].techniques@, v@[i].count)
                == mixes()[i],
{
    let any: Vec<TechniqueId> = vec![TechniqueId::Aic, TechniqueId::XWing, TechniqueId::Swordfish];
    let some: Vec<TechniqueId> = vec![
        TechniqueId::Aic,
        TechniqueId::XWing,
        TechniqueId::XyWing,
        TechniqueId::UrType1,
    ];
    let both: Vec<TechniqueId> = vec![TechniqueId::Aic, TechniqueId::XWing];
    assert(any@ =~= mixes()[0].1);
    assert(some@ =~= mixes()[1].1);
    assert(both@ =~= mixes()[2].1);
    vec![
        Mix { kind: MatchKind::AnyOf, techniques: any, count: 1 },
        Mix { kind: MatchKind::AtLeastK, techniques: some, count: 2 },
        Mix { kind: MatchKind::Weighted, techniques: both, count: 1 },
    ]
}

/// The name of a mix in the table of a benchmark.
pub open spec fn mix_text(kind: MatchKind, count: u32) -> Seq<char> {
    match kind {
        MatchKind::AllOf => "all_of"@,
        MatchKind::AnyOf => "any_of"@,
        MatchKind::ExactK => "exact_k="@ + text::decimal(count as nat),
        MatchKind::AtLeastK => "at_least_k="@ + text::decimal(count as nat),
        MatchKind::Weighted => "weighted"@,
    }
}

/// The name of a mix in the table of a benchmark.
pub fn mix_name(m: &Mix) -> (r: String)
    ensures
        r@ == mix_text(m.kind, m.count),
{
    match m.kind {
        MatchKind::AllOf => text::owned("all_of"),
        MatchKind::AnyOf => text::owned("any_of"),
        MatchKind::ExactK => numbered("exact_k=", m.count),
        MatchKind::AtLeastK => numbered("at_least_k=", m.count),
        MatchKind::Weighted => text::owned("weighted"),
    }
}

/// A text and a number after it.
fn numbered(before: &str, n: u32) -> (r: String)
    ensures
        r@ == before@ + text::decimal(n as nat),
{
    let mut s = text::owned(before);
    text::push_decimal(&mut s, n as u64);
    s
}

} // verus!
