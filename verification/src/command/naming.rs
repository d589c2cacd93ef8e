//! The names of techniques.

use crate::lexing;
use crate::lexing::{chars_in, fold, is_text, trim};
use crate::generic::techniques::TechniqueId;
use vstd::prelude::*;

verus! {

/// Every technique.
pub open spec fn every_id() -> Seq<TechniqueId> {
    seq![
        TechniqueId::LockedPointing,
        TechniqueId::LockedClaiming,
        TechniqueId::NakedPair,
        TechniqueId::NakedTriple,
        TechniqueId::NakedQuad,
        TechniqueId::HiddenPair,
        TechniqueId::HiddenTriple,
        TechniqueId::HiddenQuad,
        TechniqueId::XWing,
        TechniqueId::Swordfish,
        TechniqueId::Jellyfish,
        TechniqueId::XyWing,
        TechniqueId::UrType1,
        TechniqueId::UrType2,
        TechniqueId::Aic,
        TechniqueId::AlsXz,
        TechniqueId::XyzWing,
        TechniqueId::Bug,
        TechniqueId::SimpleColoring,
        TechniqueId::Skyscraper,
        TechniqueId::TwoStringKite,
        TechniqueId::CellForcingChain,
        TechniqueId::RegionForcingChain,
        TechniqueId::DynamicForcingChain,
        TechniqueId::NestedForcingChain,
        TechniqueId::NestedForcingChainL3,
        TechniqueId::NestedForcingChainL4,
        TechniqueId::GBraid,
    ]
}

/// The name of a technique.
pub open spec fn name_of(id: TechniqueId) -> Seq<char> {
    match id {
        TechniqueId::LockedPointing => "locked_pointing"@,
        TechniqueId::LockedClaiming => "locked_claiming"@,
        TechniqueId::NakedPair => "naked_pair"@,
        TechniqueId::NakedTriple => "naked_triple"@,
        TechniqueId::NakedQuad => "naked_quad"@,
        TechniqueId::HiddenPair => "hidden_pair"@,
        TechniqueId::HiddenTriple => "hidden_triple"@,
        TechniqueId::HiddenQuad => "hidden_quad"@,
        TechniqueId::XWing => "xwing"@,
        TechniqueId::Swordfish => "swordfish"@,
        TechniqueId::Jellyfish => "jellyfish"@,
        TechniqueId::XyWing => "xy_wing"@,
        TechniqueId::UrType1 => "ur_type1"@,
        TechniqueId::UrType2 => "ur_type2"@,
        TechniqueId::Aic => "aic"@,
        TechniqueId::AlsXz => "als_xz"@,
        TechniqueId::XyzWing => "xyz_wing"@,
        TechniqueId::Bug => "bug"@,
        TechniqueId::SimpleColoring => "simple_coloring"@,
        TechniqueId::Skyscraper => "skyscraper"@,
        TechniqueId::TwoStringKite => "two_string_kite"@,
        TechniqueId::CellForcingChain => "cell_forcing_chain"@,
        TechniqueId::RegionForcingChain => "region_forcing_chain"@,
        TechniqueId::DynamicForcingChain => "dynamic_forcing_chain"@,
        TechniqueId::NestedForcingChain => "nested_forcing_chain"@,
        TechniqueId::NestedForcingChainL3 => "nested_forcing_chain_l3"@,
        TechniqueId::NestedForcingChainL4 => "nested_forcing_chain_l4"@,
        TechniqueId::GBraid => "gbraid"@,
    }
}

/// The name of a technique.
pub fn technique_id_str(id: TechniqueId) -> (r: &'static str)
    ensures
        r@ == name_of(id),
{
    match id {
        TechniqueId::LockedPointing => "locked_pointing",
        TechniqueId::LockedClaiming => "locked_claiming",
        TechniqueId::NakedPair => "naked_pair",
        TechniqueId::NakedTriple => "naked_triple",
        TechniqueId::NakedQuad => "naked_quad",
        TechniqueId::HiddenPair => "hidden_pair",
        TechniqueId::HiddenTriple => "hidden_triple",
        TechniqueId::HiddenQuad => "hidden_quad",
        TechniqueId::XWing => "xwing",
        TechniqueId::Swordfish => "swordfish",
        TechniqueId::Jellyfish => "jellyfish",
        TechniqueId::XyWing => "xy_wing",
        TechniqueId::UrType1 => "ur_type1",
        TechniqueId::UrType2 => "ur_type2",
        TechniqueId::Aic => "aic",
        TechniqueId::AlsXz => "als_xz",
        TechniqueId::XyzWing => "xyz_wing",
        TechniqueId::Bug => "bug",
        TechniqueId::SimpleColoring => "simple_coloring",
        TechniqueId::Skyscraper => "skyscraper",
        TechniqueId::TwoStringKite => "two_string_kite",
        TechniqueId::CellForcingChain => "cell_forcing_chain",
        TechniqueId::RegionForcingChain => "region_forcing_chain",
        TechniqueId::DynamicForcingChain => "dynamic_forcing_chain",
        TechniqueId::NestedForcingChain => "nested_forcing_chain",
        TechniqueId::NestedForcingChainL3 => "nested_forcing_chain_l3",
        TechniqueId::NestedForcingChainL4 => "nested_forcing_chain_l4",
        TechniqueId::GBraid => "gbraid",
    }
}

/// Another name of the X-wing.
pub open spec fn is_x_wing_alias(n: Seq<char>) -> bool {
    n == "x_wing"@ || n == "fish_xwing"@ || n == "fish_2"@
}

/// The length, the first and the last character of a name.
spec fn ends(s: Seq<char>) -> (nat, char, char) {
    (s.len(), s[0], s.last())
}

/// What the names look like at their ends.
proof fn lemma_ends(id: TechniqueId)
    ensures
        ends(name_of(id)) == match id {
            TechniqueId::LockedPointing => (15nat, 'l', 'g'),
            TechniqueId::LockedClaiming => (15nat, 'l', 'g'),
            TechniqueId::NakedPair => (10nat, 'n', 'r'),
            TechniqueId::NakedTriple => (12nat, 'n', 'e'),
            TechniqueId::NakedQuad => (10nat, 'n', 'd'),
            TechniqueId::HiddenPair => (11nat, 'h', 'r'),
            TechniqueId::HiddenTriple => (13nat, 'h', 'e'),
            TechniqueId::HiddenQuad => (11nat, 'h', 'd'),
            TechniqueId::XWing => (5nat, 'x', 'g'),
            TechniqueId::Swordfish => (9nat, 's', 'h'),
            TechniqueId::Jellyfish => (9nat, 'j', 'h'),
            TechniqueId::XyWing => (7nat, 'x', 'g'),
            TechniqueId::UrType1 => (8nat, 'u', '1'),
            TechniqueId::UrType2 => (8nat, 'u', '2'),
            TechniqueId::Aic => (3nat, 'a', 'c'),
            TechniqueId::AlsXz => (6nat, 'a', 'z'),
            TechniqueId::XyzWing => (8nat, 'x', 'g'),
            TechniqueId::Bug => (3nat, 'b', 'g'),
            TechniqueId::SimpleColoring => (15nat, 's', 'g'),
            TechniqueId::Skyscraper => (10nat, 's', 'r'),
            TechniqueId::TwoStringKite => (15nat, 't', 'e'),
            TechniqueId::CellForcingChain => (18nat, 'c', 'n'),
            TechniqueId::RegionForcingChain => (20nat, 'r', 'n'),
            TechniqueId::DynamicForcingChain => (21nat, 'd', 'n'),
            TechniqueId::NestedForcingChain => (20nat, 'n', 'n'),
            TechniqueId::NestedForcingChainL3 => (23nat, 'n', '3'),
            TechniqueId::NestedForcingChainL4 => (23nat, 'n', '4'),
            TechniqueId::GBraid => (6nat, 'g', 'd'),
        },
        id == TechniqueId::LockedPointing ==> name_of(id)[7] == 'p',
        id == TechniqueId::LockedClaiming ==> name_of(id)[7] == 'c',
        !is_x_wing_alias(name_of(id)),
{
    reveal_strlit("x_wing");
    reveal_strlit("fish_xwing");
    reveal_strlit("fish_2");
    match id {
        TechniqueId::LockedPointing => reveal_strlit("locked_pointing"),
        TechniqueId::LockedClaiming => reveal_strlit("locked_claiming"),
        TechniqueId::NakedPair => reveal_strlit("naked_pair"),
        TechniqueId::NakedTriple => reveal_strlit("naked_triple"),
        TechniqueId::NakedQuad => reveal_strlit("naked_quad"),
        TechniqueId::HiddenPair => reveal_strlit("hidden_pair"),
        TechniqueId::HiddenTriple => reveal_strlit("hidden_triple"),
        TechniqueId::HiddenQuad => reveal_strlit("hidden_quad"),
        TechniqueId::XWing => reveal_strlit("xwing"),
        TechniqueId::Swordfish => reveal_strlit("swordfish"),
        TechniqueId::Jellyfish => reveal_strlit("jellyfish"),
        TechniqueId::XyWing => reveal_strlit("xy_wing"),
        TechniqueId::UrType1 => reveal_strlit("ur_type1"),
        TechniqueId::UrType2 => reveal_strlit("ur_type2"),
        TechniqueId::Aic => reveal_strlit("aic"),
        TechniqueId::AlsXz => reveal_strlit("als_xz"),
        TechniqueId::XyzWing => reveal_strlit("xyz_wing"),
        TechniqueId::Bug => reveal_strlit("bug"),
        TechniqueId::SimpleColoring => reveal_strlit("simple_coloring"),
        TechniqueId::Skyscraper => reveal_strlit("skyscraper"),
        TechniqueId::TwoStringKite => reveal_strlit("two_string_kite"),
        TechniqueId::CellForcingChain => reveal_strlit("cell_forcing_chain"),
        TechniqueId::RegionForcingChain => reveal_strlit("region_forcing_chain"),
        TechniqueId::DynamicForcingChain => reveal_strlit("dynamic_forcing_chain"),
        TechniqueId::NestedForcingChain => reveal_strlit("nested_forcing_chain"),
        TechniqueId::NestedForcingChainL3 => reveal_strlit("nested_forcing_chain_l3"),
        TechniqueId::NestedForcingChainL4 => reveal_strlit("nested_forcing_chain_l4"),
        TechniqueId::GBraid => reveal_strlit("gbraid"),
    }
}

/// Different techniques have different names.
pub proof fn law_names_differ(a: TechniqueId, b: TechniqueId)
    ensures
        name_of(a) == name_of(b) ==> a == b,
{
    lemma_ends(a);
    lemma_ends(b);
}

/// A name as it is looked up: trimmed, in lower case, with `_` for `-`.
pub open spec fn looked_up(s: Seq<char>) -> Seq<char> {
    lexing::folded(lexing::trimmed(s), "-"@, '_')
}

/// Every technique.
fn every_technique() -> (v: Vec<TechniqueId>)
    ensures
        v@ == every_id(),
{
    let v: Vec<TechniqueId> = vec![
        TechniqueId::LockedPointing,
        TechniqueId::LockedClaiming,
        TechniqueId::NakedPair,
        TechniqueId::NakedTriple,
        TechniqueId::NakedQuad,
        TechniqueId::HiddenPair,
        TechniqueId::HiddenTriple,
        TechniqueId::HiddenQuad,
        TechniqueId::XWing,
        TechniqueId::Swordfish,
        TechniqueId::Jellyfish,
        TechniqueId::XyWing,
        TechniqueId::UrType1,
        TechniqueId::UrType2,
        TechniqueId::Aic,
        TechniqueId::AlsXz,
        TechniqueId::XyzWing,
        TechniqueId::Bug,
        TechniqueId::SimpleColoring,
        TechniqueId::Skyscraper,
        TechniqueId::TwoStringKite,
        TechniqueId::CellForcingChain,
        TechniqueId::RegionForcingChain,
        TechniqueId::DynamicForcingChain,
        TechniqueId::NestedForcingChain,
        TechniqueId::NestedForcingChainL3,
        TechniqueId::NestedForcingChainL4,
        TechniqueId::GBraid,
    ];
    assert(v@ =~= every_id());
    v
}

/// Every technique is listed.
proof fn lemma_listed(id: TechniqueId)
    ensures
        every_id().contains(id),
{
    let s = every_id();
    match id {
        TechniqueId::LockedPointing => assert(s[0] == id),
        TechniqueId::LockedClaiming => assert(s[1] == id),
        TechniqueId::NakedPair => assert(s[2] == id),
        TechniqueId::NakedTriple => assert(s[3] == id),
        TechniqueId::NakedQuad => assert(s[4] == id),
        TechniqueId::HiddenPair => assert(s[5] == id),
        TechniqueId::HiddenTriple => assert(s[6] == id),
        TechniqueId::HiddenQuad => assert(s[7] == id),
        TechniqueId::XWing => assert(s[8] == id),
        TechniqueId::Swordfish => assert(s[9] == id),
        TechniqueId::Jellyfish => assert(s[10] == id),
        TechniqueId::XyWing => assert(s[11] == id),
        TechniqueId::UrType1 => assert(s[12] == id),
        TechniqueId::UrType2 => assert(s[13] == id),
        TechniqueId::Aic => assert(s[14] == id),
        TechniqueId::AlsXz => assert(s[15] == id),
        TechniqueId::XyzWing => assert(s[16] == id),
        TechniqueId::Bug => assert(s[17] == id),
        TechniqueId::SimpleColoring => assert(s[18] == id),
        TechniqueId::Skyscraper => assert(s[19] == id),
        TechniqueId::TwoStringKite => assert(s[20] == id),
        TechniqueId::CellForcingChain => assert(s[21] == id),
        TechniqueId::RegionForcingChain => assert(s[22] == id),
        TechniqueId::DynamicForcingChain => assert(s[23] == id),
        TechniqueId::NestedForcingChain => assert(s[24] == id),
        TechniqueId::NestedForcingChainL3 => assert(s[25] == id),
        TechniqueId::NestedForcingChainL4 => assert(s[26] == id),
        TechniqueId::GBraid => assert(s[27] == id),
    }
}

/// `r` is what a name stands for.
pub open spec fn is_found(s: Seq<char>, r: Option<TechniqueId>) -> bool {
    match r {
        Some(id) => looked_up(s) == name_of(id) || (id == TechniqueId::XWing && is_x_wing_alias(
            looked_up(s),
        )),
        None => !is_x_wing_alias(looked_up(s)) && forall|id: TechniqueId|
            #[trigger] name_of(id) != looked_up(s),
    }
}

/// The technique that a name stands for. Case, `-` for `_`, and white space at the ends do
/// not matter.
pub fn parse_technique_id(s: &str) -> (r: Option<TechniqueId>)
    ensures
        is_found(s@, r),
{
    let n: Vec<char> = fold(&trim(&chars_in(s)), "-", '_');
    let all: Vec<TechniqueId> = every_technique();
    if is_text(&n, "x_wing") || is_text(&n, "fish_xwing") || is_text(&n, "fish_2") {
        return Some(TechniqueId::XWing);
    }
    let mut i: usize = 0;
    while i < all.len()
        invariant
            i <= all@.len(),
            n@ == looked_up(s@),
            forall|j: int| 0 <= j < i ==> name_of(#[trigger] all@[j]) != n@,
        decreases all@.len() - i,
    {
        if is_text(&n, technique_id_str(all[i])) {
            return Some(all[i]);
        }
        i += 1;
    }
    proof {
        assert forall|id: TechniqueId| #[trigger] name_of(id) != looked_up(s@) by {
            lemma_listed(id);
            let j = choose|j: int| 0 <= j < all@.len() && all@[j] == id;
            assert(name_of(all@[j]) != n@);
        }
    }
    None
}

/// The character stands in a name: a lower case letter, a digit or `_`.
spec fn is_plain(c: char) -> bool {
    ('a' <= c && c <= 'z') || ('0' <= c && c <= '9') || c == '_'
}

/// Names are made of plain characters.
proof fn lemma_plain(id: TechniqueId)
    ensures
        name_of(id).len() > 0,
        forall|i: int| 0 <= i < name_of(id).len() ==> is_plain(#[trigger] name_of(id)[i]),
{
    match id {
        TechniqueId::LockedPointing => reveal_strlit("locked_pointing"),
        TechniqueId::LockedClaiming => reveal_strlit("locked_claiming"),
        TechniqueId::NakedPair => reveal_strlit("naked_pair"),
        TechniqueId::NakedTriple => reveal_strlit("naked_triple"),
        TechniqueId::NakedQuad => reveal_strlit("naked_quad"),
        TechniqueId::HiddenPair => reveal_strlit("hidden_pair"),
        TechniqueId::HiddenTriple => reveal_strlit("hidden_triple"),
        TechniqueId::HiddenQuad => reveal_strlit("hidden_quad"),
        TechniqueId::XWing => reveal_strlit("xwing"),
        TechniqueId::Swordfish => reveal_strlit("swordfish"),
        TechniqueId::Jellyfish => reveal_strlit("jellyfish"),
        TechniqueId::XyWing => reveal_strlit("xy_wing"),
        TechniqueId::UrType1 => reveal_strlit("ur_type1"),
        TechniqueId::UrType2 => reveal_strlit("ur_type2"),
        TechniqueId::Aic => reveal_strlit("aic"),
        TechniqueId::AlsXz => reveal_strlit("als_xz"),
        TechniqueId::XyzWing => reveal_strlit("xyz_wing"),
        TechniqueId::Bug => reveal_strlit("bug"),
        TechniqueId::SimpleColoring => reveal_strlit("simple_coloring"),
        TechniqueId::Skyscraper => reveal_strlit("skyscraper"),
        TechniqueId::TwoStringKite => reveal_strlit("two_string_kite"),
        TechniqueId::CellForcingChain => reveal_strlit("cell_forcing_chain"),
        TechniqueId::RegionForcingChain => reveal_strlit("region_forcing_chain"),
        TechniqueId::DynamicForcingChain => reveal_strlit("dynamic_forcing_chain"),
        TechniqueId::NestedForcingChain => reveal_strlit("nested_forcing_chain"),
        TechniqueId::NestedForcingChainL3 => reveal_strlit("nested_forcing_chain_l3"),
        TechniqueId::NestedForcingChainL4 => reveal_strlit("nested_forcing_chain_l4"),
        TechniqueId::GBraid => reveal_strlit("gbraid"),
    }
    assert forall|i: int| 0 <= i < name_of(id).len() implies is_plain(
        #[trigger] name_of(id)[i],
    ) by {
        assert(i == 0 || i == 1 || i == 2 || i == 3 || i == 4 || i == 5 || i == 6 || i == 7 || i == 8 || i == 9 || i == 10 || i == 11 || i == 12 || i == 13 || i == 14 || i == 15 || i == 16 || i == 17 || i == 18 || i == 19 || i == 20 || i == 21 || i == 22);
    }
}

/// A name is looked up as it is.
proof fn lemma_name_looked_up(id: TechniqueId)
    ensures
        looked_up(name_of(id)) == name_of(id),
{
    let s = name_of(id);
    lemma_plain(id);
    assert(is_plain(s[0]) && is_plain(s[s.len() - 1]));
    assert(lexing::trimmed(s) == s);
    reveal_strlit("-");
    assert forall|i: int| 0 <= i < s.len() implies looked_up(s)[i] == s[i] by {
        assert(is_plain(s[i]));
        if "-"@.contains(s[i]) {
            assert("-"@[0] == s[i]);
        }
    }
    assert(looked_up(s) =~= s);
}

/// Looking up the name of a technique gives that technique.
pub proof fn law_name_is_read_back(id: TechniqueId, s: Seq<char>, found: Option<TechniqueId>)
    requires
        s == name_of(id),
        is_found(s, found),
    ensures
        found == Some(id),
{
    lemma_name_looked_up(id);
    lemma_ends(id);
    if found is Some {
        law_names_differ(id, found->0);
    }
}

} // verus!
