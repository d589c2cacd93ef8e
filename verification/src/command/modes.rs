//! What the words on a command line ask for.

use crate::lexing;
use crate::lexing::{chars_in, fold, is_text, parse_number, position, slice, split, trim};
use crate::generic::cfc_reverse::CfcReverseSpec;
use crate::generic::dfc_reverse::DfcReverseSpec;
use crate::generic::techniques::{TechniqueId, Tier};
use crate::vicinity::climb::BxbMutator;
use vstd::prelude::*;

verus! {

/// How the required techniques have to occur.
#[derive(Debug, Clone, Copy, PartialEq, Eq, Structural)]
pub enum MatchKind {
    AllOf,
    AnyOf,
    ExactK,
    AtLeastK,
    Weighted,
}

/// The word names the kind.
pub open spec fn names_kind(w: Seq<char>, k: MatchKind) -> bool {
    match k {
        MatchKind::AllOf => w == "all_of"@ || w == "allof"@ || w == "all"@,
        MatchKind::AnyOf => w == "any_of"@ || w == "anyof"@ || w == "any"@,
        MatchKind::ExactK => w == "exact_k"@ || w == "exactk"@,
        MatchKind::AtLeastK => w == "at_least_k"@ || w == "atleastk"@ || w == "atleast_k"@,
        MatchKind::Weighted => w == "weighted"@,
    }
}

/// A word without white space at its ends, in lower case.
pub open spec fn plain(s: Seq<char>) -> Seq<char> {
    lexing::folded(lexing::trimmed(s), ""@, '_')
}

/// A word without white space at its ends, in lower case.
fn plain_word(s: &str) -> (r: Vec<char>)
    ensures
        r@ == plain(s@),
{
    fold(&trim(&chars_in(s)), "", '_')
}

/// The kind that a word names, if it names one.
pub fn parse_match_kind(s: &str) -> (r: Option<MatchKind>)
    ensures
        r matches Some(k) ==> names_kind(plain(s@), k),
        r is None ==> forall|k: MatchKind| !#[trigger] names_kind(plain(s@), k),
{
    let w: Vec<char> = plain_word(s);
    if is_text(&w, "all_of") || is_text(&w, "allof") || is_text(&w, "all") {
        Some(MatchKind::AllOf)
    } else if is_text(&w, "any_of") || is_text(&w, "anyof") || is_text(&w, "any") {
        Some(MatchKind::AnyOf)
    } else if is_text(&w, "exact_k") || is_text(&w, "exactk") {
        Some(MatchKind::ExactK)
    } else if is_text(&w, "at_least_k") || is_text(&w, "atleastk") || is_text(&w, "atleast_k") {
        Some(MatchKind::AtLeastK)
    } else if is_text(&w, "weighted") {
        Some(MatchKind::Weighted)
    } else {
        None
    }
}

/// No word names two kinds.
pub proof fn law_one_kind(w: Seq<char>, a: MatchKind, b: MatchKind)
    requires
        names_kind(w, a),
        names_kind(w, b),
    ensures
        a == b,
{
    reveal_strlit("all_of");
    reveal_strlit("allof");
    reveal_strlit("all");
    reveal_strlit("any_of");
    reveal_strlit("anyof");
    reveal_strlit("any");
    reveal_strlit("exact_k");
    reveal_strlit("exactk");
    reveal_strlit("at_least_k");
    reveal_strlit("atleastk");
    reveal_strlit("atleast_k");
    reveal_strlit("weighted");
    assert("all_of"@[1] == 'l' && "allof"@[1] == 'l' && "all"@[1] == 'l');
    assert("any_of"@[1] == 'n' && "anyof"@[1] == 'n' && "any"@[1] == 'n');
    assert("exact_k"@[1] == 'x' && "exactk"@[1] == 'x');
    assert("at_least_k"@[1] == 't' && "atleastk"@[1] == 't' && "atleast_k"@[1] == 't');
    assert("weighted"@[1] == 'e');
}

/// Why a kind cannot be had.
#[derive(Debug, Clone, Copy, PartialEq, Eq, Structural)]
pub enum KindError {
    /// Nothing is required.
    NothingRequired,
    /// There are no weights.
    NoWeights,
    /// The command has no such kind.
    NotOffered,
}

/// Whether a kind can be had with `required` techniques. A text search offers the first two
/// kinds only.
pub fn check_kind(kind: MatchKind, required: usize, weights: bool, text_search: bool) -> (r: Result<
    (),
    KindError,
>)
    ensures
        r == (if text_search && kind != MatchKind::AllOf && kind != MatchKind::AnyOf {
            Err(KindError::NotOffered)
        } else if kind == MatchKind::Weighted && !weights {
            Err(KindError::NoWeights)
        } else if required == 0 && kind != MatchKind::AllOf && kind != MatchKind::Weighted {
            Err(KindError::NothingRequired)
        } else {
            Ok(())
        }),
{
    match kind {
        MatchKind::AllOf => Ok(()),
        MatchKind::AnyOf => if required == 0 {
            Err(KindError::NothingRequired)
        } else {
            Ok(())
        },
        MatchKind::ExactK | MatchKind::AtLeastK => if text_search {
            Err(KindError::NotOffered)
        } else if required == 0 {
            Err(KindError::NothingRequired)
        } else {
            Ok(())
        },
        MatchKind::Weighted => if text_search {
            Err(KindError::NotOffered)
        } else if !weights {
            Err(KindError::NoWeights)
        } else {
            Ok(())
        },
    }
}

/// A technique that has a search of its own and goes by names of its own.
#[derive(Debug, Clone, Copy, PartialEq, Eq, Structural)]
pub enum Special {
    /// Nested forcing chains of a level.
    NestedFc(u8),
    NestedAic,
    RegionFc,
    DynamicFc,
    CellFc,
}

/// The word, in lower case and with `_` for `-`, names nested forcing chains of the level.
pub open spec fn names_nested_fc(w: Seq<char>, level: u8) -> bool {
    ||| level == 2 && (w == "nested_fc_l2"@ || w == "nested_forcing_chain"@ || w == "nfc"@ || w
        == "nested_fc"@)
    ||| level == 3 && (w == "nested_fc_l3"@ || w == "nested_forcing_chain_l3"@ || w == "nfc_l3"@)
    ||| level == 4 && (w == "nested_fc_l4"@ || w == "nested_forcing_chain_l4"@ || w == "nfc_l4"@)
}

/// The word names nested forcing chains of some level.
pub open spec fn names_some_nested_fc(w: Seq<char>) -> bool {
    names_nested_fc(w, 2) || names_nested_fc(w, 3) || names_nested_fc(w, 4)
}

/// The word, in lower case and with `_` for `-` and for blanks, names the forcing chains.
pub open spec fn names_fc(w: Seq<char>, s: Special) -> bool {
    match s {
        Special::RegionFc => w == "region_fc"@ || w == "region_forcing_chain"@ || w
            == "regionforcingchain"@ || w == "regionfc"@ || w == "rfc"@,
        Special::DynamicFc => w == "dynamic_fc"@ || w == "dynamic_forcing_chain"@ || w
            == "dynamicforcingchain"@ || w == "dfc"@ || w == "dfcl1"@,
        Special::CellFc => w == "cell_fc"@ || w == "cell_forcing_chain"@ || w
            == "cellforcingchain"@ || w == "cellfc"@ || w == "cfc"@,
        _ => false,
    }
}

/// `r` is the special technique that a word names. The forcing chains are so named only where
/// all of the required techniques have to occur.
pub open spec fn is_special(s: Seq<char>, all_of: bool, r: Option<Special>) -> bool {
    let w = lexing::folded(lexing::trimmed(s), "-"@, '_');
    let v = lexing::folded(lexing::trimmed(s), "- "@, '_');
    match r {
        Some(Special::NestedFc(l)) => names_nested_fc(w, l),
        Some(Special::NestedAic) => !names_some_nested_fc(w) && w == "nested_aic"@,
        Some(f) => !names_some_nested_fc(w) && w != "nested_aic"@ && all_of && names_fc(v, f),
        None => !names_some_nested_fc(w) && w != "nested_aic"@ && (all_of ==> forall|f: Special|
            !#[trigger] names_fc(v, f)),
    }
}

/// The special technique that a word names, if it names one.
pub fn special_of(s: &str, all_of: bool) -> (r: Option<Special>)
    ensures
        is_special(s@, all_of, r),
{
    let t: Vec<char> = trim(&chars_in(s));
    let w: Vec<char> = fold(&t, "-", '_');
    if is_text(&w, "nested_fc_l2") || is_text(&w, "nested_forcing_chain") || is_text(&w, "nfc")
        || is_text(&w, "nested_fc") {
        return Some(Special::NestedFc(2));
    }
    if is_text(&w, "nested_fc_l3") || is_text(&w, "nested_forcing_chain_l3") || is_text(
        &w,
        "nfc_l3",
    ) {
        return Some(Special::NestedFc(3));
    }
    if is_text(&w, "nested_fc_l4") || is_text(&w, "nested_forcing_chain_l4") || is_text(
        &w,
        "nfc_l4",
    ) {
        return Some(Special::NestedFc(4));
    }
    if is_text(&w, "nested_aic") {
        return Some(Special::NestedAic);
    }
    if !all_of {
        return None;
    }
    let v: Vec<char> = fold(&t, "- ", '_');
    if is_text(&v, "region_fc") || is_text(&v, "region_forcing_chain") || is_text(
        &v,
        "regionforcingchain",
    ) || is_text(&v, "regionfc") || is_text(&v, "rfc") {
        return Some(Special::RegionFc);
    }
    if is_text(&v, "dynamic_fc") || is_text(&v, "dynamic_forcing_chain") || is_text(
        &v,
        "dynamicforcingchain",
    ) || is_text(&v, "dfc") || is_text(&v, "dfcl1") {
        return Some(Special::DynamicFc);
    }
    if is_text(&v, "cell_fc") || is_text(&v, "cell_forcing_chain") || is_text(
        &v,
        "cellforcingchain",
    ) || is_text(&v, "cellfc") || is_text(&v, "cfc") {
        return Some(Special::CellFc);
    }
    None
}

/// A technique with a search that builds puzzles for it.
#[derive(Debug, Clone, Copy, PartialEq, Eq, Structural)]
pub enum Target {
    NakedQuad,
    HiddenQuad,
    AlsXz,
    UrType2,
    Aic,
}

/// The word, in lower case and with `-` for `_`, names the target.
pub open spec fn names_target(w: Seq<char>, t: Target) -> bool {
    match t {
        Target::NakedQuad => w == "naked-quad"@ || w == "nakedquad"@,
        Target::HiddenQuad => w == "hidden-quad"@ || w == "hiddenquad"@,
        Target::AlsXz => w == "als-xz"@ || w == "alsxz"@ || w == "als"@,
        Target::UrType2 => w == "ur-type2"@ || w == "urtype2"@ || w == "ur2"@,
        Target::Aic => w == "aic"@,
    }
}

/// The target that a word names, if it names one.
pub fn parse_target(s: &str) -> (r: Option<Target>)
    ensures
        ({
            let w = lexing::folded(lexing::trimmed(s@), "_"@, '-');
            match r {
                Some(t) => names_target(w, t),
                None => forall|t: Target| !#[trigger] names_target(w, t),
            }
        }),
{
    let w: Vec<char> = fold(&trim(&chars_in(s)), "_", '-');
    if is_text(&w, "naked-quad") || is_text(&w, "nakedquad") {
        Some(Target::NakedQuad)
    } else if is_text(&w, "hidden-quad") || is_text(&w, "hiddenquad") {
        Some(Target::HiddenQuad)
    } else if is_text(&w, "als-xz") || is_text(&w, "alsxz") || is_text(&w, "als") {
        Some(Target::AlsXz)
    } else if is_text(&w, "ur-type2") || is_text(&w, "urtype2") || is_text(&w, "ur2") {
        Some(Target::UrType2)
    } else if is_text(&w, "aic") {
        Some(Target::Aic)
    } else {
        None
    }
}

/// A way to rate by braids.
#[derive(Debug, Clone, Copy, PartialEq, Eq, Structural)]
pub enum Classification {
    B,
    TeDepth,
    BxB,
    BxBB,
}

/// The word for a way to rate.
pub open spec fn classification_name(c: Classification) -> Seq<char> {
    match c {
        Classification::B => "b"@,
        Classification::TeDepth => "te-depth"@,
        Classification::BxB => "bxb"@,
        Classification::BxBB => "bxbb"@,
    }
}

/// The way to rate that a word names, if it names one.
pub fn parse_classification(s: &str) -> (r: Option<Classification>)
    ensures
        match r {
            Some(c) => s@ == classification_name(c),
            None => forall|c: Classification| s@ != #[trigger] classification_name(c),
        },
{
    let w: Vec<char> = chars_in(s);
    if is_text(&w, "b") {
        Some(Classification::B)
    } else if is_text(&w, "te-depth") {
        Some(Classification::TeDepth)
    } else if is_text(&w, "bxb") {
        Some(Classification::BxB)
    } else if is_text(&w, "bxbb") {
        Some(Classification::BxBB)
    } else {
        None
    }
}

/// The way to propose puzzles that a word names. Any other word stands for the second.
pub fn parse_mutator(s: &str) -> (r: BxbMutator)
    ensures
        r == if s@ == "v1"@ {
            BxbMutator::V1
        } else if s@ == "v3"@ {
            BxbMutator::V3
        } else if s@ == "v4"@ {
            BxbMutator::V4
        } else {
            BxbMutator::V2
        },
{
    let w: Vec<char> = chars_in(s);
    if is_text(&w, "v1") {
        BxbMutator::V1
    } else if is_text(&w, "v3") {
        BxbMutator::V3
    } else if is_text(&w, "v4") {
        BxbMutator::V4
    } else {
        BxbMutator::V2
    }
}

/// The grid shapes that searches are offered for.
pub open spec fn is_offered(n: int, br: int, bc: int) -> bool {
    ||| (n, br, bc) == (6int, 2int, 3int)
    ||| (n, br, bc) == (9int, 3int, 3int)
    ||| (n, br, bc) == (12int, 3int, 4int)
    ||| (n, br, bc) == (16int, 4int, 4int)
}

/// The three numbers of a shape, `NxBRxBC`.
pub open spec fn is_shape_text(s: Seq<char>) -> bool {
    let p = lexing::pieces(lexing::folded(lexing::trimmed(s), ""@, '_'), 'x');
    &&& p.len() == 3
    &&& forall|i: int| 0 <= i < 3 ==> lexing::is_number(#[trigger] p[i], u32::MAX as nat)
}

/// The numbers of a shape.
pub open spec fn shape_number(s: Seq<char>, i: int) -> nat {
    lexing::value_of(
        lexing::digits_part(
            lexing::pieces(lexing::folded(lexing::trimmed(s), ""@, '_'), 'x')[i],
        ),
    )
}

/// The shape that a text names, where it is one that is offered.
pub fn parse_size(s: &str) -> (r: Option<(u32, u32, u32)>)
    ensures
        r is Some == (is_shape_text(s@) && is_offered(
            shape_number(s@, 0) as int,
            shape_number(s@, 1) as int,
            shape_number(s@, 2) as int,
        )),
        r matches Some(x) ==> x.0 == shape_number(s@, 0) && x.1 == shape_number(s@, 1) && x.2
            == shape_number(s@, 2),
{
    let p: Vec<Vec<char>> = split(&plain_word(s), 'x');
    let ghost q = lexing::pieces(lexing::folded(lexing::trimmed(s@), ""@, '_'), 'x');
    assert(lexing::views(p@) == q);
    assert(q.len() == p@.len());
    if p.len() != 3 {
        return None;
    }
    assert(q[0] == p@[0]@ && q[1] == p@[1]@ && q[2] == p@[2]@);
    let max: u64 = u32::MAX as u64;
    let (a, b, c): (Option<u64>, Option<u64>, Option<u64>) = (
        parse_number(&p[0], max),
        parse_number(&p[1], max),
        parse_number(&p[2], max),
    );
    match (a, b, c) {
        (Some(n), Some(br), Some(bc)) => {
            assert forall|i: int| 0 <= i < 3 implies lexing::is_number(
                #[trigger] q[i],
                u32::MAX as nat,
            ) by {
                assert(i == 0 || i == 1 || i == 2);
            }
            if (n == 6 && br == 2 && bc == 3) || (n == 9 && br == 3 && bc == 3) || (n == 12 && br
                == 3 && bc == 4) || (n == 16 && br == 4 && bc == 4) {
                Some((n as u32, br as u32, bc as u32))
            } else {
                None
            }
        },
        _ => {
            assert(!is_shape_text(s@)) by {
                if is_shape_text(s@) {
                    assert(lexing::is_number(q[0], u32::MAX as nat));
                    assert(lexing::is_number(q[1], u32::MAX as nat));
                    assert(lexing::is_number(q[2], u32::MAX as nat));
                }
            }
            None
        },
    }
}

/// The word names the tier.
pub open spec fn names_tier(w: Seq<char>, t: Tier) -> bool {
    match t {
        Tier::T1 => w == "t1"@,
        Tier::T2 => w == "t2"@,
        Tier::T3 => w == "t3"@,
        Tier::T4Plus => w == "t4"@ || w == "t4plus"@ || w == "t4+"@,
    }
}

/// The tier that a word names, if it names one.
pub fn parse_tier(s: &str) -> (r: Option<Tier>)
    ensures
        match r {
            Some(t) => names_tier(plain(s@), t),
            None => forall|t: Tier| !#[trigger] names_tier(plain(s@), t),
        },
{
    let w: Vec<char> = plain_word(s);
    if is_text(&w, "t1") {
        Some(Tier::T1)
    } else if is_text(&w, "t2") {
        Some(Tier::T2)
    } else if is_text(&w, "t3") {
        Some(Tier::T3)
    } else if is_text(&w, "t4") || is_text(&w, "t4plus") || is_text(&w, "t4+") {
        Some(Tier::T4Plus)
    } else {
        None
    }
}

/// The text is a range of clues, `MIN..MAX`, that splits at `k`.
pub open spec fn is_range_at(s: Seq<char>, k: int) -> bool {
    &&& k == lexing::find_from(s, '.', 0)
    &&& k + 1 < s.len()
    &&& s[k + 1] == '.'
    &&& lexing::is_number(lexing::trimmed(s.take(k)), u32::MAX as nat)
    &&& lexing::is_number(lexing::trimmed(s.skip(k + 2)), u32::MAX as nat)
}

/// The lower and the upper end of a range of clues, `MIN..MAX`.
pub fn parse_clue_range(s: &str) -> (r: Option<(u32, u32)>)
    ensures
        ({
            let t = lexing::trimmed(s@);
            let k = lexing::find_from(t, '.', 0);
            &&& r is Some == is_range_at(t, k)
            &&& r matches Some(x) ==> x.0 == lexing::value_of(
                lexing::digits_part(lexing::trimmed(t.take(k))),
            ) && x.1 == lexing::value_of(lexing::digits_part(lexing::trimmed(t.skip(k + 2))))
        }),
{
    let t: Vec<char> = trim(&chars_in(s));
    let k: usize = position(&t, '.', 0);
    if k >= t.len() || t.len() - k < 2 || t[k + 1] != '.' {
        return None;
    }
    let a: Vec<char> = trim(&slice(&t, 0, k));
    let b: Vec<char> = trim(&slice(&t, k + 2, t.len()));
    assert(t@.subrange(0, k as int) =~= t@.take(k as int));
    assert(t@.subrange(k + 2, t@.len() as int) =~= t@.skip(k + 2));
    let max: u64 = u32::MAX as u64;
    match (parse_number(&a, max), parse_number(&b, max)) {
        (Some(x), Some(y)) => Some((x as u32, y as u32)),
        _ => None,
    }
}

/// The share of the cells, in percent, from which and up to which a tier has clues.
pub open spec fn band_percent(t: Tier) -> (int, int) {
    match t {
        Tier::T1 => (40, 55),
        Tier::T2 => (30, 42),
        Tier::T3 => (27, 36),
        Tier::T4Plus => (20, 32),
    }
}

/// `percent` of `cells`, to the nearest whole number.
pub open spec fn share(cells: int, percent: int) -> int {
    (cells * percent + 50) / 100
}

/// The band of clues of a tier where none is asked for.
pub fn default_band(t: Tier, cells: u32) -> (r: (u32, u32))
    requires
        cells <= 0x10000,
    ensures
        r.0 == share(cells as int, band_percent(t).0),
        r.1 == share(cells as int, band_percent(t).1),
        r.0 <= r.1 <= cells,
{
    let (lo, hi): (u32, u32) = match t {
        Tier::T1 => (40, 55),
        Tier::T2 => (30, 42),
        Tier::T3 => (27, 36),
        Tier::T4Plus => (20, 32),
    };
    assert(cells * lo <= cells * hi <= cells * 55) by (nonlinear_arith)
        requires
            lo <= hi <= 55,
    ;
    assert(cells == 0 || cells * 55 + 50 < cells * 100 + 100);
    ((cells * lo + 50) / 100, (cells * hi + 50) / 100)
}

/// The number of workers: as many as asked for, or as the machine has.
pub fn worker_count(threads: usize, fallback: usize, available: usize) -> (r: usize)
    ensures
        r == if threads != 0 {
            threads
        } else if fallback != 0 {
            fallback
        } else {
            available
        },
{
    if threads != 0 {
        threads
    } else if fallback != 0 {
        fallback
    } else {
        available
    }
}

/// The seeds that a search for dynamic forcing chains tries: as many as the attempts for
/// each puzzle, for each puzzle asked for, but no more than ten million.
pub open spec fn total_attempts(per_puzzle: int, num: int) -> int {
    let n = if num < 1 {
        1
    } else {
        num
    };
    if per_puzzle * n > 10_000_000 {
        10_000_000
    } else {
        per_puzzle * n
    }
}

/// The word switches something off.
pub open spec fn is_off(s: Seq<char>) -> bool {
    let w = lexing::trimmed(s);
    w == "0"@ || w == "false"@ || w == "no"@
}

/// Whether a setting is on. It is where nothing is said.
pub fn is_on(setting: Option<&str>) -> (r: bool)
    ensures
        r == (setting is None || !is_off(setting->0@)),
{
    match setting {
        None => true,
        Some(s) => {
            let w: Vec<char> = trim(&chars_in(s));
            !(is_text(&w, "0") || is_text(&w, "false") || is_text(&w, "no"))
        },
    }
}

/// The score below which puzzles with dynamic forcing chains stay, in thousandths: the one
/// that was read, none if none is asked for, and else the one below which nested chains do
/// not come in, which only matters where these are left out.
pub fn upper_score(read: Option<i64>, none_asked: bool, nested_left_out: bool) -> (r: Option<i64>)
    ensures
        r == if read is Some {
            read
        } else if none_asked || !nested_left_out {
            None
        } else {
            Some(9500)
        },
{
    match read {
        Some(x) => Some(x),
        None => if none_asked || !nested_left_out {
            None
        } else {
            Some(9500)
        },
    }
}

/// Whether a word asks for no upper score.
pub fn asks_for_none(setting: Option<&str>) -> (r: bool)
    ensures
        r == (setting is Some && lexing::trimmed(setting->0@) == "none"@),
{
    match setting {
        None => false,
        Some(s) => is_text(&trim(&chars_in(s)), "none"),
    }
}

/// What a search for dynamic forcing chains goes by.
pub fn dfc_spec(
    upper: Option<i64>,
    nested_left_out: bool,
    attempts_per: u32,
    num: u32,
    seed: u64,
    clue_min: u32,
    clue_max: u32,
    threads: usize,
) -> (r: DfcReverseSpec)
    ensures
        r == (DfcReverseSpec {
            target_se: 9000,
            target_se_upper: upper,
            excluded_nested_fc: nested_left_out,
            attempts_per_seed: attempts_per,
            rng_seed: seed,
            clue_min,
            clue_max,
            max_total_attempts: total_attempts(attempts_per as int, num as int) as u32,
            threads,
        }),
{
    let n: u64 = if num < 1 {
        1
    } else {
        num as u64
    };
    assert(attempts_per * n <= u32::MAX * u32::MAX) by (nonlinear_arith)
        requires
            attempts_per <= u32::MAX,
            n <= u32::MAX,
    ;
    let all: u64 = attempts_per as u64 * n;
    let total: u32 = if all > 10_000_000 {
        10_000_000
    } else {
        all as u32
    };
    DfcReverseSpec {
        target_se: 9000,
        target_se_upper: upper,
        excluded_nested_fc: nested_left_out,
        attempts_per_seed: attempts_per,
        rng_seed: seed,
        clue_min,
        clue_max,
        max_total_attempts: total,
        threads,
    }
}

/// What a search for cell forcing chains goes by. It asks for puzzles that need the chain,
/// unless that is switched off.
pub fn cfc_spec(
    attempts_per: u32,
    seed: u64,
    clue_min: u32,
    clue_max: u32,
    no_load_bearing: bool,
) -> (r: CfcReverseSpec)
    ensures
        r.target_se == 8000,
        r.target_k_min == 3,
        r.clue_min == clue_min,
        r.clue_max == clue_max,
        r.attempts_per_seed == (if attempts_per < 500 {
            attempts_per
        } else {
            500
        }),
        r.max_seeds == (if attempts_per > 500 {
            attempts_per
        } else {
            500
        }),
        r.rng_seed == seed,
        r.require_load_bearing == !no_load_bearing,
        r.target_se_upper is None,
        r.excluded_techniques@.len() == 0,
{
    CfcReverseSpec {
        target_se: 8000,
        target_k_min: 3,
        clue_min,
        clue_max,
        attempts_per_seed: if attempts_per < 500 {
            attempts_per
        } else {
            500
        },
        max_seeds: if attempts_per > 500 {
            attempts_per
        } else {
            500
        },
        rng_seed: seed,
        require_load_bearing: !no_load_bearing,
        target_se_upper: None,
        excluded_techniques: Vec::new(),
    }
}

/// Whether a search looks for chains of a given length: an alternating chain is the one
/// technique required, nothing is left out, and a length is asked for.
pub fn wants_chain_length(
    kind: MatchKind,
    required: &Vec<TechniqueId>,
    excluded: &Vec<TechniqueId>,
    chain_length: usize,
) -> (r: bool)
    ensures
        r == (kind == MatchKind::AllOf && required@ == seq![TechniqueId::Aic] && excluded@.len() == 0
            && chain_length > 0),
{
    let one: bool = required.len() == 1 && required[0] == TechniqueId::Aic;
    proof {
        if one {
            assert(required@ =~= seq![TechniqueId::Aic]);
        }
        if required@ == seq![TechniqueId::Aic] {
            assert(required@[0] == TechniqueId::Aic);
        }
    }
    kind == MatchKind::AllOf && one && excluded.len() == 0 && chain_length > 0
}

/// The numbers up to 255 among the pieces, in order.
pub open spec fn numbers_in(ps: Seq<Seq<char>>) -> Seq<nat>
    decreases ps.len(),
{
    if ps.len() == 0 {
        Seq::empty()
    } else {
        let rest = numbers_in(ps.drop_last());
        let t = lexing::trimmed(ps.last());
        if lexing::is_number(t, 255) {
            rest.push(lexing::value_of(lexing::digits_part(t)))
        } else {
            rest
        }
    }
}

/// The numbers up to 255 of a list with commas; what is no such number is passed over.
pub fn parse_small_numbers(s: &str) -> (r: Vec<u8>)
    ensures
        Seq::new(r@.len(), |i: int| r@[i] as nat) == numbers_in(lexing::pieces(s@, ',')),
{
    let p: Vec<Vec<char>> = split(&chars_in(s), ',');
    let ghost q = lexing::pieces(s@, ',');
    assert(lexing::views(p@) == q);
    assert(q.len() == p@.len());
    let mut r: Vec<u8> = Vec::new();
    let mut i: usize = 0;
    assert(Seq::new(r@.len(), |j: int| r@[j] as nat) =~= numbers_in(q.take(0)));
    while i < p.len()
        invariant
            i <= p@.len(),
            p@.len() == q.len(),
            lexing::views(p@) == q,
            Seq::new(r@.len(), |j: int| r@[j] as nat) == numbers_in(q.take(i as int)),
        decreases p@.len() - i,
    {
        let ghost before = r@;
        assert(q.take(i + 1).drop_last() =~= q.take(i as int));
        assert(q.take(i + 1).last() == q[i as int]);
        assert(q[i as int] == p@[i as int]@);
        let found: Option<u64> = parse_number(&trim(&p[i]), 255);
        match found {
            Some(n) => {
                r.push(n as u8);
                assert(Seq::new(r@.len(), |j: int| r@[j] as nat) =~= Seq::new(
                    before.len(),
                    |j: int| before[j] as nat,
                ).push(n as nat));
            },
            None => {},
        }
        i += 1;
    }
    assert(q.take(i as int) =~= q);
    r
}

} // verus!
