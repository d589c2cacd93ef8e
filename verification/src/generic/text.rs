//! Putting messages together.

use super::techniques::Tier;
use vstd::prelude::*;
use vstd::string::StringExecFns;

verus! {

/// The decimal digits of a number.
pub open spec fn decimal(n: nat) -> Seq<char>
    decreases n,
{
    if n < 10 {
        seq![(0x30 + n) as char]
    } else {
        decimal(n / 10).push((0x30 + n % 10) as char)
    }
}

/// Appends a number in decimal.
pub fn push_decimal(s: &mut String, n: u64)
    ensures
        final(s)@ == old(s)@ + decimal(n as nat),
    decreases n,
{
    let ghost before = s@;
    if n >= 10 {
        push_decimal(s, n / 10);
    }
    let d: u8 = (n % 10) as u8;
    s.push((0x30 + d) as char);
    proof {
        if n < 10 {
            assert(s@ =~= before + decimal(n as nat));
        } else {
            assert(s@ =~= before + decimal((n / 10) as nat).push((0x30 + n % 10) as char));
        }
    }
}

/// The message that `what` is out of order: `<low> (<a>) > <high> (<b>)`.
pub open spec fn band_message(low: Seq<char>, a: nat, high: Seq<char>, b: nat) -> Seq<char> {
    low + " ("@ + decimal(a) + ") > "@ + high + " ("@ + decimal(b) + ")"@
}

/// The message that a lower bound is above an upper bound.
pub fn inverted_band(low: &str, a: u64, high: &str, b: u64) -> (r: String)
    ensures
        r@ == band_message(low@, a as nat, high@, b as nat),
{
    let mut s = String::new();
    s.append(low);
    s.append(" (");
    push_decimal(&mut s, a);
    s.append(") > ");
    s.append(high);
    s.append(" (");
    push_decimal(&mut s, b);
    s.append(")");
    assert(s@ =~= band_message(low@, a as nat, high@, b as nat));
    s
}

/// A number between two texts.
pub fn around_number(before: &str, n: u64, after: &str) -> (r: String)
    ensures
        r@ == before@ + decimal(n as nat) + after@,
{
    let mut s = String::new();
    s.append(before);
    push_decimal(&mut s, n);
    s.append(after);
    assert(s@ =~= before@ + decimal(n as nat) + after@);
    s
}

/// The name of a tier.
pub open spec fn tier_name(t: Tier) -> Seq<char> {
    match t {
        Tier::T1 => "T1"@,
        Tier::T2 => "T2"@,
        Tier::T3 => "T3"@,
        Tier::T4Plus => "T4Plus"@,
    }
}

/// The name of a tier between two texts.
pub fn around_tier(before: &str, t: Tier, after: &str) -> (r: String)
    ensures
        r@ == before@ + tier_name(t) + after@,
{
    let mut s = String::new();
    s.append(before);
    match t {
        Tier::T1 => s.append("T1"),
        Tier::T2 => s.append("T2"),
        Tier::T3 => s.append("T3"),
        Tier::T4Plus => s.append("T4Plus"),
    }
    s.append(after);
    assert(s@ =~= before@ + tier_name(t) + after@);
    s
}

/// A text of its own.
pub fn owned(t: &str) -> (r: String)
    ensures
        r@ == t@,
{
    let mut s = String::new();
    s.append(t);
    assert(s@ =~= t@);
    s
}

} // verus!
