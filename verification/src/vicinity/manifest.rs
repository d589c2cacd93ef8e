//! The account of a run that stands beside its output.

use super::climb::BxbDiagnostics;
use crate::generic::text;
use crate::generic::text::push_decimal;
use vstd::prelude::*;
use vstd::string::StringExecFns;

verus! {

/// A hexadecimal digit in lower case.
pub open spec fn hex_digit(n: int) -> char {
    if n < 10 {
        (0x30 + n) as char
    } else {
        (0x57 + n) as char
    }
}

/// A character inside a JSON string.
pub open spec fn json_char(c: char) -> Seq<char> {
    if c == '"' || c == '\\' {
        seq!['\\', c]
    } else if c as int == 0x08 {
        seq!['\\', 'b']
    } else if c as int == 0x09 {
        seq!['\\', 't']
    } else if c as int == 0x0a {
        seq!['\\', 'n']
    } else if c as int == 0x0c {
        seq!['\\', 'f']
    } else if c as int == 0x0d {
        seq!['\\', 'r']
    } else if (c as int) < 0x20 {
        seq!['\\', 'u', '0', '0', hex_digit(c as int / 16), hex_digit(c as int % 16)]
    } else {
        seq![c]
    }
}

/// The characters of a JSON string without its quotes.
pub open spec fn json_inner(s: Seq<char>) -> Seq<char>
    decreases s.len(),
{
    if s.len() == 0 {
        Seq::empty()
    } else {
        json_inner(s.drop_last()) + json_char(s.last())
    }
}

/// A text as a JSON string.
pub open spec fn json_string(s: Seq<char>) -> Seq<char> {
    seq!['"'] + json_inner(s) + seq!['"']
}

/// `serde_json::to_string` of a `str`: the text in quotes, with quotes, backslashes and
/// control characters escaped. Writing a `str` to memory does not fail.
#[verifier::external_body]
fn quoted(s: &str) -> (r: String)
    ensures
        r@ == json_string(s@),
{
    serde_json::to_string(s).unwrap()
}

/// The account of the numbers of a run.
pub open spec fn numbers_text(target: nat, length: nat, buffer: nat, seeds: nat, outputs: nat) -> Seq<
    char,
> {
    ",\n  \"fitness\": \"bxb\",\n  \"target_bxb\": "@ + text::decimal(target)
        + ",\n  \"bxb_max_length\": "@ + text::decimal(length) + ",\n  \"bxb_buffer_size\": "@
        + text::decimal(buffer) + ",\n  \"seed_count\": "@ + text::decimal(seeds)
        + ",\n  \"output_count\": "@ + text::decimal(outputs)
}

/// The account of what happened to the proposals.
pub open spec fn diagnostics_text(d: BxbDiagnostics) -> Seq<char> {
    ",\n  \"diagnostics\": {\n    \"n_mutations_proposed\": "@ + text::decimal(
        d.n_mutations_proposed as nat,
    ) + ",\n    \"n_clue_mismatch\": "@ + text::decimal(d.n_clue_mismatch as nat)
        + ",\n    \"n_canonical_dup\": "@ + text::decimal(d.n_canonical_dup as nat)
        + ",\n    \"n_uniqueness_fail\": "@ + text::decimal(d.n_uniqueness_fail as nat)
        + ",\n    \"n_rated\": "@ + text::decimal(d.n_rated as nat) + ",\n    \"n_above_target\": "@
        + text::decimal(d.n_above_target as nat) + ",\n    \"n_clue_count_changed\": "@
        + text::decimal(d.n_clue_count_changed as nat) + "\n  }\n}"@
}

/// Appends a text and a number.
fn push_field(s: &mut String, name: &str, n: usize)
    ensures
        final(s)@ == old(s)@ + name@ + text::decimal(n as nat),
{
    s.append(name);
    push_decimal(s, n as u64);
}

/// The account of a run, in JSON.
pub fn bxb_manifest(
    label: &str,
    seed_count: usize,
    output_count: usize,
    target_bxb: u16,
    bxb_max_length: u16,
    bxb_buffer_size: usize,
    d: &BxbDiagnostics,
) -> (r: String)
    ensures
        r@ == "{\n  \"label\": "@ + json_string(label@) + numbers_text(
            target_bxb as nat,
            bxb_max_length as nat,
            bxb_buffer_size as nat,
            seed_count as nat,
            output_count as nat,
        ) + diagnostics_text(*d),
{
    let mut s = String::new();
    s.append("{\n  \"label\": ");
    let q: String = quoted(label);
    s.append(q.as_str());
    let ghost head = s@;
    push_field(&mut s, ",\n  \"fitness\": \"bxb\",\n  \"target_bxb\": ", target_bxb as usize);
    push_field(&mut s, ",\n  \"bxb_max_length\": ", bxb_max_length as usize);
    push_field(&mut s, ",\n  \"bxb_buffer_size\": ", bxb_buffer_size);
    push_field(&mut s, ",\n  \"seed_count\": ", seed_count);
    push_field(&mut s, ",\n  \"output_count\": ", output_count);
    assert(s@ =~= head + numbers_text(
        target_bxb as nat,
        bxb_max_length as nat,
        bxb_buffer_size as nat,
        seed_count as nat,
        output_count as nat,
    ));
    let ghost middle = s@;
    push_field(
        &mut s,
        ",\n  \"diagnostics\": {\n    \"n_mutations_proposed\": ",
        d.n_mutations_proposed,
    );
    push_field(&mut s, ",\n    \"n_clue_mismatch\": ", d.n_clue_mismatch);
    push_field(&mut s, ",\n    \"n_canonical_dup\": ", d.n_canonical_dup);
    push_field(&mut s, ",\n    \"n_uniqueness_fail\": ", d.n_uniqueness_fail);
    push_field(&mut s, ",\n    \"n_rated\": ", d.n_rated);
    push_field(&mut s, ",\n    \"n_above_target\": ", d.n_above_target);
    push_field(&mut s, ",\n    \"n_clue_count_changed\": ", d.n_clue_count_changed);
    s.append("\n  }\n}");
    assert(s@ =~= middle + diagnostics_text(*d));
    s
}

} // verus!
