//! Chains of candidates: whips, braids and their grouped forms.
//!
//! A label packs a candidate: `label = row * N * N + col * N + digit - 1`.

use super::sorting;
use std::collections::hash_map::DefaultHasher;
use std::hash::Hasher;
use vstd::bytes;
use vstd::prelude::*;
use vstd::std_specs::hash::DefaultHasherAdditionalSpecFns;

verus! {

/// A candidate, packed as cell and digit.
pub type Label = u32;

/// A group of candidates of one digit in one row or column of a box.
pub type GLabel = u32;

/// A constraint variable. Cell variables come first, then row, column and box
/// variables.
pub type CspVarId = u32;

/// The family of a constraint variable.
#[derive(Copy, Clone, PartialEq, Eq, Structural, Hash, Debug)]
pub enum CspVarKind {
    /// One cell, over its digits.
    Rc,
    /// One digit in one row, over the columns.
    Rn,
    /// One digit in one column, over the rows.
    Cn,
    /// One digit in one box, over the cells of the box.
    Bn,
}

/// A right-linking candidate: a single one or a group.
#[derive(Copy, Clone, PartialEq, Eq, Structural, Hash, Debug, PartialOrd, Ord)]
pub enum Rlc {
    Cand(Label),
    GCand(GLabel),
}

/// The kinds of chains that a search builds.
#[derive(Copy, Clone, PartialEq, Eq, Structural, Hash, Debug)]
pub enum ChainKind {
    PartialWhip,
    Whip,
    PartialBraid,
    Braid,
    PartialGWhip,
    GWhip,
    PartialGBraid,
    GBraid,
}

/// One chain, partial or complete. The three lists run in parallel.
#[derive(Debug)]
pub struct Chain {
    pub kind: ChainKind,
    /// The candidate to be eliminated.
    pub target: Label,
    /// The number of steps.
    pub length: u8,
    /// The left-linking candidate of each step.
    pub llcs: Vec<Label>,
    /// The right-linking candidate of each step.
    pub rlcs: Vec<Rlc>,
    /// The constraint variable of each step.
    pub csp_vars: Vec<CspVarId>,
}

impl Clone for Chain {
    /// The same chain once more.
    fn clone(&self) -> (r: Self)
        ensures
            r.kind == self.kind,
            r.target == self.target,
            r.length == self.length,
            r.llcs@ == self.llcs@,
            r.rlcs@ == self.rlcs@,
            r.csp_vars@ == self.csp_vars@,
    {
        let llcs = self.llcs.clone();
        let rlcs = self.rlcs.clone();
        let csp_vars = self.csp_vars.clone();
        assert(llcs@ =~= self.llcs@);
        assert(rlcs@ =~= self.rlcs@);
        assert(csp_vars@ =~= self.csp_vars@);
        Chain { kind: self.kind, target: self.target, length: self.length, llcs, rlcs, csp_vars }
    }
}

/// The rule behind an elimination, with the length of its chain.
#[derive(Copy, Clone, PartialEq, Eq, Structural, Hash, Debug)]
pub enum ChainRule {
    Whip(u8),
    Braid(u8),
    GWhip(u8),
    GBraid(u8),
}

/// An elimination by a chain.
#[derive(Copy, Clone, Debug)]
pub struct ChainElimination {
    pub target: Label,
    pub rule: ChainRule,
}

/// The chain may use groups.
pub open spec fn is_grouped(kind: ChainKind) -> bool {
    kind is PartialGWhip || kind is GWhip || kind is PartialGBraid || kind is GBraid
}

/// The chain is a braid of some form.
pub open spec fn is_braid(kind: ChainKind) -> bool {
    kind is PartialBraid || kind is Braid || kind is PartialGBraid || kind is GBraid
}

/// A number for a right-linking candidate. Groups come after single candidates.
pub open spec fn rlc_code(r: Rlc) -> u64 {
    match r {
        Rlc::Cand(l) => l as u64,
        Rlc::GCand(g) => (0x1_0000_0000 + g) as u64,
    }
}

pub open spec fn rlc_codes(s: Seq<Rlc>) -> Seq<u64> {
    Seq::new(s.len(), |i: int| rlc_code(s[i]))
}

/// The bytes of a sequence of words, each in eight bytes.
pub open spec fn word_bytes(s: Seq<u64>) -> Seq<u8>
    decreases s.len(),
{
    if s.len() == 0 {
        Seq::empty()
    } else {
        word_bytes(s.drop_last()) + bytes::spec_u64_to_le_bytes(s.last())
    }
}

/// What a key is computed from: a word for the target and the flags, then the codes
/// of the right-linking candidates.
pub open spec fn key_words(target: Label, flags: u64, codes: Seq<u64>) -> Seq<u64> {
    seq![(target + 0x1_0000_0000 * flags) as u64] + codes
}

pub open spec fn flag(b: bool) -> int {
    if b {
        1
    } else {
        0
    }
}

/// The key of a sequence of words: one write of their bytes to a fresh
/// `DefaultHasher`.
pub open spec fn key_of(words: Seq<u64>) -> u64 {
    DefaultHasher::spec_finish(seq![word_bytes(words)])
}

impl Chain {
    /// What `dedup_key` is computed from: target, whether groups are used, whether
    /// it is a braid, and the right-linking candidates, for a whip in their order and
    /// for a braid sorted.
    pub open spec fn dedup_input(&self) -> Seq<u64> {
        key_words(
            self.target,
            (2 * flag(is_grouped(self.kind)) + flag(is_braid(self.kind))) as u64,
            if is_braid(self.kind) {
                sorting::sorted(rlc_codes(self.rlcs@))
            } else {
                rlc_codes(self.rlcs@)
            },
        )
    }

    /// What `dedup_key_cross_type` is computed from: target, whether groups are used,
    /// and the right-linking candidates, sorted.
    pub open spec fn cross_type_input(&self) -> Seq<u64> {
        key_words(
            self.target,
            (2 * flag(is_grouped(self.kind))) as u64,
            sorting::sorted(rlc_codes(self.rlcs@)),
        )
    }

    /// The last right-linking candidate.
    pub fn last_rlc(&self) -> (r: Rlc)
        requires
            self.rlcs@.len() > 0,
        ensures
            r == self.rlcs@.last(),
    {
        self.rlcs[self.rlcs.len() - 1]
    }

    /// A key for quick rejection of chains that were seen: in a whip the order of the
    /// right-linking candidates counts, in a braid it does not.
    pub fn dedup_key(&self) -> (r: u64)
        ensures
            r == key_of(self.dedup_input()),
    {
        self.dedup_key_inner(true)
    }

    /// A key that a whip and a braid share if they have the same target and the same
    /// right-linking candidates in any order.
    pub fn dedup_key_cross_type(&self) -> (r: u64)
        ensures
            r == key_of(self.cross_type_input()),
    {
        self.dedup_key_inner(false)
    }

    fn dedup_key_inner(&self, include_is_braid: bool) -> (r: u64)
        ensures
            r == key_of(
                if include_is_braid {
                    self.dedup_input()
                } else {
                    self.cross_type_input()
                },
            ),
    {
        let grouped: bool = matches!(
            self.kind,
            ChainKind::PartialGWhip | ChainKind::GWhip | ChainKind::PartialGBraid | ChainKind::GBraid
        );
        let braid: bool = matches!(
            self.kind,
            ChainKind::PartialBraid | ChainKind::Braid | ChainKind::PartialGBraid | ChainKind::GBraid
        );
        let mut codes: Vec<u64> = Vec::new();
        let mut i: usize = 0;
        while i < self.rlcs.len()
            invariant
                i <= self.rlcs@.len(),
                codes@ =~= rlc_codes(self.rlcs@.take(i as int)),
            decreases self.rlcs@.len() - i,
        {
            let c: u64 = match self.rlcs[i] {
                Rlc::Cand(l) => l as u64,
                Rlc::GCand(g) => 0x1_0000_0000u64 + g as u64,
            };
            codes.push(c);
            i += 1;
        }
        assert(self.rlcs@.take(i as int) =~= self.rlcs@);
        if !include_is_braid || braid {
            sorting::sort_words(&mut codes);
        }
        let mut flags: u64 = 0;
        if grouped {
            flags = flags + 2;
        }
        if include_is_braid && braid {
            flags = flags + 1;
        }
        let mut words: Vec<u64> = Vec::new();
        words.push(self.target as u64 + 0x1_0000_0000u64 * flags);
        words.append(&mut codes);
        assert(words@ =~= if include_is_braid {
            self.dedup_input()
        } else {
            self.cross_type_input()
        });
        hash_words(&words)
    }
}

fn hash_words(words: &Vec<u64>) -> (r: u64)
    ensures
        r == key_of(words@),
{
    let mut buf: Vec<u8> = Vec::new();
    let mut i: usize = 0;
    while i < words.len()
        invariant
            i <= words@.len(),
            buf@ == word_bytes(words@.take(i as int)),
        decreases words@.len() - i,
    {
        let mut b: Vec<u8> = bytes::u64_to_le_bytes(words[i]);
        assert(words@.take(i + 1).drop_last() =~= words@.take(i as int));
        buf.append(&mut b);
        i += 1;
    }
    assert(words@.take(i as int) =~= words@);
    let mut h = DefaultHasher::new();
    h.write(buf.as_slice());
    assert(h@ =~= seq![word_bytes(words@)]);
    h.finish()
}

/// Equal bytes come from equal words.
pub proof fn lemma_word_bytes_injective(a: Seq<u64>, b: Seq<u64>)
    requires
        word_bytes(a) == word_bytes(b),
    ensures
        a == b,
    decreases a.len(),
{
    bytes::lemma_auto_spec_u64_to_from_le_bytes();
    lemma_word_bytes_len(a);
    lemma_word_bytes_len(b);
    if a.len() > 0 {
        let x = word_bytes(a.drop_last());
        let y = word_bytes(b.drop_last());
        let p = bytes::spec_u64_to_le_bytes(a.last());
        let q = bytes::spec_u64_to_le_bytes(b.last());
        lemma_word_bytes_len(a.drop_last());
        lemma_word_bytes_len(b.drop_last());
        assert((x + p).subrange(0, x.len() as int) =~= x);
        assert((y + q).subrange(0, x.len() as int) =~= y);
        assert((x + p).subrange(x.len() as int, (x + p).len() as int) =~= p);
        assert((y + q).subrange(x.len() as int, (y + q).len() as int) =~= q);
        lemma_word_bytes_injective(a.drop_last(), b.drop_last());
        assert(a =~= a.drop_last().push(a.last()));
        assert(b =~= b.drop_last().push(b.last()));
    }
    assert(a =~= b);
}

proof fn lemma_word_bytes_len(a: Seq<u64>)
    ensures
        word_bytes(a).len() == 8 * a.len(),
    decreases a.len(),
{
    bytes::lemma_auto_spec_u64_to_from_le_bytes();
    if a.len() > 0 {
        lemma_word_bytes_len(a.drop_last());
    }
}

proof fn lemma_key_words_injective(t: Label, f: u64, c: Seq<u64>, u: Label, g: u64, d: Seq<u64>)
    requires
        f < 4,
        g < 4,
    ensures
        key_words(t, f, c) == key_words(u, g, d) <==> t == u && f == g && c == d,
{
    if key_words(t, f, c) == key_words(u, g, d) {
        let x = key_words(t, f, c);
        let y = key_words(u, g, d);
        assert(x[0] == y[0]);
        assert(x.subrange(1, x.len() as int) =~= c);
        assert(y.subrange(1, y.len() as int) =~= d);
    }
}

/// The codes tell right-linking candidates apart.
proof fn lemma_codes_injective(a: Seq<Rlc>, b: Seq<Rlc>)
    ensures
        rlc_codes(a) == rlc_codes(b) <==> a == b,
{
    if rlc_codes(a) == rlc_codes(b) {
        assert(rlc_codes(a).len() == rlc_codes(b).len());
        assert forall|i: int| 0 <= i < a.len() implies a[i] == b[i] by {
            assert(rlc_codes(a)[i] == rlc_codes(b)[i]);
            assert(rlc_code(a[i]) == rlc_code(b[i]));
            match (a[i], b[i]) {
                (Rlc::Cand(x), Rlc::Cand(y)) => {},
                (Rlc::Cand(x), Rlc::GCand(y)) => {},
                (Rlc::GCand(x), Rlc::Cand(y)) => {},
                (Rlc::GCand(x), Rlc::GCand(y)) => {},
            }
        }
        assert(a =~= b);
    }
}

/// Sorted codes agree exactly when the codes agree as multisets.
proof fn lemma_sorted_codes(a: Seq<Rlc>, b: Seq<Rlc>)
    ensures
        sorting::sorted(rlc_codes(a)) == sorting::sorted(rlc_codes(b)) <==> rlc_codes(
            a,
        ).to_multiset() == rlc_codes(b).to_multiset(),
{
    sorting::lemma_sorted_facts(rlc_codes(a));
    sorting::lemma_sorted_facts(rlc_codes(b));
    if rlc_codes(a).to_multiset() == rlc_codes(b).to_multiset() {
        sorting::lemma_sorted(rlc_codes(b), sorting::sorted(rlc_codes(a)));
    }
}

/// The keys of two whips are computed from the same bytes exactly when the whips
/// agree in target, in whether they use groups, and in the sequence of their
/// right-linking candidates.
pub proof fn law_whip_key_is_positional(a: Chain, b: Chain)
    requires
        !is_braid(a.kind),
        !is_braid(b.kind),
    ensures
        word_bytes(a.dedup_input()) == word_bytes(b.dedup_input()) <==> a.target == b.target
            && is_grouped(a.kind) == is_grouped(b.kind) && a.rlcs@ == b.rlcs@,
{
    lemma_inputs(a.dedup_input(), b.dedup_input());
    lemma_codes_injective(a.rlcs@, b.rlcs@);
    lemma_key_words_injective(
        a.target,
        (2 * flag(is_grouped(a.kind)) + flag(is_braid(a.kind))) as u64,
        rlc_codes(a.rlcs@),
        b.target,
        (2 * flag(is_grouped(b.kind)) + flag(is_braid(b.kind))) as u64,
        rlc_codes(b.rlcs@),
    );
}

proof fn lemma_inputs(a: Seq<u64>, b: Seq<u64>)
    ensures
        word_bytes(a) == word_bytes(b) <==> a == b,
{
    if word_bytes(a) == word_bytes(b) {
        lemma_word_bytes_injective(a, b);
    }
}

/// The keys of two braids are computed from the same bytes exactly when the braids
/// agree in target, in whether they use groups, and in their right-linking candidates
/// counted with multiplicity, in whatever order.
pub proof fn law_braid_key_ignores_order(a: Chain, b: Chain)
    requires
        is_braid(a.kind),
        is_braid(b.kind),
    ensures
        word_bytes(a.dedup_input()) == word_bytes(b.dedup_input()) <==> a.target == b.target
            && is_grouped(a.kind) == is_grouped(b.kind) && rlc_codes(a.rlcs@).to_multiset()
            == rlc_codes(b.rlcs@).to_multiset(),
{
    lemma_inputs(a.dedup_input(), b.dedup_input());
    lemma_sorted_codes(a.rlcs@, b.rlcs@);
    lemma_key_words_injective(
        a.target,
        (2 * flag(is_grouped(a.kind)) + flag(is_braid(a.kind))) as u64,
        sorting::sorted(rlc_codes(a.rlcs@)),
        b.target,
        (2 * flag(is_grouped(b.kind)) + flag(is_braid(b.kind))) as u64,
        sorting::sorted(rlc_codes(b.rlcs@)),
    );
}

/// The keys of a whip and of a braid are never computed from the same bytes.
pub proof fn law_whip_and_braid_keys_differ(a: Chain, b: Chain)
    requires
        !is_braid(a.kind),
        is_braid(b.kind),
    ensures
        word_bytes(a.dedup_input()) != word_bytes(b.dedup_input()),
{
    lemma_inputs(a.dedup_input(), b.dedup_input());
    lemma_key_words_injective(
        a.target,
        (2 * flag(is_grouped(a.kind)) + flag(is_braid(a.kind))) as u64,
        rlc_codes(a.rlcs@),
        b.target,
        (2 * flag(is_grouped(b.kind)) + flag(is_braid(b.kind))) as u64,
        sorting::sorted(rlc_codes(b.rlcs@)),
    );
}

/// The cross-type keys of any two chains are computed from the same bytes exactly when
/// the chains agree in target, in whether they use groups, and in their right-linking
/// candidates in whatever order. Whip and braid are not told apart.
pub proof fn law_cross_type_key(a: Chain, b: Chain)
    ensures
        word_bytes(a.cross_type_input()) == word_bytes(b.cross_type_input()) <==> a.target
            == b.target && is_grouped(a.kind) == is_grouped(b.kind) && rlc_codes(
            a.rlcs@,
        ).to_multiset() == rlc_codes(b.rlcs@).to_multiset(),
{
    lemma_inputs(a.cross_type_input(), b.cross_type_input());
    lemma_sorted_codes(a.rlcs@, b.rlcs@);
    lemma_key_words_injective(
        a.target,
        (2 * flag(is_grouped(a.kind))) as u64,
        sorting::sorted(rlc_codes(a.rlcs@)),
        b.target,
        (2 * flag(is_grouped(b.kind))) as u64,
        sorting::sorted(rlc_codes(b.rlcs@)),
    );
}

} // verus!
