//! The random number generator behind every random choice.
//!
//! What is drawn is a function of the words that the generator holds. Which function is left
//! open: whatever is stated of a draw holds for all of them.

use rand::seq::SliceRandom;
use rand::Rng;
use rand_xoshiro::rand_core::{RngCore, SeedableRng};
use rand_xoshiro::Xoshiro256PlusPlus;
use vstd::prelude::*;

verus! {

/// `rand_xoshiro::Xoshiro256PlusPlus`, carried through unopened.
#[verifier::external_type_specification]
#[verifier::external_body]
pub struct ExXoshiro256PlusPlus(rand_xoshiro::Xoshiro256PlusPlus);

/// The words that a generator holds.
pub uninterp spec fn state(rng: Xoshiro256PlusPlus) -> Seq<u64>;

/// The words that `SeedableRng::seed_from_u64` makes of a seed.
pub uninterp spec fn seed_state(seed: u64) -> Seq<u64>;

/// What `SliceRandom::shuffle` does with `n` items: for each place the one that its item
/// comes from, and the words that the generator holds afterwards.
pub uninterp spec fn shuffle_of(n: nat, state: Seq<u64>) -> (Seq<int>, Seq<u64>);

/// What `Rng::gen_range` draws from `0..n` of type `usize` on a machine whose addresses have
/// `bits` bits, and the words that the generator holds afterwards.
pub uninterp spec fn below_of(n: nat, bits: nat, state: Seq<u64>) -> (nat, Seq<u64>);

/// What `Rng::gen_range` draws from `lo..=hi` of type `u32`, and the words that the generator
/// holds afterwards.
pub uninterp spec fn between_of(lo: u32, hi: u32, state: Seq<u64>) -> (u32, Seq<u64>);

/// What `RngCore::next_u64` draws, and the words that the generator holds afterwards.
pub uninterp spec fn word_of(state: Seq<u64>) -> (u64, Seq<u64>);

/// The upper half of the next 64 bits, and the words that the generator holds afterwards.
pub open spec fn half_word_of(state: Seq<u64>) -> (u32, Seq<u64>) {
    let drawn = word_of(state);
    ((drawn.0 >> 32) as u32, drawn.1)
}

/// The items of `s` that come from the places `p`.
pub open spec fn picked<T>(s: Seq<T>, p: Seq<int>) -> Seq<T> {
    Seq::new(s.len(), |i: int| s[p[i]])
}

/// `SeedableRng::seed_from_u64`: the generator of a seed.
#[verifier::external_body]
pub(crate) fn seeded(seed: u64) -> (rng: Xoshiro256PlusPlus)
    ensures
        state(rng) == seed_state(seed),
{
    Xoshiro256PlusPlus::seed_from_u64(seed)
}

/// `SliceRandom::shuffle`: puts the items in another order, which the generator and their
/// number decide.
#[verifier::external_body]
pub(crate) fn shuffle<T>(v: &mut Vec<T>, rng: &mut Xoshiro256PlusPlus)
    ensures
        final(v)@.to_multiset() == old(v)@.to_multiset(),
        final(v)@ == picked(old(v)@, shuffle_of(old(v)@.len(), state(*old(rng))).0),
        state(*final(rng)) == shuffle_of(old(v)@.len(), state(*old(rng))).1,
{
    v.shuffle(rng)
}

/// `Rng::gen_range` on `0..n`: some number below `n`, which the generator decides.
#[verifier::external_body]
pub(crate) fn below(n: usize, rng: &mut Xoshiro256PlusPlus) -> (r: usize)
    requires
        0 < n,
    ensures
        r < n,
        (r as nat, state(*final(rng))) == below_of(n as nat, usize::BITS as nat, state(*old(rng))),
{
    rng.gen_range(0..n)
}

/// `Rng::gen_range` on `lo..=hi`: some number from `lo` to `hi`, which the generator decides.
#[verifier::external_body]
pub(crate) fn between(lo: u32, hi: u32, rng: &mut Xoshiro256PlusPlus) -> (r: u32)
    requires
        lo <= hi,
    ensures
        lo <= r <= hi,
        (r, state(*final(rng))) == between_of(lo, hi, state(*old(rng))),
{
    rng.gen_range(lo..=hi)
}

/// `RngCore::next_u64`: the next 64 bits of the generator.
#[verifier::external_body]
pub(crate) fn next_word(rng: &mut Xoshiro256PlusPlus) -> (r: u64)
    ensures
        (r, state(*final(rng))) == word_of(state(*old(rng))),
{
    rng.next_u64()
}

/// `RngCore::next_u32`: the upper half of the next 64 bits of the generator.
#[verifier::external_body]
pub(crate) fn next_half_word(rng: &mut Xoshiro256PlusPlus) -> (r: u32)
    ensures
        (r, state(*final(rng))) == half_word_of(state(*old(rng))),
{
    rng.next_u32()
}

/// A shuffled sequence has the length and the items that it had.
pub proof fn lemma_shuffled<T>(a: Seq<T>, b: Seq<T>)
    requires
        a.to_multiset() == b.to_multiset(),
    ensures
        a.len() == b.len(),
        forall|x: T| #[trigger] a.contains(x) == b.contains(x),
        a.no_duplicates() == b.no_duplicates(),
{
    broadcast use vstd::seq_lib::group_to_multiset_ensures;

    assert(a.to_multiset().len() == a.len());
    assert(b.to_multiset().len() == b.len());
    assert forall|x: T| #[trigger] a.contains(x) == b.contains(x) by {
        vstd::seq_lib::to_multiset_contains(a, x);
        vstd::seq_lib::to_multiset_contains(b, x);
    }
    if a.no_duplicates() {
        a.lemma_multiset_has_no_duplicates();
        b.lemma_multiset_has_no_duplicates_conv();
    }
    if b.no_duplicates() {
        b.lemma_multiset_has_no_duplicates();
        a.lemma_multiset_has_no_duplicates_conv();
    }
}

} // verus!
