//! Sorting of words.

use vstd::prelude::*;
use vstd::relations::*;

verus! {

/// No item is above a later one.
pub open spec fn ascending(s: Seq<u64>) -> bool {
    forall|i: int, j: int| 0 <= i < j < s.len() ==> s[i] <= s[j]
}

/// The items of `s` in ascending order.
pub open spec fn sorted(s: Seq<u64>) -> Seq<u64> {
    s.sort_by(|a: u64, b: u64| a <= b)
}

/// `<[u64]>::sort_unstable`: puts the items in ascending order.
#[verifier::external_body]
fn sort_unstable(v: &mut Vec<u64>)
    ensures
        ascending(final(v)@),
        final(v)@.to_multiset() == old(v)@.to_multiset(),
{
    v.sort_unstable()
}

/// Sorting gives the only ascending arrangement of the items.
pub proof fn lemma_sorted(s: Seq<u64>, t: Seq<u64>)
    requires
        ascending(t),
        t.to_multiset() == s.to_multiset(),
    ensures
        t == sorted(s),
{
    let leq = |a: u64, b: u64| a <= b;
    s.lemma_sort_by_ensures(leq);
    assert(sorted_by(t, leq));
    vstd::seq_lib::lemma_sorted_unique(t, sorted(s), leq);
}

/// What sorting keeps and what it makes.
pub proof fn lemma_sorted_facts(s: Seq<u64>)
    ensures
        ascending(sorted(s)),
        sorted(s).to_multiset() == s.to_multiset(),
        sorted(s).len() == s.len(),
{
    let leq = |a: u64, b: u64| a <= b;
    s.lemma_sort_by_ensures(leq);
    assert forall|i: int, j: int| 0 <= i < j < sorted(s).len() implies sorted(s)[i] <= sorted(
        s,
    )[j] by {
        assert(leq(sorted(s)[i], sorted(s)[j]));
    }
    broadcast use vstd::seq_lib::group_to_multiset_ensures;

    assert(sorted(s).to_multiset().len() == sorted(s).len());
    assert(s.to_multiset().len() == s.len());
}

/// Sorts the items in ascending order.
pub fn sort_words(v: &mut Vec<u64>)
    ensures
        final(v)@ == sorted(old(v)@),
{
    let ghost before = v@;
    sort_unstable(v);
    proof {
        lemma_sorted(before, v@);
    }
}

} // verus!
