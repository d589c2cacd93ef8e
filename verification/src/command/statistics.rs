//! Medians, ranges and counts of what a run measured.

use crate::generic::sorting;
use crate::generic::sorting::sort_words;
use crate::generic::text;
use crate::generic::text::push_decimal;
use vstd::prelude::*;
use vstd::string::StringExecFns;

verus! {

/// The numbers in ascending order.
fn in_order(v: &Vec<u64>) -> (r: Vec<u64>)
    ensures
        r@ == sorting::sorted(v@),
        r@.len() == v@.len(),
        sorting::ascending(r@),
{
    let mut r: Vec<u64> = v.clone();
    assert(r@ =~= v@);
    sort_words(&mut r);
    proof {
        sorting::lemma_sorted_facts(v@);
    }
    r
}

/// The number in the middle, the upper one of two, and 0 of none.
pub open spec fn median_of(s: Seq<u64>) -> u64 {
    if s.len() == 0 {
        0
    } else {
        sorting::sorted(s)[s.len() as int / 2]
    }
}

/// The number that nine tenths of the numbers come before, and 0 of none.
pub open spec fn p90_of(s: Seq<u64>) -> u64 {
    if s.len() == 0 {
        0
    } else {
        sorting::sorted(s)[s.len() as int * 9 / 10]
    }
}

/// The number in the middle.
pub fn median(v: &Vec<u64>) -> (r: u64)
    ensures
        r == median_of(v@),
{
    if v.len() == 0 {
        return 0;
    }
    let s: Vec<u64> = in_order(v);
    s[s.len() / 2]
}

/// The number that nine tenths of the numbers come before.
pub fn p90(v: &Vec<u64>) -> (r: u64)
    ensures
        r == p90_of(v@),
{
    if v.len() == 0 {
        return 0;
    }
    let s: Vec<u64> = in_order(v);
    let k: u128 = s.len() as u128 * 9 / 10;
    s[k as usize]
}

/// The lowest number, the one in the middle, and the highest.
#[derive(Debug, Clone, Copy, PartialEq, Eq, Structural)]
pub struct Spread {
    pub min: u64,
    pub median: u64,
    pub max: u64,
}

/// The lowest number, the one in the middle, and the highest, each 0 of none.
pub fn spread(v: &Vec<u64>) -> (r: Spread)
    ensures
        r.median == median_of(v@),
        v@.len() == 0 ==> r.min == 0 && r.max == 0,
        v@.len() > 0 ==> v@.contains(r.min) && v@.contains(r.max),
        forall|i: int| 0 <= i < v@.len() ==> r.min <= #[trigger] v@[i] <= r.max,
{
    if v.len() == 0 {
        return Spread { min: 0, median: 0, max: 0 };
    }
    let s: Vec<u64> = in_order(v);
    let n: usize = s.len();
    proof {
        sorting::lemma_sorted_facts(v@);
        crate::generic::rng::lemma_shuffled(v@, s@);
        assert(s@.contains(s@[0]) && s@.contains(s@[n - 1]));
        assert(v@.contains(s@[0]) && v@.contains(s@[n - 1]));
        assert forall|i: int| 0 <= i < v@.len() implies s@[0] <= #[trigger] v@[i] <= s@[n - 1] by {
            assert(v@.contains(v@[i]));
            assert(s@.contains(v@[i]));
            let k = choose|k: int| 0 <= k < s@.len() && s@[k] == v@[i];
            if 0 < k {
                assert(s@[0] <= s@[k]);
            }
            if k < n - 1 {
                assert(s@[k] <= s@[n - 1]);
            }
        }
    }
    Spread { min: s[0], median: s[n / 2], max: s[n - 1] }
}

/// The sum of numbers.
pub open spec fn sum_of(s: Seq<u64>) -> nat
    decreases s.len(),
{
    if s.len() == 0 {
        0
    } else {
        sum_of(s.drop_last()) + s.last() as nat
    }
}

/// The sum of numbers.
pub fn sum(v: &Vec<u64>) -> (r: u128)
    ensures
        r == sum_of(v@),
{
    let mut r: u128 = 0;
    let mut i: usize = 0;
    while i < v.len()
        invariant
            i <= v@.len(),
            r == sum_of(v@.take(i as int)),
            r <= i * u64::MAX,
        decreases v@.len() - i,
    {
        assert(v@.take(i + 1).drop_last() =~= v@.take(i as int));
        assert(i * u64::MAX <= usize::MAX * u64::MAX) by (nonlinear_arith)
            requires
                i <= usize::MAX,
        ;
        r = r + v[i] as u128;
        assert((i + 1) * u64::MAX == i * u64::MAX + u64::MAX) by (nonlinear_arith);
        i += 1;
    }
    assert(v@.take(i as int) =~= v@);
    r
}

/// The times that `x` occurs.
pub open spec fn occurrences(s: Seq<u64>, x: u64) -> nat {
    s.to_multiset().count(x)
}

/// `t` lists each number that occurs, in ascending order, with the times that it does.
pub open spec fn is_tally(s: Seq<u64>, t: Seq<(u64, usize)>) -> bool {
    &&& forall|i: int, j: int| 0 <= i < j < t.len() ==> (#[trigger] t[i]).0 < (#[trigger] t[j]).0
    &&& forall|i: int|
        0 <= i < t.len() ==> (#[trigger] t[i]).1 == occurrences(s, t[i].0) && t[i].1 > 0
    &&& forall|x: u64| #[trigger] occurrences(s, x) > 0 ==> exists|i: int|
        0 <= i < t.len() && (#[trigger] t[i]).0 == x
}

/// How often each number occurs, in ascending order.
pub fn tally(v: &Vec<u64>) -> (t: Vec<(u64, usize)>)
    ensures
        is_tally(v@, t@),
{
    let s: Vec<u64> = in_order(v);
    proof {
        sorting::lemma_sorted_facts(v@);
    }
    let mut t: Vec<(u64, usize)> = Vec::new();
    let mut i: usize = 0;
    proof {
        broadcast use vstd::seq_lib::group_to_multiset_ensures;

        assert(s@.take(0) =~= Seq::<u64>::empty());
        assert forall|x: u64| occurrences(s@.take(0), x) == 0 by {
            assert(!s@.take(0).contains(x));
        }
    }
    while i < s.len()
        invariant
            i <= s@.len(),
            sorting::ascending(s@),
            is_tally(s@.take(i as int), t@),
            forall|k: int| 0 <= k < t@.len() ==> i > 0 && (#[trigger] t@[k]).0 <= s@[i - 1],
            forall|k: int| 0 <= k < t@.len() ==> (#[trigger] t@[k]).1 <= i,
            i > 0 ==> t@.len() > 0 && t@[t@.len() - 1].0 == s@[i - 1],
        decreases s@.len() - i,
    {
        let x: u64 = s[i];
        let ghost a = s@.take(i as int);
        let ghost b = s@.take(i + 1);
        let ghost before = t@;
        assert(b =~= a.push(x));
        proof {
            lemma_count_push(a, x);
            if i > 0 {
                assert(s@[i - 1] <= s@[i as int]);
            }
        }
        let n: usize = t.len();
        if n > 0 && t[n - 1].0 == x {
            let c: usize = t[n - 1].1;
            t.set(n - 1, (x, c + 1));
        } else {
            t.push((x, 1));
            proof {
                if occurrences(a, x) > 0 {
                    let k = choose|k: int| 0 <= k < before.len() && (#[trigger] before[k]).0 == x;
                    assert(before[k].0 <= s@[i - 1]);
                    assert(before[before.len() - 1].0 == s@[i - 1]);
                }
            }
        }
        proof {
            assert forall|k: int| 0 <= k < t@.len() implies (#[trigger] t@[k]).1 == occurrences(
                b,
                t@[k].0,
            ) && t@[k].1 > 0 by {
                if k < before.len() {
                    assert(before[k].1 == occurrences(a, before[k].0));
                    if n > 0 && k < n - 1 {
                        assert(before[k].0 < before[n - 1].0);
                    }
                }
            }
            assert forall|y: u64| #[trigger] occurrences(b, y) > 0 implies exists|k: int|
                0 <= k < t@.len() && (#[trigger] t@[k]).0 == y by {
                if y == x {
                    assert(t@[t@.len() - 1].0 == x);
                } else {
                    assert(occurrences(a, y) > 0);
                    let k = choose|k: int| 0 <= k < before.len() && (#[trigger] before[k]).0 == y;
                    assert(t@[k].0 == y);
                }
            }
            assert forall|k: int, l: int| 0 <= k < l < t@.len() implies (#[trigger] t@[k]).0 < (
            #[trigger] t@[l]).0 by {
                if l < before.len() {
                    assert(before[k].0 < before[l].0);
                } else {
                    assert(before[k].0 <= s@[i - 1]);
                    if before[k].0 == x {
                        assert(before[k].1 == occurrences(a, x));
                        assert(before[before.len() - 1].0 == s@[i - 1]);
                    }
                }
            }
        }
        i += 1;
    }
    assert(s@.take(i as int) =~= s@);
    proof {
        assert forall|x: u64| #[trigger] occurrences(v@, x) == occurrences(s@, x) by {}
        assert forall|x: u64| #[trigger] occurrences(v@, x) > 0 implies exists|k: int|
            0 <= k < t@.len() && (#[trigger] t@[k]).0 == x by {
            assert(occurrences(s@, x) > 0);
        }
    }
    t
}

/// One more item counts once more.
proof fn lemma_count_push(a: Seq<u64>, x: u64)
    ensures
        forall|y: u64| #[trigger]
            occurrences(a.push(x), y) == occurrences(a, y) + if y == x {
                1nat
            } else {
                0nat
            },
{
    broadcast use vstd::seq_lib::group_to_multiset_ensures;

    assert(a.push(x).to_multiset() =~= a.to_multiset().insert(x));
}

/// A signed number in decimal.
pub open spec fn signed(n: int) -> Seq<char> {
    if n < 0 {
        "-"@ + text::decimal((-n) as nat)
    } else {
        text::decimal(n as nat)
    }
}

/// The value that a key stands for.
pub open spec fn from_key(k: u64) -> int {
    k - 0x8000
}

/// A rating as a key: a number that is not negative and orders like the rating.
pub fn rating_key(x: i16) -> (k: u64)
    ensures
        from_key(k) == x,
        k < 0x10000,
{
    (x as i64 + 0x8000) as u64
}

/// The counts of ratings: `BxB=<rating>: <count>, ` for each.
pub open spec fn ratings_text(t: Seq<(u64, usize)>) -> Seq<char>
    decreases t.len(),
{
    if t.len() == 0 {
        Seq::empty()
    } else {
        ratings_text(t.drop_last()) + "BxB="@ + signed(from_key(t.last().0)) + ": "@ + text::decimal(
            t.last().1 as nat,
        ) + ", "@
    }
}

/// The counts of ratings in words.
pub fn ratings_line(t: &Vec<(u64, usize)>) -> (r: String)
    ensures
        r@ == ratings_text(t@),
{
    let mut s = String::new();
    let mut i: usize = 0;
    while i < t.len()
        invariant
            i <= t@.len(),
            s@ == ratings_text(t@.take(i as int)),
        decreases t@.len() - i,
    {
        let ghost before = s@;
        assert(t@.take(i + 1).drop_last() =~= t@.take(i as int));
        let (k, n): (u64, usize) = t[i];
        s.append("BxB=");
        let ghost mid = s@;
        if k < 0x8000 {
            s.append("-");
            push_decimal(&mut s, 0x8000 - k);
        } else {
            push_decimal(&mut s, k - 0x8000);
        }
        assert(s@ =~= mid + signed(from_key(k)));
        s.append(": ");
        push_decimal(&mut s, n as u64);
        s.append(", ");
        assert(s@ =~= before + "BxB="@ + signed(from_key(k)) + ": "@ + text::decimal(n as nat)
            + ", "@);
        i += 1;
    }
    assert(t@.take(i as int) =~= t@);
    s
}

/// The counts of sizes: `s<size>=<count>` for each, with commas between them.
pub open spec fn sizes_text(t: Seq<(u64, usize)>) -> Seq<char>
    decreases t.len(),
{
    if t.len() == 0 {
        Seq::empty()
    } else {
        sizes_text(t.drop_last()) + (if t.len() > 1 {
            ","@
        } else {
            Seq::empty()
        }) + "s"@ + text::decimal(t.last().0 as nat) + "="@ + text::decimal(t.last().1 as nat)
    }
}

/// The counts of sizes in words.
pub fn sizes_line(t: &Vec<(u64, usize)>) -> (r: String)
    ensures
        r@ == sizes_text(t@),
{
    let mut s = String::new();
    let mut i: usize = 0;
    while i < t.len()
        invariant
            i <= t@.len(),
            s@ == sizes_text(t@.take(i as int)),
        decreases t@.len() - i,
    {
        let ghost before = s@;
        assert(t@.take(i + 1).drop_last() =~= t@.take(i as int));
        let (k, n): (u64, usize) = t[i];
        if i > 0 {
            s.append(",");
        }
        s.append("s");
        push_decimal(&mut s, k);
        s.append("=");
        push_decimal(&mut s, n as u64);
        assert(s@ =~= before + (if i > 0 {
            ","@
        } else {
            Seq::empty()
        }) + "s"@ + text::decimal(k as nat) + "="@ + text::decimal(n as nat));
        i += 1;
    }
    assert(t@.take(i as int) =~= t@);
    s
}

} // verus!
