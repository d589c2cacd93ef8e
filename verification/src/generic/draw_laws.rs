//! What is drawn from.

use super::masks;
use super::mutation;
use super::search::listed;
use vstd::prelude::*;

verus! {

/// The digits of a cell are listed in ascending order, each that is a candidate and no other.
pub proof fn law_digits_are_listed(m: u32, n: int, d: u8)
    requires
        0 <= n <= 32,
    ensures
        listed(m, n).contains(d) <==> d <= n && masks::holds(m, d as int),
        forall|i: int, j: int| 0 <= i < j < listed(m, n).len() ==> listed(m, n)[i] < listed(m, n)[j],
        forall|i: int| 0 <= i < listed(m, n).len() ==> 1 <= #[trigger] listed(m, n)[i] <= n,
    decreases n,
{
    if n > 0 {
        law_digits_are_listed(m, n - 1, d);
        let a = listed(m, n - 1);
        let b = listed(m, n);
        if masks::holds(m, n) {
            assert(b == a.push(n as u8));
            assert(b[a.len() as int] == n);
            if a.contains(d) {
                let i = choose|i: int| 0 <= i < a.len() && a[i] == d;
                assert(b[i] == d);
            }
            if b.contains(d) && d != n {
                let i = choose|i: int| 0 <= i < b.len() && b[i] == d;
                assert(a[i] == d);
            }
            assert forall|i: int| 0 <= i < b.len() implies 1 <= #[trigger] b[i] <= n by {
                if i < a.len() {
                    assert(b[i] == a[i]);
                }
            }
        }
    }
}

/// The cells with a clue are listed in ascending order, each of them and no other.
pub proof fn law_clues_are_listed(p: Seq<u8>, n: int, c: usize)
    requires
        0 <= n <= p.len(),
        p.len() <= usize::MAX,
    ensures
        mutation::clues_below(p, n).contains(c) <==> c < n && p[c as int] != 0x2e,
        forall|i: int, j: int|
            0 <= i < j < mutation::clues_below(p, n).len() ==> mutation::clues_below(p, n)[i]
                < mutation::clues_below(p, n)[j],
        forall|i: int|
            0 <= i < mutation::clues_below(p, n).len() ==> #[trigger] mutation::clues_below(p, n)[i]
                < n,
    decreases n,
{
    if n > 0 {
        law_clues_are_listed(p, n - 1, c);
        let a = mutation::clues_below(p, n - 1);
        let b = mutation::clues_below(p, n);
        if p[n - 1] != 0x2e {
            assert(b == a.push((n - 1) as usize));
            assert(b[a.len() as int] == n - 1);
            if a.contains(c) {
                let i = choose|i: int| 0 <= i < a.len() && a[i] == c;
                assert(b[i] == c);
            }
            if b.contains(c) && c != n - 1 {
                let i = choose|i: int| 0 <= i < b.len() && b[i] == c;
                assert(a[i] == c);
            }
            assert forall|i: int| 0 <= i < b.len() implies #[trigger] b[i] < n by {
                if i < a.len() {
                    assert(b[i] == a[i]);
                }
            }
        }
    }
}

/// A clue can be replaced by any digit but its own.
pub proof fn law_other_digits_are_listed(cur: u8, d: int, x: u8)
    requires
        0x30 <= d <= 0x39,
    ensures
        mutation::others_upto(cur, d).contains(x) <==> 0x31 <= x <= d && x != cur,
        forall|i: int, j: int|
            0 <= i < j < mutation::others_upto(cur, d).len() ==> mutation::others_upto(cur, d)[i]
                < mutation::others_upto(cur, d)[j],
        forall|i: int|
            0 <= i < mutation::others_upto(cur, d).len() ==> #[trigger] mutation::others_upto(
                cur,
                d,
            )[i] <= d,
    decreases d,
{
    if d >= 0x31 {
        law_other_digits_are_listed(cur, d - 1, x);
        let a = mutation::others_upto(cur, d - 1);
        let b = mutation::others_upto(cur, d);
        if d != cur {
            assert(b == a.push(d as u8));
            assert(b[a.len() as int] == d);
            if a.contains(x) {
                let i = choose|i: int| 0 <= i < a.len() && a[i] == x;
                assert(b[i] == x);
            }
            if b.contains(x) && x != d {
                let i = choose|i: int| 0 <= i < b.len() && b[i] == x;
                assert(a[i] == x);
            }
            assert forall|i: int| 0 <= i < b.len() implies #[trigger] b[i] <= d by {
                if i < a.len() {
                    assert(b[i] == a[i]);
                }
            }
        }
    }
}

} // verus!
