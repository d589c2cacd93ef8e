//! How text is taken apart, and what numbers say of a list.

use super::lists::filled;
use super::pilot;
use super::statistics::{median_of, p90_of};
use crate::generic::sorting;
use crate::generic::text;
use crate::lexing;
use vstd::arithmetic::div_mod::lemma_fundamental_div_mod;
use vstd::prelude::*;

verus! {

/// In whatever ascending order the values are put, none of the first half is above the median and
/// none of the rest is below; and all but a tenth are below the other mark or equal to it.
pub proof fn law_median(s: Seq<u64>, t: Seq<u64>, i: int)
    requires
        s.len() > 0,
        t.to_multiset() == s.to_multiset(),
        forall|a: int, b: int| 0 <= a < b < t.len() ==> t[a] <= t[b],
        0 <= i < t.len(),
    ensures
        2 * i <= t.len() ==> t[i] <= median_of(s),
        2 * i >= t.len() - 1 ==> t[i] >= median_of(s),
        10 * i <= 9 * t.len() ==> t[i] <= p90_of(s),
        10 * i >= 9 * t.len() ==> t[i] >= p90_of(s),
        t.contains(median_of(s)),
        t.contains(p90_of(s)),
{
    sorting::lemma_sorted(s, t);
    sorting::lemma_sorted_facts(s);
    let m = s.len() as int / 2;
    let n = s.len() as int * 9 / 10;
    assert(t[m] == median_of(s));
    assert(t[n] == p90_of(s));
}

/// There is nothing but white space.
pub open spec fn all_white(s: Seq<char>) -> bool {
    forall|i: int| 0 <= i < s.len() ==> lexing::is_white(#[trigger] s[i])
}

/// Trimming takes all white space at either end and nothing else: what is left is bordered by
/// none, and what was taken is nothing but.
pub proof fn law_trimmed(s: Seq<char>) -> (parts: (Seq<char>, Seq<char>))
    ensures
        s == parts.0 + lexing::trimmed(s) + parts.1,
        all_white(parts.0),
        all_white(parts.1),
        lexing::trimmed(s).len() > 0 ==> !lexing::is_white(lexing::trimmed(s)[0])
            && !lexing::is_white(lexing::trimmed(s).last()),
{
    let a = lemma_start(s);
    let t = lexing::trim_start(s);
    let b = lemma_end(t);
    assert(s =~= a + lexing::trimmed(s) + b);
    if lexing::trimmed(s).len() > 0 {
        assert(t[0] == lexing::trimmed(s)[0]);
    }
    (a, b)
}

proof fn lemma_start(s: Seq<char>) -> (a: Seq<char>)
    ensures
        s == a + lexing::trim_start(s),
        all_white(a),
        lexing::trim_start(s).len() > 0 ==> !lexing::is_white(lexing::trim_start(s)[0]),
    decreases s.len(),
{
    if s.len() > 0 && lexing::is_white(s[0]) {
        let a = lemma_start(s.drop_first());
        let b = seq![s[0]] + a;
        assert(s =~= seq![s[0]] + s.drop_first());
        assert(s =~= b + lexing::trim_start(s));
        b
    } else {
        assert(s =~= Seq::<char>::empty() + s);
        Seq::empty()
    }
}

proof fn lemma_end(s: Seq<char>) -> (a: Seq<char>)
    ensures
        s == lexing::trim_end(s) + a,
        all_white(a),
        lexing::trim_end(s).len() > 0 ==> !lexing::is_white(lexing::trim_end(s).last()),
    decreases s.len(),
{
    if s.len() > 0 && lexing::is_white(s.last()) {
        let a = lemma_end(s.drop_last());
        let b = a.push(s.last());
        assert(s =~= s.drop_last().push(s.last()));
        assert(s =~= lexing::trim_end(s) + b);
        b
    } else {
        assert(s =~= s + Seq::<char>::empty());
        Seq::empty()
    }
}

/// The pieces of two texts with the mark between them are those of the first and then those of
/// the second; a text without the mark is one piece.
pub proof fn law_pieces(a: Seq<char>, c: char, b: Seq<char>)
    ensures
        lexing::pieces(a.push(c) + b, c) == lexing::pieces(a, c) + lexing::pieces(b, c),
        !a.contains(c) ==> lexing::pieces(a, c) == seq![a],
    decreases a.len(),
{
    let s = a.push(c) + b;
    lemma_find(a, c, 0);
    lemma_find(s, c, 0);
    let k = lexing::find_from(a, c, 0);
    let l = lexing::find_from(s, c, 0);
    if k < a.len() {
        assert(s[k] == a[k]);
        assert(l == k) by {
            if l < k {
                assert(s[l] == a[l]);
            }
        }
        let rest = a.skip(k + 1);
        law_pieces(rest, c, b);
        assert(s.skip(k + 1) =~= rest.push(c) + b);
        assert(s.take(k) =~= a.take(k));
        assert(lexing::pieces(s, c) =~= lexing::pieces(a, c) + lexing::pieces(b, c));
        assert(a.contains(c)) by {
            assert(a[k] == c);
        }
    } else {
        assert(l == a.len()) by {
            assert(s[a.len() as int] == c);
            if l < a.len() {
                assert(s[l] == a[l]);
            }
        }
        assert(s.take(l) =~= a);
        assert(s.skip(l + 1) =~= b);
        assert(lexing::pieces(s, c) =~= lexing::pieces(a, c) + lexing::pieces(b, c));
    }
}

proof fn lemma_find(s: Seq<char>, c: char, from: int)
    requires
        0 <= from <= s.len(),
    ensures
        from <= lexing::find_from(s, c, from) <= s.len(),
        forall|i: int| from <= i < lexing::find_from(s, c, from) ==> #[trigger] s[i] != c,
        lexing::find_from(s, c, from) < s.len() ==> s[lexing::find_from(s, c, from)] == c,
    decreases s.len() - from,
{
    if from < s.len() && s[from] != c {
        lemma_find(s, c, from + 1);
    }
}

/// The entries of two lists one after the other are those of the first and then those of the
/// second; a blank piece is none, and another is one, without the space round it.
pub proof fn law_entries(a: Seq<Seq<char>>, b: Seq<Seq<char>>, x: Seq<char>)
    ensures
        filled(a + b) == filled(a) + filled(b),
        lexing::trimmed(x).len() == 0 ==> filled(seq![x]) == Seq::<Seq<char>>::empty(),
        lexing::trimmed(x).len() > 0 ==> filled(seq![x]) == seq![lexing::trimmed(x)],
    decreases b.len(),
{
    if b.len() == 0 {
        assert(a + b =~= a);
        assert(filled(a) + filled(b) =~= filled(a));
    } else {
        law_entries(a, b.drop_last(), x);
        assert((a + b).drop_last() =~= a + b.drop_last());
        assert(filled(a + b) =~= filled(a) + filled(b));
    }
    assert(seq![x].drop_last() =~= Seq::<Seq<char>>::empty());
    assert(filled(seq![x].drop_last()) =~= Seq::<Seq<char>>::empty());
    assert(seq![x].last() == x);
    if lexing::trimmed(x).len() > 0 {
        assert(filled(seq![x]) =~= seq![lexing::trimmed(x)]);
    }
}

/// A number that is written out is read back as itself, so that no two are written alike.
pub proof fn law_number_is_read_back(n: nat)
    ensures
        lexing::value_of(text::decimal(n)) == n,
        text::decimal(n).len() > 0,
        forall|i: int|
            0 <= i < text::decimal(n).len() ==> '0' <= #[trigger] text::decimal(n)[i]
                && text::decimal(n)[i] <= '9',
        n > 0 ==> text::decimal(n)[0] != '0',
    decreases n,
{
    if n < 10 {
        let s = text::decimal(n);
        assert(s == seq![(0x30 + n) as char]);
        assert(s.drop_last() =~= Seq::<char>::empty());
        assert(lexing::value_of(s.drop_last()) == 0);
        assert(s.last() as int == 0x30 + n);
    } else {
        let h = text::decimal(n / 10);
        let s = text::decimal(n);
        law_number_is_read_back(n / 10);
        assert(s.drop_last() =~= h);
        assert(s.last() as int == 0x30 + n % 10);
        assert(lexing::value_of(s) == n);
        assert(s[0] == h[0]);
        assert forall|i: int| 0 <= i < s.len() implies '0' <= #[trigger] s[i] && s[i] <= '9' by {
            if i < h.len() {
                assert(s[i] == h[i]);
            }
        }
    }
}

/// No two attempts of a run have the same seed, and the first has the one given.
pub proof fn law_attempts_have_their_own_seeds(base: int, i: int, j: int)
    requires
        0 <= base < 0x1_0000_0000_0000_0000,
        0 <= i < j < 0x1_0000_0000_0000_0000,
    ensures
        pilot::seed_of(base, 0) == base,
        pilot::seed_of(base, i) != pilot::seed_of(base, j),
{
    let m: int = 0x1_0000_0000_0000_0000;
    if pilot::seed_of(base, i) == pilot::seed_of(base, j) {
        let a = base + i * 1_000_003;
        let b = base + j * 1_000_003;
        let d = j - i;
        let q = b / m - a / m;
        lemma_fundamental_div_mod(a, m);
        lemma_fundamental_div_mod(b, m);
        assert(d * 1_000_003 == m * q);
        let inverse: int = 16109806864799210091;
        let k: int = 873317;
        assert(1_000_003 * inverse == 1 + k * m);
        let x = q * inverse - d * k;
        assert(d == m * x) by (nonlinear_arith)
            requires
                d * 1_000_003 == m * q,
                1_000_003 * inverse == 1 + k * m,
                x == q * inverse - d * k,
        ;
        assert(false) by (nonlinear_arith)
            requires
                d == m * x,
                0 < d < m,
        ;
    }
}

} // verus!
