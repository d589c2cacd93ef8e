//! Which form of a grid is the canonical one.

use super::canonical;
use super::canonical::{canonical, digits_before, relabel, renamed, transpose};
use super::combos;
use vstd::prelude::*;

verus! {

/// `f` gives each digit of `flat` a number of its own from one up, and an open cell stays open.
pub open spec fn numbers(flat: Seq<int>, f: spec_fn(int) -> int) -> bool {
    &&& f(0) == 0
    &&& forall|i: int| 0 <= i < flat.len() && #[trigger] flat[i] != 0 ==> f(flat[i]) >= 1
    &&& forall|i: int, j: int|
        0 <= i < flat.len() && 0 <= j < flat.len() && f(#[trigger] flat[i]) == f(
            #[trigger] flat[j],
        ) ==> flat[i] == flat[j]
}

/// `a` comes before `b`: it is below it in the first place where the two differ.
pub open spec fn comes_before(a: Seq<int>, b: Seq<int>) -> bool {
    exists|p: int|
        0 <= p < a.len() && p < b.len() && #[trigger] a[p] < b[p] && forall|i: int|
            0 <= i < p ==> #[trigger] a[i] == b[i]
}

proof fn lemma_before(a: Seq<int>, b: Seq<int>)
    ensures
        comes_before(a, b) == combos::lex_lt(a, b),
{
    if comes_before(a, b) {
        let p = choose|p: int|
            0 <= p < a.len() && p < b.len() && #[trigger] a[p] < b[p] && forall|i: int|
                0 <= i < p ==> #[trigger] a[i] == b[i];
        assert(combos::lex_at(a, b, p));
    }
    if combos::lex_lt(a, b) {
        let p = choose|p: int| #[trigger] combos::lex_at(a, b, p);
        assert(a[p] < b[p]);
    }
}

/// A number that was given out belongs to a digit that occurred.
proof fn lemma_given_out(flat: Seq<int>, m: int, x: int) -> (k: int)
    requires
        0 <= m <= flat.len(),
        1 <= x <= digits_before(flat, m),
    ensures
        0 <= k < m,
        relabel(flat)[k] == x,
        flat[k] != 0,
    decreases m,
{
    if x <= digits_before(flat, m - 1) {
        lemma_given_out(flat, m - 1, x)
    } else {
        let k = m - 1;
        assert(canonical::is_new_at(flat, k));
        assert(canonical::is_first_of(flat, flat[k], k));
        canonical::lemma_first_unique(flat, flat[k], k);
        k
    }
}

/// Numbered in the order in which they first occur, the digits come as early as they can.
proof fn lemma_numbered_least(flat: Seq<int>, f: spec_fn(int) -> int)
    requires
        numbers(flat, f),
    ensures
        !comes_before(renamed(flat, f), relabel(flat)),
{
    let g = renamed(flat, f);
    let r = relabel(flat);
    if comes_before(g, r) {
        let p = choose|p: int|
            0 <= p < g.len() && p < r.len() && #[trigger] g[p] < r[p] && forall|i: int|
                0 <= i < p ==> #[trigger] g[i] == r[i];
        assert(flat[p] != 0);
        canonical::lemma_first_of(flat, p);
        let j = canonical::first_of(flat, flat[p]);
        if j < p {
            assert(flat[j] == flat[p]);
            assert(g[j] == r[j]);
            assert(r[j] == r[p]);
            assert(g[j] == g[p]);
        } else {
            assert(canonical::is_new_at(flat, p));
            assert(r[p] == digits_before(flat, p) + 1);
            assert(g[p] == f(flat[p]));
            let k = lemma_given_out(flat, p, g[p]);
            assert(g[k] == r[k]);
            assert(f(flat[k]) == f(flat[p]));
            assert(flat[k] == flat[p]);
            assert(flat[k] != flat[p]);
        }
    }
}

/// The canonical form is a numbering of the digits of the grid, or of the grid with rows and
/// columns exchanged.
pub proof fn law_form_numbers_the_digits(flat: Seq<int>, n: int) -> (f: spec_fn(int) -> int)
    requires
        n > 0,
        flat.len() == n * n,
    ensures
        (numbers(flat, f) && canonical(flat, n) == renamed(flat, f)) || (numbers(
            transpose(flat, n),
            f,
        ) && canonical(flat, n) == renamed(transpose(flat, n), f)),
{
    let t = transpose(flat, n);
    let s = if canonical(flat, n) == relabel(flat) {
        flat
    } else {
        t
    };
    let f = |d: int| canonical::name_of(s, d);
    canonical::lemma_names(s);
    assert forall|i: int| 0 <= i < s.len() && #[trigger] s[i] != 0 implies f(s[i]) >= 1 by {
        canonical::lemma_first_of(s, i);
        canonical::lemma_counts_grow(s, 0, canonical::first_of(s, s[i]) + 1);
    }
    assert(numbers(s, f));
    f
}

/// No other numbering of the digits, of the grid or of the grid with rows and columns exchanged,
/// comes before the canonical form.
pub proof fn law_form_is_the_first(flat: Seq<int>, n: int, f: spec_fn(int) -> int)
    requires
        n > 0,
        flat.len() == n * n,
        numbers(flat, f),
    ensures
        !comes_before(renamed(flat, f), canonical(flat, n)),
        !comes_before(renamed(transpose(flat, n), f), canonical(flat, n)),
{
    let t = transpose(flat, n);
    canonical::lemma_renamed_transpose(flat, f, n);
    assert(numbers(t, f)) by {
        let g = renamed(t, f);
        assert forall|i: int| 0 <= i < t.len() && #[trigger] t[i] != 0 implies f(t[i]) >= 1 by {
            canonical::lemma_swapped(i, n);
            assert(t[i] == flat[(i % n) * n + i / n]);
        }
    }
    lemma_numbered_least(flat, f);
    lemma_numbered_least(t, f);
    lemma_not_before(renamed(flat, f), relabel(flat), relabel(t), canonical(flat, n));
    lemma_not_before(renamed(t, f), relabel(t), relabel(flat), canonical(flat, n));
}

/// What does not come before one of two does not come before the first of them.
proof fn lemma_not_before(x: Seq<int>, a: Seq<int>, b: Seq<int>, least: Seq<int>)
    requires
        a.len() == b.len(),
        !comes_before(x, a),
        least == canonical::lex_min(a, b) || least == canonical::lex_min(b, a),
    ensures
        !comes_before(x, least),
{
    lemma_before(x, a);
    lemma_before(x, b);
    if comes_before(x, least) && least != a {
        if !combos::lex_lt(b, a) {
            combos::lemma_lex_total(a, b);
        }
        combos::lemma_lex_transitive(x, b, a);
    }
}

} // verus!
