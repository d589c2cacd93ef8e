//! A form that grids share if they differ in the names of the digits or are transposed.

use super::combos;
use super::geometry;
use super::grid::Grid;
use super::peer_tables;
use vstd::prelude::*;
use vstd::set_lib::*;

verus! {

/// Position `j` holds the first occurrence of a digit.
pub open spec fn is_new_at(flat: Seq<int>, j: int) -> bool {
    flat[j] != 0 && forall|k: int| 0 <= k < j ==> #[trigger] flat[k] != flat[j]
}

/// The number of digits that occur before position `m`.
pub open spec fn digits_before(flat: Seq<int>, m: int) -> int
    decreases m,
{
    if m <= 0 {
        0
    } else {
        digits_before(flat, m - 1) + if is_new_at(flat, m - 1) {
            1int
        } else {
            0int
        }
    }
}

/// Position `j` is the first one that holds `d`.
pub open spec fn is_first_of(flat: Seq<int>, d: int, j: int) -> bool {
    &&& 0 <= j < flat.len()
    &&& flat[j] == d
    &&& forall|k: int| 0 <= k < j ==> #[trigger] flat[k] != d
}

/// The first position that holds `d`.
pub open spec fn first_of(flat: Seq<int>, d: int) -> int {
    choose|j: int| #[trigger] is_first_of(flat, d, j)
}

/// The new name of a digit: the digits are numbered in the order in which they first occur,
/// and an open cell stays open.
pub open spec fn name_of(flat: Seq<int>, d: int) -> int {
    if d == 0 {
        0
    } else {
        digits_before(flat, first_of(flat, d) + 1)
    }
}

/// The grid with its digits numbered in the order in which they first occur.
pub open spec fn relabel(flat: Seq<int>) -> Seq<int> {
    Seq::new(flat.len(), |i: int| name_of(flat, flat[i]))
}

/// Rows and columns swapped.
pub open spec fn transpose(flat: Seq<int>, n: int) -> Seq<int> {
    Seq::new(flat.len(), |i: int| flat[(i % n) * n + i / n])
}

/// The smaller of two sequences in lexicographic order.
pub open spec fn lex_min(a: Seq<int>, b: Seq<int>) -> Seq<int> {
    if combos::lex_lt(b, a) {
        b
    } else {
        a
    }
}

/// The canonical form: the smaller of the grid and its transpose, both with their digits
/// numbered in the order in which they first occur.
pub open spec fn canonical(flat: Seq<int>, n: int) -> Seq<int> {
    lex_min(relabel(flat), relabel(transpose(flat, n)))
}

/// The digits renamed by `f`.
pub open spec fn renamed(flat: Seq<int>, f: spec_fn(int) -> int) -> Seq<int> {
    Seq::new(flat.len(), |i: int| f(flat[i]))
}

/// `f` gives different digits of the grid different names, and an open cell stays open.
pub open spec fn is_renaming(flat: Seq<int>, f: spec_fn(int) -> int) -> bool {
    &&& f(0) == 0
    &&& forall|i: int, j: int|
        0 <= i < flat.len() && 0 <= j < flat.len() && f(#[trigger] flat[i]) == f(
            #[trigger] flat[j],
        ) ==> flat[i] == flat[j]
    &&& forall|i: int| 0 <= i < flat.len() && #[trigger] flat[i] != 0 ==> f(flat[i]) != 0
}

/// Every digit that occurs has a first position.
pub proof fn lemma_first_of(flat: Seq<int>, i: int)
    requires
        0 <= i < flat.len(),
    ensures
        is_first_of(flat, flat[i], first_of(flat, flat[i])),
        first_of(flat, flat[i]) <= i,
{
    lemma_some_first(flat, i);
    let j = first_of(flat, flat[i]);
    assert(is_first_of(flat, flat[i], j));
    if j > i {
        assert(flat[i] != flat[i]);
    }
}

proof fn lemma_some_first(flat: Seq<int>, i: int) -> (j: int)
    requires
        0 <= i < flat.len(),
    ensures
        is_first_of(flat, flat[i], j),
    decreases i,
{
    if exists|k: int| 0 <= k < i && #[trigger] flat[k] == flat[i] {
        let k = choose|k: int| 0 <= k < i && #[trigger] flat[k] == flat[i];
        lemma_some_first(flat, k)
    } else {
        i
    }
}

pub proof fn lemma_first_unique(flat: Seq<int>, d: int, j: int)
    requires
        is_first_of(flat, d, j),
    ensures
        first_of(flat, d) == j,
{
    let k = first_of(flat, d);
    assert(is_first_of(flat, d, k));
    if k < j {
        assert(flat[k] != d);
    }
    if j < k {
        assert(flat[j] != d);
    }
}

/// The counts do not depend on the names.
proof fn lemma_same_counts(flat: Seq<int>, f: spec_fn(int) -> int, m: int)
    requires
        is_renaming(flat, f),
        m <= flat.len(),
    ensures
        digits_before(renamed(flat, f), m) == digits_before(flat, m),
    decreases m,
{
    if m > 0 {
        lemma_same_counts(flat, f, m - 1);
        let g = renamed(flat, f);
        let j = m - 1;
        assert(g[j] == f(flat[j]));
        if is_new_at(flat, j) {
            assert forall|k: int| 0 <= k < j implies #[trigger] g[k] != g[j] by {
                assert(flat[k] != flat[j]);
            }
        }
        if is_new_at(g, j) {
            assert(flat[j] != 0);
            assert forall|k: int| 0 <= k < j implies #[trigger] flat[k] != flat[j] by {
                assert(g[k] != g[j]);
            }
        }
    }
}

/// Numbering the digits in the order in which they first occur forgets their names.
pub proof fn law_relabel_forgets_names(flat: Seq<int>, f: spec_fn(int) -> int)
    requires
        is_renaming(flat, f),
    ensures
        relabel(renamed(flat, f)) == relabel(flat),
{
    let g = renamed(flat, f);
    assert forall|i: int| 0 <= i < flat.len() implies relabel(g)[i] == relabel(flat)[i] by {
        assert(g[i] == f(flat[i]));
        if flat[i] != 0 {
            lemma_first_of(flat, i);
            let j = first_of(flat, flat[i]);
            assert(is_first_of(g, g[i], j)) by {
                assert(g[j] == f(flat[j]));
                assert forall|k: int| 0 <= k < j implies #[trigger] g[k] != g[i] by {
                    assert(flat[k] != flat[i]);
                }
            }
            lemma_first_unique(g, g[i], j);
            lemma_same_counts(flat, f, j + 1);
        }
    }
    assert(relabel(g) =~= relabel(flat));
}

/// Later positions come after at least as many digits.
pub proof fn lemma_counts_grow(flat: Seq<int>, l: int, m: int)
    requires
        l <= m,
    ensures
        0 <= digits_before(flat, l) <= digits_before(flat, m),
        digits_before(flat, m) <= if m < 0 {
            0
        } else {
            m
        },
    decreases m,
{
    if m > 0 {
        if l < m {
            lemma_counts_grow(flat, l, m - 1);
        } else {
            lemma_counts_grow(flat, l - 1, m - 1);
        }
    }
}

/// The new names are a renaming.
pub proof fn lemma_names(flat: Seq<int>)
    ensures
        is_renaming(flat, |d: int| name_of(flat, d)),
        relabel(flat) == renamed(flat, |d: int| name_of(flat, d)),
{
    let f = |d: int| name_of(flat, d);
    assert forall|i: int| 0 <= i < flat.len() && #[trigger] flat[i] != 0 implies f(flat[i]) != 0 by {
        lemma_first_of(flat, i);
        let j = first_of(flat, flat[i]);
        assert(is_new_at(flat, j));
        lemma_counts_grow(flat, 0, j);
    }
    assert forall|i: int, j: int|
        0 <= i < flat.len() && 0 <= j < flat.len() && f(#[trigger] flat[i]) == f(
            #[trigger] flat[j],
        ) implies flat[i] == flat[j] by {
        if flat[i] != 0 && flat[j] != 0 && f(flat[i]) == f(flat[j]) {
            lemma_first_of(flat, i);
            lemma_first_of(flat, j);
            let p = first_of(flat, flat[i]);
            let q = first_of(flat, flat[j]);
            assert(is_new_at(flat, p) && is_new_at(flat, q));
            if p < q {
                lemma_counts_grow(flat, p + 1, q);
            }
            if q < p {
                lemma_counts_grow(flat, q + 1, p);
            }
        } else if flat[i] != 0 {
            assert(f(flat[i]) != 0);
        } else if flat[j] != 0 {
            assert(f(flat[j]) != 0);
        }
    }
    assert(relabel(flat) =~= renamed(flat, f));
}

/// Transposing twice leads back.
proof fn lemma_transpose_twice(flat: Seq<int>, n: int)
    requires
        n > 0,
        flat.len() == n * n,
    ensures
        transpose(transpose(flat, n), n) == flat,
{
    let t = transpose(flat, n);
    assert forall|i: int| 0 <= i < flat.len() implies transpose(t, n)[i] == flat[i] by {
        lemma_swapped(i, n);
    }
    assert(transpose(t, n) =~= flat);
}

/// The position of a cell after rows and columns were swapped.
pub proof fn lemma_swapped(i: int, n: int)
    requires
        n > 0,
        0 <= i < n * n,
    ensures
        0 <= (i % n) * n + i / n < n * n,
        ((i % n) * n + i / n) % n == i / n,
        ((i % n) * n + i / n) / n == i % n,
        (i / n) * n + i % n == i,
        0 <= i / n < n,
        0 <= i % n < n,
{
    vstd::arithmetic::div_mod::lemma_fundamental_div_mod(i, n);
    vstd::arithmetic::div_mod::lemma_mod_bound(i, n);
    assert(n * (i / n) == (i / n) * n) by (nonlinear_arith);
    assert(0 <= i / n < n) by (nonlinear_arith)
        requires
            0 <= i < n * n,
            0 < n,
            i == n * (i / n) + i % n,
            0 <= i % n < n,
    ;
    geometry::lemma_compose_bound(i % n, i / n, n, n);
    geometry::lemma_div_mod_of(i % n, i / n, n);
}

/// Renaming and transposing can be swapped.
pub proof fn lemma_renamed_transpose(flat: Seq<int>, f: spec_fn(int) -> int, n: int)
    requires
        n > 0,
        flat.len() == n * n,
        is_renaming(flat, f),
    ensures
        transpose(renamed(flat, f), n) == renamed(transpose(flat, n), f),
        is_renaming(transpose(flat, n), f),
{
    let t = transpose(flat, n);
    assert forall|i: int| 0 <= i < flat.len() implies #[trigger] t[i] == flat[(i % n) * n + i / n]
        && 0 <= (i % n) * n + i / n < flat.len() by {
        lemma_swapped(i, n);
    }
    assert forall|i: int| 0 <= i < flat.len() implies transpose(renamed(flat, f), n)[i] == renamed(
        t,
        f,
    )[i] by {
        lemma_swapped(i, n);
    }
    assert(transpose(renamed(flat, f), n) =~= renamed(t, f));
    assert forall|i: int, j: int|
        0 <= i < t.len() && 0 <= j < t.len() && f(#[trigger] t[i]) == f(
            #[trigger] t[j],
        ) implies t[i] == t[j] by {
        let p = (i % n) * n + i / n;
        let q = (j % n) * n + j / n;
        assert(t[i] == flat[p] && t[j] == flat[q]);
    }
    assert forall|i: int| 0 <= i < t.len() && #[trigger] t[i] != 0 implies f(t[i]) != 0 by {
        let p = (i % n) * n + i / n;
        assert(t[i] == flat[p]);
    }
}

/// The smaller of two sequences does not depend on their order.
proof fn lemma_lex_min_symmetric(a: Seq<int>, b: Seq<int>)
    requires
        a.len() == b.len(),
    ensures
        lex_min(a, b) == lex_min(b, a),
{
    if a != b {
        combos::lemma_lex_total(a, b);
        if combos::lex_lt(a, b) && combos::lex_lt(b, a) {
            combos::lemma_lex_transitive(a, b, a);
            combos::lemma_lex_irreflexive(a);
        }
    }
}

/// Renaming the digits does not change the canonical form.
pub proof fn law_canonical_ignores_names(flat: Seq<int>, f: spec_fn(int) -> int, n: int)
    requires
        n > 0,
        flat.len() == n * n,
        is_renaming(flat, f),
    ensures
        canonical(renamed(flat, f), n) == canonical(flat, n),
{
    law_relabel_forgets_names(flat, f);
    lemma_renamed_transpose(flat, f, n);
    law_relabel_forgets_names(transpose(flat, n), f);
}

/// Transposing does not change the canonical form.
pub proof fn law_canonical_ignores_transposition(flat: Seq<int>, n: int)
    requires
        n > 0,
        flat.len() == n * n,
    ensures
        canonical(transpose(flat, n), n) == canonical(flat, n),
{
    lemma_transpose_twice(flat, n);
    lemma_lex_min_symmetric(relabel(flat), relabel(transpose(flat, n)));
}

/// The canonical form is its own canonical form.
pub proof fn law_canonical_is_canonical(flat: Seq<int>, n: int)
    requires
        n > 0,
        flat.len() == n * n,
    ensures
        canonical(canonical(flat, n), n) == canonical(flat, n),
{
    let t = transpose(flat, n);
    lemma_names(flat);
    law_canonical_ignores_names(flat, |d: int| name_of(flat, d), n);
    lemma_names(t);
    law_canonical_ignores_names(t, |d: int| name_of(t, d), n);
    law_canonical_ignores_transposition(flat, n);
}

/// `f` is a permutation of the digits from 1 to `n`, and an open cell stays open.
pub open spec fn is_permutation(f: spec_fn(int) -> int, n: int) -> bool {
    &&& f(0) == 0
    &&& forall|d: int| 1 <= d <= n ==> 1 <= #[trigger] f(d) <= n
    &&& forall|d: int, e: int|
        1 <= d <= n && 1 <= e <= n && #[trigger] f(d) == #[trigger] f(e) ==> d == e
}

/// The grid holds digits up to `n`.
pub open spec fn holds_digits(flat: Seq<int>, n: int) -> bool {
    &&& flat.len() == n * n
    &&& forall|i: int| 0 <= i < flat.len() ==> 0 <= #[trigger] flat[i] <= n
}

/// `b` comes out of `a` by a permutation of the digits, with or without transposing.
pub open spec fn are_related(a: Seq<int>, b: Seq<int>, n: int) -> bool {
    exists|f: spec_fn(int) -> int| #[trigger]
        is_permutation(f, n) && (b == renamed(a, f) || b == renamed(transpose(a, n), f))
}

/// A permutation of the digits is a renaming of every grid.
proof fn lemma_permutation_renames(flat: Seq<int>, f: spec_fn(int) -> int, n: int)
    requires
        holds_digits(flat, n),
        is_permutation(f, n),
    ensures
        is_renaming(flat, f),
{
    assert forall|i: int| 0 <= i < flat.len() && #[trigger] flat[i] != 0 implies f(flat[i]) != 0 by {
        assert(1 <= flat[i] <= n);
    }
    assert forall|i: int, j: int|
        0 <= i < flat.len() && 0 <= j < flat.len() && f(#[trigger] flat[i]) == f(
            #[trigger] flat[j],
        ) implies flat[i] == flat[j] by {
        assert(0 <= flat[i] <= n && 0 <= flat[j] <= n);
        if flat[i] != 0 {
            assert(1 <= f(flat[i]));
        }
        if flat[j] != 0 {
            assert(1 <= f(flat[j]));
        }
    }
}

/// A transposed grid holds the same digits.
proof fn lemma_transposed_digits(flat: Seq<int>, n: int)
    requires
        n > 0,
        holds_digits(flat, n),
    ensures
        holds_digits(transpose(flat, n), n),
{
    let t = transpose(flat, n);
    assert forall|i: int| 0 <= i < t.len() implies 0 <= #[trigger] t[i] <= n by {
        lemma_swapped(i, n);
        assert(0 <= flat[(i % n) * n + i / n] <= n);
    }
}

/// Names that are given to some of the digits can be completed to a permutation.
proof fn lemma_completed(f: spec_fn(int) -> int, dom: Set<int>, n: int) -> (g: spec_fn(int) -> int)
    requires
        n >= 0,
        dom.subset_of(set_int_range(1, n + 1)),
        forall|d: int| #[trigger] dom.contains(d) ==> 1 <= f(d) <= n,
        vstd::relations::injective_on(f, dom),
    ensures
        is_permutation(g, n),
        forall|d: int| #[trigger] dom.contains(d) ==> g(d) == f(d),
    decreases n - dom.len(),
{
    let full = set_int_range(1, n + 1);
    lemma_int_range(1, n + 1);
    lemma_len_subset(dom, full);
    if dom =~= full {
        let g = |d: int|
            if d == 0 {
                0
            } else {
                f(d)
            };
        assert forall|d: int| 1 <= d <= n implies 1 <= #[trigger] g(d) <= n by {
            assert(dom.contains(d));
        }
        assert forall|d: int, e: int|
            1 <= d <= n && 1 <= e <= n && #[trigger] g(d) == #[trigger] g(e) implies d == e by {
            assert(dom.contains(d) && dom.contains(e));
            assert(f(d) == f(e));
        }
        g
    } else {
        let d = choose|d: int| full.contains(d) && !dom.contains(d);
        assert(full.contains(d) && !dom.contains(d));
        let more = dom.insert(d);
        lemma_len_subset(more, full);
        assert(more.len() == dom.len() + 1);
        let image = dom.map(f);
        lemma_map_size(dom, image, f);
        assert(exists|e: int| full.contains(e) && !image.contains(e)) by {
            if forall|e: int| full.contains(e) ==> image.contains(e) {
                lemma_len_subset(full, image);
            }
        }
        let e = choose|e: int| full.contains(e) && !image.contains(e);
        let h = |x: int|
            if x == d {
                e
            } else {
                f(x)
            };
        assert forall|x: int| #[trigger] more.contains(x) implies 1 <= h(x) <= n by {
            if x != d {
                assert(dom.contains(x));
            }
        }
        assert forall|x: int, y: int|
            more.contains(x) && more.contains(y) && #[trigger] h(x) == #[trigger] h(y) implies x
            == y by {
            if x != d {
                assert(dom.contains(x));
                assert(image.contains(f(x)));
            }
            if y != d {
                assert(dom.contains(y));
                assert(image.contains(f(y)));
            }
            if x != d && y != d {
                assert(f(x) == f(y));
            }
        }
        let g = lemma_completed(h, more, n);
        assert forall|x: int| #[trigger] dom.contains(x) implies g(x) == f(x) by {
            assert(more.contains(x));
        }
        g
    }
}

/// Grids whose digits are numbered alike differ in the names of their digits only.
proof fn lemma_same_numbers(a: Seq<int>, b: Seq<int>, n: int) -> (f: spec_fn(int) -> int)
    requires
        n > 0,
        holds_digits(a, n),
        holds_digits(b, n),
        relabel(a) == relabel(b),
    ensures
        is_permutation(f, n),
        b == renamed(a, f),
{
    lemma_names(a);
    lemma_names(b);
    let (p, q) = (|d: int| name_of(a, d), |d: int| name_of(b, d));
    assert forall|i: int, j: int| 0 <= i < a.len() && 0 <= j < a.len() implies (#[trigger] a[i]
        == #[trigger] a[j] <==> b[i] == b[j]) by {
        assert(relabel(a)[i] == p(a[i]) && relabel(a)[j] == p(a[j]));
        assert(relabel(b)[i] == q(b[i]) && relabel(b)[j] == q(b[j]));
    }
    assert forall|i: int| 0 <= i < a.len() implies (#[trigger] a[i] == 0 <==> b[i] == 0) by {
        assert(relabel(a)[i] == p(a[i]));
        assert(relabel(b)[i] == q(b[i]));
    }
    let used = Set::new(|d: int| 1 <= d <= n && a.contains(d));
    let given = |d: int| b[first_of(a, d)];
    assert forall|i: int| 0 <= i < a.len() implies given(#[trigger] a[i]) == b[i] by {
        lemma_first_of(a, i);
        assert(a[first_of(a, a[i])] == a[i]);
    }
    assert(used.subset_of(set_int_range(1, n + 1)));
    assert forall|d: int| #[trigger] used.contains(d) implies 1 <= given(d) <= n by {
        let i = choose|i: int| 0 <= i < a.len() && a[i] == d;
        assert(given(a[i]) == b[i]);
    }
    assert forall|d: int, e: int|
        used.contains(d) && used.contains(e) && #[trigger] given(d) == #[trigger] given(e) implies d
        == e by {
        let i = choose|i: int| 0 <= i < a.len() && a[i] == d;
        let j = choose|j: int| 0 <= j < a.len() && a[j] == e;
        assert(given(a[i]) == b[i] && given(a[j]) == b[j]);
        assert(a[i] == a[j] <==> b[i] == b[j]);
    }
    let f = lemma_completed(given, used, n);
    assert forall|i: int| 0 <= i < a.len() implies b[i] == renamed(a, f)[i] by {
        if a[i] != 0 {
            assert(a.contains(a[i]));
            assert(used.contains(a[i]));
            assert(given(a[i]) == b[i]);
        }
    }
    assert(b =~= renamed(a, f));
    f
}

/// Two grids have the same canonical form if and only if one comes out of the other by a
/// permutation of the digits, with or without transposing.
pub proof fn law_same_form_means_related(a: Seq<int>, b: Seq<int>, n: int)
    requires
        n > 0,
        holds_digits(a, n),
        holds_digits(b, n),
    ensures
        canonical(a, n) == canonical(b, n) <==> are_related(a, b, n),
{
    let (at, bt) = (transpose(a, n), transpose(b, n));
    lemma_transposed_digits(a, n);
    lemma_transposed_digits(b, n);
    lemma_transpose_twice(a, n);
    lemma_transpose_twice(b, n);
    if are_related(a, b, n) {
        let f = choose|f: spec_fn(int) -> int| #[trigger]
            is_permutation(f, n) && (b == renamed(a, f) || b == renamed(at, f));
        lemma_permutation_renames(a, f, n);
        lemma_permutation_renames(at, f, n);
        law_canonical_ignores_names(a, f, n);
        law_canonical_ignores_names(at, f, n);
        law_canonical_ignores_transposition(a, n);
    }
    if canonical(a, n) == canonical(b, n) {
        if relabel(a) == relabel(b) {
            let f = lemma_same_numbers(a, b, n);
            assert(is_permutation(f, n) && b == renamed(a, f));
        } else if relabel(at) == relabel(b) {
            let f = lemma_same_numbers(at, b, n);
            assert(is_permutation(f, n) && b == renamed(at, f));
        } else if relabel(a) == relabel(bt) {
            let f = lemma_same_numbers(a, bt, n);
            lemma_permutation_renames(a, f, n);
            lemma_renamed_transpose(a, f, n);
            assert(is_permutation(f, n) && b == renamed(at, f));
        } else {
            let f = lemma_same_numbers(at, bt, n);
            lemma_permutation_renames(at, f, n);
            lemma_renamed_transpose(at, f, n);
            assert(is_permutation(f, n) && b == renamed(a, f));
        }
    }
}

/// The bytes as integers.
pub open spec fn byte_ints(v: Seq<u8>) -> Seq<int> {
    Seq::new(v.len(), |i: int| v[i] as int)
}

/// Numbers the digits in the order in which they first occur.
fn canonical_relabel(flat: &Vec<u8>, n: usize) -> (r: Vec<u8>)
    requires
        n <= 31,
        forall|i: int| 0 <= i < flat@.len() ==> (#[trigger] flat@[i]) <= n,
    ensures
        byte_ints(r@) == relabel(byte_ints(flat@)),
{
    let ghost fl = byte_ints(flat@);
    let mut names: Vec<u8> = Vec::new();
    while names.len() < n + 1
        invariant
            n <= 31,
            names@.len() <= n + 1,
            forall|d: int| 0 <= d < names@.len() ==> #[trigger] names@[d] == 0,
        decreases n + 1 - names@.len(),
    {
        names.push(0);
    }
    let mut next: u8 = 1;
    let mut r: Vec<u8> = Vec::new();
    let mut i: usize = 0;
    proof {
        assert(unnamed_upto(names@, n as int) == n) by {
            lemma_unnamed_all(names@, n as int);
        }
    }
    while i < flat.len()
        invariant
            n <= 31,
            fl == byte_ints(flat@),
            forall|j: int| 0 <= j < flat@.len() ==> (#[trigger] flat@[j]) <= n,
            names@.len() == n + 1,
            i <= flat@.len(),
            next == digits_before(fl, i as int) + 1,
            next - 1 + unnamed_upto(names@, n as int) == n,
            r@.len() == i,
            forall|d: int|
                1 <= d <= n ==> (#[trigger] names@[d] != 0 <==> exists|j: int|
                    0 <= j < i && #[trigger] fl[j] == d),
            forall|d: int| 1 <= d <= n && #[trigger] names@[d] != 0 ==> names@[d] == name_of(fl, d),
            forall|j: int| 0 <= j < i ==> (#[trigger] r@[j]) == name_of(fl, fl[j]),
        decreases flat@.len() - i,
    {
        let d: u8 = flat[i];
        let ghost names0 = names@;
        proof {
            lemma_counts_grow(fl, 0, i as int);
        }
        let ghost di = d as int;
        assert(flat@[i as int] <= n);
        assert(fl[i as int] == di);
        if d == 0 {
            r.push(0);
            assert(!is_new_at(fl, i as int));
        } else {
            if names[d as usize] == 0 {
                proof {
                    assert(is_new_at(fl, i as int)) by {
                        assert forall|k: int| 0 <= k < i implies #[trigger] fl[k] != fl[i as int] by {
                            if fl[k] == di {
                                assert(names0[di] != 0);
                            }
                        }
                    }
                    assert(is_first_of(fl, di, i as int));
                    lemma_first_unique(fl, di, i as int);
                    lemma_unnamed_update(names0, di, next, n as int);
                }
                names.set(d as usize, next);
                next = next + 1;
            } else {
                proof {
                    let j = choose|j: int| 0 <= j < i && #[trigger] fl[j] == di;
                    assert(!is_new_at(fl, i as int)) by {
                        assert(fl[j] == fl[i as int]);
                    }
                }
            }
            r.push(names[d as usize]);
        }
        proof {
            assert forall|x: int| 1 <= x <= n implies (#[trigger] names@[x] != 0 <==> exists|j: int|
                0 <= j < i + 1 && #[trigger] fl[j] == x) by {
                if x == di {
                    assert(fl[i as int] == x);
                } else {
                    assert(names@[x] == names0[x]);
                    if exists|j: int| 0 <= j < i + 1 && #[trigger] fl[j] == x {
                        let j = choose|j: int| 0 <= j < i + 1 && #[trigger] fl[j] == x;
                        assert(j < i && fl[j] == x);
                    }
                }
            }
        }
        i += 1;
    }
    proof {
        assert(byte_ints(r@) =~= relabel(fl)) by {
            assert forall|j: int| 0 <= j < fl.len() implies byte_ints(r@)[j] == relabel(fl)[j] by {
                assert(r@[j] == name_of(fl, fl[j]));
            }
        }
    }
    r
}

/// The number of digits up to `m` without a name.
spec fn unnamed_upto(names: Seq<u8>, m: int) -> int
    decreases m,
{
    if m <= 0 {
        0
    } else {
        unnamed_upto(names, m - 1) + if names[m] == 0 {
            1int
        } else {
            0int
        }
    }
}

proof fn lemma_unnamed_all(names: Seq<u8>, m: int)
    requires
        0 <= m < names.len(),
        forall|d: int| 0 <= d < names.len() ==> #[trigger] names[d] == 0,
    ensures
        unnamed_upto(names, m) == m,
    decreases m,
{
    if m > 0 {
        lemma_unnamed_all(names, m - 1);
    }
}

proof fn lemma_unnamed_update(names: Seq<u8>, d: int, x: u8, m: int)
    requires
        0 <= m < names.len(),
        1 <= d < names.len(),
        names[d] == 0,
        x != 0,
    ensures
        unnamed_upto(names.update(d, x), m) == unnamed_upto(names, m) - if d <= m {
            1int
        } else {
            0int
        },
        0 <= unnamed_upto(names.update(d, x), m),
    decreases m,
{
    if m > 0 {
        lemma_unnamed_update(names, d, x, m - 1);
    }
}

/// Whether `b` comes before `a` in lexicographic order.
fn comes_first(b: &Vec<u8>, a: &Vec<u8>) -> (r: bool)
    requires
        a@.len() == b@.len(),
    ensures
        r == combos::lex_lt(byte_ints(b@), byte_ints(a@)),
{
    let ghost x = byte_ints(b@);
    let ghost y = byte_ints(a@);
    let mut i: usize = 0;
    while i < a.len()
        invariant
            a@.len() == b@.len(),
            x == byte_ints(b@),
            y == byte_ints(a@),
            i <= a@.len(),
            forall|j: int| 0 <= j < i ==> #[trigger] x[j] == y[j],
        decreases a@.len() - i,
    {
        assert(x[i as int] == b@[i as int] && y[i as int] == a@[i as int]);
        if b[i] < a[i] {
            assert(combos::lex_at(x, y, i as int));
            return true;
        }
        if a[i] < b[i] {
            assert(!combos::lex_lt(x, y)) by {
                if combos::lex_lt(x, y) {
                    let p = choose|p: int| #[trigger] combos::lex_at(x, y, p);
                    if p > i {
                        assert(x[i as int] == y[i as int]);
                    }
                }
            }
            return false;
        }
        i += 1;
    }
    assert(!combos::lex_lt(x, y)) by {
        if combos::lex_lt(x, y) {
            let p = choose|p: int| #[trigger] combos::lex_at(x, y, p);
            assert(x[p] == y[p]);
        }
    }
    false
}

/// The canonical form of a grid.
pub fn canonical_form<const N: usize, const BR: usize, const BC: usize>(
    grid: &Grid<N, BR, BC>,
) -> (r: Vec<u8>)
    requires
        grid.wf(),
    ensures
        r@.len() == N * N,
        byte_ints(r@) == canonical(byte_ints(grid.solved@), N as int),
{
    let ghost sh = Grid::<N, BR, BC>::shape();
    proof {
        peer_tables::lemma_cells_bound(sh);
    }
    let nn: usize = N * N;
    let ghost fl = byte_ints(grid.solved@);
    let mut swapped: Vec<u8> = Vec::new();
    let mut i: usize = 0;
    while i < nn
        invariant
            grid.wf(),
            nn == N * N,
            1 <= N <= 31,
            fl == byte_ints(grid.solved@),
            i <= nn,
            swapped@.len() == i,
            forall|j: int| 0 <= j < i ==> (#[trigger] swapped@[j]) == transpose(fl, N as int)[j],
            forall|j: int| 0 <= j < i ==> (#[trigger] swapped@[j]) <= N,
        decreases nn - i,
    {
        proof {
            lemma_swapped(i as int, N as int);
        }
        let row: usize = i / N;
        let col: usize = i % N;
        assert(0 <= col * N) by (nonlinear_arith)
            requires
                0 <= col,
                0 <= N,
        ;
        let from: usize = col * N + row;
        assert(grid.solved@[from as int] <= N);
        swapped.push(grid.solved[from]);
        i += 1;
    }
    proof {
        assert(byte_ints(swapped@) =~= transpose(fl, N as int));
        assert forall|j: int| 0 <= j < grid.solved@.len() implies (#[trigger] grid.solved@[j]) <= N by {}
    }
    let a: Vec<u8> = canonical_relabel(&grid.solved, N);
    let b: Vec<u8> = canonical_relabel(&swapped, N);
    assert(byte_ints(a@).len() == nn && byte_ints(b@).len() == nn);
    if comes_first(&b, &a) {
        b
    } else {
        a
    }
}

pub const MOD_A: u64 = 0x1fff_ffff_ffff_ffff;

pub const BASE_A: u64 = 131;

pub const SEED_A: u64 = 0x517cc1b727220a95;

pub const MOD_B: u64 = 0x7fff_ffff;

pub const BASE_B: u64 = 137;

pub const SEED_B: u64 = 0xdeadbeefcafe1234;

/// What `x` leaves after it was folded once at a power of two, which is one above `m`.
pub open spec fn fold_once(x: int, m: int) -> int {
    let y = x / (m + 1) + x % (m + 1);
    if y >= m {
        y - m
    } else {
        y
    }
}

/// One step of a polynomial hash in 64 bits.
pub open spec fn hash_step(h: int, byte: int, base: int, m: int) -> int {
    fold_once((h * base + byte) % 0x1_0000_0000_0000_0000, m)
}

/// A polynomial hash of a sequence.
pub open spec fn poly_hash(v: Seq<int>, seed: int, base: int, m: int) -> int
    decreases v.len(),
{
    if v.len() == 0 {
        seed
    } else {
        hash_step(poly_hash(v.drop_last(), seed, base, m), v.last(), base, m)
    }
}

/// The hash of a canonical form: two polynomial hashes side by side.
pub open spec fn hash_of(v: Seq<int>) -> int {
    poly_hash(v, SEED_A as int, BASE_A as int, MOD_A as int) * 0x1_0000_0000_0000_0000 + poly_hash(
        v,
        SEED_B as int,
        BASE_B as int,
        MOD_B as int,
    )
}

/// One step of a polynomial hash.
fn next_hash(h: u64, byte: u8, base: u64, m: u64) -> (r: u64)
    requires
        base < 0x1_0000,
        m == MOD_A || m == MOD_B,
    ensures
        r == hash_step(h as int, byte as int, base as int, m as int),
{
    let p: u64 = h.wrapping_mul(base);
    let x: u64 = p.wrapping_add(byte as u64);
    proof {
        let t = 0x1_0000_0000_0000_0000int;
        let q = h as int * base as int;
        assert(q >= 0) by (nonlinear_arith)
            requires
                h >= 0,
                base >= 0,
                q == h as int * base as int,
        ;
        assert(p == q % t);
        assert(x == (p + byte) % t);
        vstd::arithmetic::div_mod::lemma_add_mod_noop(q, byte as int, t);
        vstd::arithmetic::div_mod::lemma_small_mod(byte as nat, t as nat);
        vstd::arithmetic::div_mod::lemma_mod_twice(q, t);
    }
    let y: u64 = x / (m + 1) + x % (m + 1);
    if y >= m {
        y - m
    } else {
        y
    }
}

/// A hash of 128 bits of the canonical form.
pub fn canonical_hash<const N: usize, const BR: usize, const BC: usize>(
    grid: &Grid<N, BR, BC>,
) -> (r: u128)
    requires
        grid.wf(),
    ensures
        r == hash_of(canonical(byte_ints(grid.solved@), N as int)),
{
    let form: Vec<u8> = canonical_form(grid);
    let ghost v = byte_ints(form@);
    let mut a: u64 = SEED_A;
    let mut b: u64 = SEED_B;
    let mut i: usize = 0;
    while i < form.len()
        invariant
            v == byte_ints(form@),
            i <= form@.len(),
            a == poly_hash(v.take(i as int), SEED_A as int, BASE_A as int, MOD_A as int),
            b == poly_hash(v.take(i as int), SEED_B as int, BASE_B as int, MOD_B as int),
        decreases form@.len() - i,
    {
        proof {
            assert(v.take(i + 1).drop_last() =~= v.take(i as int));
            assert(v.take(i + 1).last() == form@[i as int]);
        }
        a = next_hash(a, form[i], BASE_A, MOD_A);
        b = next_hash(b, form[i], BASE_B, MOD_B);
        i += 1;
    }
    assert(v.take(i as int) =~= v);
    a as u128 * 0x1_0000_0000_0000_0000 + b as u128
}

/// Grids that differ in the names of the digits or are transposed have the same hash.
pub proof fn law_hash_ignores_names_and_transposition(
    flat: Seq<int>,
    f: spec_fn(int) -> int,
    n: int,
)
    requires
        n > 0,
        flat.len() == n * n,
        is_renaming(flat, f),
    ensures
        hash_of(canonical(renamed(flat, f), n)) == hash_of(canonical(flat, n)),
        hash_of(canonical(transpose(flat, n), n)) == hash_of(canonical(flat, n)),
{
    law_canonical_ignores_names(flat, f, n);
    law_canonical_ignores_transposition(flat, n);
}

} // verus!
