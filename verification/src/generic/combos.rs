//! Combinations of indices in lexicographic order.

use vstd::prelude::*;

verus! {

/// `s` is a strictly increasing sequence of indices below `pool`.
pub open spec fn is_combo(s: Seq<usize>, pool: int) -> bool {
    &&& forall|i: int| 0 <= i < s.len() ==> (#[trigger] s[i]) < pool
    &&& forall|i: int, j: int| 0 <= i < j < s.len() ==> s[i] < s[j]
}

/// `a` and `b` agree before `p` and `a` is smaller there.
pub open spec fn lex_at(a: Seq<int>, b: Seq<int>, p: int) -> bool {
    &&& 0 <= p < a.len()
    &&& p < b.len()
    &&& forall|i: int| 0 <= i < p ==> #[trigger] a[i] == b[i]
    &&& a[p] < b[p]
}

/// `a` comes before `b` in lexicographic order.
pub open spec fn lex_lt(a: Seq<int>, b: Seq<int>) -> bool {
    exists|p: int| #[trigger] lex_at(a, b, p)
}

/// The items as integers.
pub open spec fn ints(s: Seq<usize>) -> Seq<int> {
    Seq::new(s.len(), |i: int| s[i] as int)
}

/// Of two different sequences of the same length one comes first.
pub proof fn lemma_lex_total(a: Seq<int>, b: Seq<int>)
    requires
        a.len() == b.len(),
        a != b,
    ensures
        lex_lt(a, b) || lex_lt(b, a),
    decreases a.len(),
{
    let p = lemma_first_difference(a, b, 0);
    if a[p] < b[p] {
        assert(lex_at(a, b, p));
    } else {
        assert(lex_at(b, a, p));
    }
}

proof fn lemma_first_difference(a: Seq<int>, b: Seq<int>, from: int) -> (p: int)
    requires
        a.len() == b.len(),
        a != b,
        0 <= from <= a.len(),
        forall|i: int| 0 <= i < from ==> #[trigger] a[i] == b[i],
    ensures
        0 <= p < a.len(),
        a[p] != b[p],
        forall|i: int| 0 <= i < p ==> #[trigger] a[i] == b[i],
    decreases a.len() - from,
{
    if from == a.len() {
        assert(a =~= b);
        0
    } else if a[from] != b[from] {
        from
    } else {
        lemma_first_difference(a, b, from + 1)
    }
}

/// The order is transitive and no sequence comes before itself.
pub proof fn lemma_lex_transitive(a: Seq<int>, b: Seq<int>, c: Seq<int>)
    requires
        lex_lt(a, b),
        lex_lt(b, c),
    ensures
        lex_lt(a, c),
{
    let p = choose|p: int| #[trigger] lex_at(a, b, p);
    let q = choose|q: int| #[trigger] lex_at(b, c, q);
    let r = if p <= q {
        p
    } else {
        q
    };
    assert forall|i: int| 0 <= i < r implies #[trigger] a[i] == c[i] by {
        assert(a[i] == b[i]);
        assert(b[i] == c[i]);
    }
    assert(lex_at(a, c, r));
}

pub proof fn lemma_lex_irreflexive(a: Seq<int>)
    ensures
        !lex_lt(a, a),
{
}

/// An item of a combination leaves room for those after it.
proof fn lemma_combo_room(s: Seq<usize>, pool: int, i: int)
    requires
        is_combo(s, pool),
        0 <= i < s.len(),
    ensures
        s[i] <= pool - (s.len() - i),
    decreases s.len() - i,
{
    if i + 1 < s.len() {
        lemma_combo_room(s, pool, i + 1);
        assert(s[i] < s[i + 1]);
    }
}

proof fn lemma_combo_gap(s: Seq<usize>, pool: int, i: int, j: int)
    requires
        is_combo(s, pool),
        0 <= i <= j < s.len(),
    ensures
        s[j] - s[i] >= j - i,
    decreases j - i,
{
    if i < j {
        lemma_combo_gap(s, pool, i, j - 1);
        assert(s[j - 1] < s[j]);
    }
}

/// Moves `idx` on to the next combination below `pool`. `false`, with `idx` unchanged,
/// if it is the last one.
pub fn next_combination(idx: &mut Vec<usize>, pool: usize) -> (r: bool)
    requires
        is_combo(old(idx)@, pool as int),
        old(idx)@.len() <= pool,
    ensures
        is_combo(final(idx)@, pool as int),
        final(idx)@.len() == old(idx)@.len(),
        r ==> lex_lt(ints(old(idx)@), ints(final(idx)@)),
        r ==> forall|x: Seq<usize>|
            is_combo(x, pool as int) && x.len() == old(idx)@.len() && #[trigger] lex_lt(
                ints(old(idx)@),
                ints(x),
            ) ==> x == final(idx)@ || lex_lt(ints(final(idx)@), ints(x)),
        !r ==> final(idx)@ == old(idx)@,
        !r ==> forall|x: Seq<usize>|
            is_combo(x, pool as int) && x.len() == old(idx)@.len() ==> !#[trigger] lex_lt(
                ints(old(idx)@),
                ints(x),
            ),
{
    let n: usize = idx.len();
    let ghost s0 = idx@;
    let mut i: usize = n;
    while i > 0
        invariant
            i <= n,
            n == idx@.len(),
            n <= pool,
            idx@ == s0,
            is_combo(s0, pool as int),
            s0 == old(idx)@,
            forall|q: int| i <= q < n ==> (#[trigger] s0[q]) == pool - (n - q),
        decreases i,
    {
        i -= 1;
        if idx[i] < pool - (n - i) {
            let base: usize = idx[i];
            idx.set(i, base + 1);
            let mut j: usize = i + 1;
            while j < n
                invariant
                    i < j <= n,
                    n == idx@.len(),
                    n == s0.len(),
                    n <= pool,
                    is_combo(s0, pool as int),
                    base == s0[i as int],
                    base < pool - (n - i),
                    forall|q: int| 0 <= q < i ==> (#[trigger] idx@[q]) == s0[q],
                    forall|q: int| i <= q < j ==> (#[trigger] idx@[q]) == base + 1 + (q - i),
                decreases n - j,
            {
                let prev: usize = idx[j - 1];
                idx.set(j, prev + 1);
                j += 1;
            }
            proof {
                let t = idx@;
                assert forall|k: int| 0 <= k < t.len() implies (#[trigger] t[k]) < pool by {
                    if k < i {
                        assert(t[k] == s0[k]);
                    }
                }
                assert forall|k: int, l: int| 0 <= k < l < t.len() implies t[k] < t[l] by {
                    if l < i {
                        assert(s0[k] < s0[l]);
                    } else if k < i {
                        assert(s0[k] < s0[i as int]);
                    }
                }
                assert(lex_at(ints(s0), ints(t), i as int));
                assert forall|x: Seq<usize>|
                    is_combo(x, pool as int) && x.len() == s0.len() && #[trigger] lex_lt(
                        ints(s0),
                        ints(x),
                    ) implies x == t || lex_lt(ints(t), ints(x)) by {
                    let p = choose|p: int| #[trigger] lex_at(ints(s0), ints(x), p);
                    lemma_combo_room(x, pool as int, p);
                    if p > i {
                        assert(s0[p] == pool - (n - p));
                        assert(ints(x)[p] > ints(s0)[p]);
                    } else if p < i {
                        assert forall|q: int| 0 <= q < p implies #[trigger] ints(t)[q] == ints(x)[q] by {
                            assert(ints(s0)[q] == ints(x)[q]);
                            assert(t[q] == s0[q]);
                        }
                        assert(t[p] == s0[p]);
                        assert(lex_at(ints(t), ints(x), p));
                    } else if x != t {
                        if lex_lt(ints(x), ints(t)) {
                            let q = choose|q: int| #[trigger] lex_at(ints(x), ints(t), q);
                            if q < i {
                                assert(ints(s0)[q] == ints(x)[q]);
                                assert(t[q] == s0[q]);
                            } else {
                                lemma_combo_gap(x, pool as int, i as int, q);
                                assert(ints(x)[i as int] > ints(s0)[i as int]);
                            }
                        } else {
                            if ints(x) == ints(t) {
                                assert forall|q: int| 0 <= q < x.len() implies x[q] == t[q] by {
                                    assert(ints(x)[q] == ints(t)[q]);
                                }
                                assert(x =~= t);
                            }
                            lemma_lex_total(ints(t), ints(x));
                        }
                    }
                }
            }
            return true;
        }
        proof {
            lemma_combo_room(s0, pool as int, i as int);
        }
    }
    proof {
        assert forall|x: Seq<usize>| is_combo(x, pool as int) && x.len() == s0.len() implies !#[trigger] lex_lt(
            ints(s0),
            ints(x),
        ) by {
            if lex_lt(ints(s0), ints(x)) {
                let p = choose|p: int| #[trigger] lex_at(ints(s0), ints(x), p);
                lemma_combo_room(x, pool as int, p);
                assert(s0[p] == pool - (n - p));
                assert(ints(x)[p] > ints(s0)[p]);
            }
        }
    }
    false
}

/// `l` lists the combinations of `size` indices below `pool` in lexicographic order.
pub open spec fn lists_combos(l: Seq<Vec<usize>>, pool: int, size: int) -> bool {
    &&& forall|k: int|
        0 <= k < l.len() ==> is_combo((#[trigger] l[k])@, pool) && l[k]@.len() == size
    &&& forall|k: int, m: int| 0 <= k < m < l.len() ==> lex_lt(ints(l[k]@), ints(l[m]@))
    &&& forall|x: Seq<usize>|
        x.len() == size && #[trigger] is_combo(x, pool) ==> exists|k: int|
            0 <= k < l.len() && (#[trigger] l[k])@ == x
}

/// All combinations of `size` indices below `pool` in lexicographic order.
pub fn combinations(pool: usize, size: usize) -> (l: Vec<Vec<usize>>)
    ensures
        lists_combos(l@, pool as int, size as int),
{
    let mut l: Vec<Vec<usize>> = Vec::new();
    if size > pool {
        proof {
            assert forall|x: Seq<usize>| x.len() == size implies !#[trigger] is_combo(
                x,
                pool as int,
            ) by {
                if is_combo(x, pool as int) {
                    lemma_combo_room(x, pool as int, 0);
                }
            }
        }
        return l;
    }
    let mut idx: Vec<usize> = Vec::new();
    let mut k: usize = 0;
    while k < size
        invariant
            k <= size,
            idx@.len() == k,
            forall|i: int| 0 <= i < k ==> (#[trigger] idx@[i]) == i,
        decreases size - k,
    {
        idx.push(k);
        k += 1;
    }
    proof {
        assert forall|x: Seq<usize>|
            x.len() == size && is_combo(x, pool as int) implies !#[trigger] lex_lt(
            ints(x),
            ints(idx@),
        ) by {
            if lex_lt(ints(x), ints(idx@)) {
                let p = choose|p: int| #[trigger] lex_at(ints(x), ints(idx@), p);
                lemma_combo_gap(x, pool as int, 0, p);
                assert(idx@[p] == p);
            }
        }
    }
    loop
        invariant_except_break
            size <= pool,
            idx@.len() == size,
            is_combo(idx@, pool as int),
            forall|k: int|
                0 <= k < l@.len() ==> is_combo((#[trigger] l@[k])@, pool as int) && l@[k]@.len()
                    == size && lex_lt(ints(l@[k]@), ints(idx@)),
            forall|k: int, m: int| 0 <= k < m < l@.len() ==> lex_lt(ints(l@[k]@), ints(l@[m]@)),
            forall|x: Seq<usize>|
                x.len() == size && is_combo(x, pool as int) && #[trigger] lex_lt(
                    ints(x),
                    ints(idx@),
                ) ==> exists|k: int| 0 <= k < l@.len() && (#[trigger] l@[k])@ == x,
        ensures
            lists_combos(l@, pool as int, size as int),
        decreases remaining(pool as int, idx@),
    {
        let ghost l0 = l@;
        let ghost s0 = idx@;
        let copy: Vec<usize> = idx.clone();
        assert(copy@ =~= s0);
        l.push(copy);
        proof {
            assert(l@[l0.len() as int]@ == s0);
        }
        let more: bool = next_combination(&mut idx, pool);
        proof {
            assert forall|x: Seq<usize>|
                x.len() == size && #[trigger] is_combo(x, pool as int) && (lex_lt(
                    ints(x),
                    ints(idx@),
                ) || !more) implies exists|k: int| 0 <= k < l@.len() && (#[trigger] l@[k])@ == x by {
                if x == s0 {
                    assert(l@[l0.len() as int]@ == x);
                } else {
                    lemma_ints_injective(x, s0);
                    lemma_lex_total(ints(x), ints(s0));
                    if lex_lt(ints(x), ints(s0)) {
                        let k = choose|k: int| 0 <= k < l0.len() && (#[trigger] l0[k])@ == x;
                        assert(l@[k]@ == x);
                    } else {
                        assert(more);
                        if x == idx@ {
                            lemma_lex_irreflexive(ints(x));
                        } else {
                            lemma_lex_transitive(ints(idx@), ints(x), ints(idx@));
                            lemma_lex_irreflexive(ints(idx@));
                        }
                    }
                }
            }
        }
        if !more {
            break;
        }
        proof {
            assert forall|k: int| 0 <= k < l@.len() implies is_combo(
                (#[trigger] l@[k])@,
                pool as int,
            ) && l@[k]@.len() == size && lex_lt(ints(l@[k]@), ints(idx@)) by {
                if k < l0.len() {
                    assert(l@[k] == l0[k]);
                    lemma_lex_transitive(ints(l0[k]@), ints(s0), ints(idx@));
                }
            }
            lemma_remaining(pool as int, s0, idx@);
        }
    }
    l
}

pub proof fn lemma_ints_injective(a: Seq<usize>, b: Seq<usize>)
    ensures
        ints(a) == ints(b) <==> a == b,
{
    if ints(a) == ints(b) {
        assert(ints(a).len() == ints(b).len());
        assert forall|i: int| 0 <= i < a.len() implies a[i] == b[i] by {
            assert(ints(a)[i] == ints(b)[i]);
        }
        assert(a =~= b);
    }
}

/// The items increase.
pub open spec fn increasing(s: Seq<int>) -> bool {
    forall|i: int, j: int| 0 <= i < j < s.len() ==> s[i] < s[j]
}

/// The items of `l` at the positions `x`.
pub open spec fn picked(l: Seq<int>, x: Seq<usize>) -> Seq<int> {
    Seq::new(x.len(), |i: int| l[x[i] as int])
}

/// An increasing sequence of items of an increasing list is picked by a combination of
/// positions.
pub proof fn lemma_positions(l: Seq<int>, b: Seq<int>) -> (x: Seq<usize>)
    requires
        increasing(l),
        increasing(b),
        l.len() <= usize::MAX,
        forall|i: int| 0 <= i < b.len() ==> l.contains(#[trigger] b[i]),
    ensures
        is_combo(x, l.len() as int),
        x.len() == b.len(),
        picked(l, x) == b,
{
    let x = Seq::new(b.len(), |i: int| l.index_of(b[i]) as usize);
    assert forall|i: int| 0 <= i < x.len() implies (#[trigger] x[i]) < l.len() && l[x[i] as int]
        == b[i] by {
        assert(l.contains(b[i]));
    }
    assert forall|i: int, j: int| 0 <= i < j < x.len() implies x[i] < x[j] by {
        assert(x[i] < l.len() && l[x[i] as int] == b[i]);
        assert(x[j] < l.len() && l[x[j] as int] == b[j]);
        assert(b[i] < b[j]);
        if x[j] < x[i] {
            assert(l[x[j] as int] < l[x[i] as int]);
        }
    }
    assert(picked(l, x) =~= b);
    x
}

/// What a combination picks from an increasing list increases.
pub proof fn lemma_picked(l: Seq<int>, x: Seq<usize>)
    requires
        increasing(l),
        is_combo(x, l.len() as int),
    ensures
        increasing(picked(l, x)),
        forall|i: int| 0 <= i < x.len() ==> l.contains(#[trigger] picked(l, x)[i]),
{
    let p = picked(l, x);
    assert forall|i: int| 0 <= i < x.len() implies l.contains(#[trigger] p[i]) by {
        assert(x[i] < l.len());
        assert(l[x[i] as int] == p[i]);
    }
    assert forall|i: int, j: int| 0 <= i < j < p.len() implies p[i] < p[j] by {
        assert(x[i] < x[j]);
        assert(x[j] < l.len());
        assert(l[x[i] as int] < l[x[j] as int]);
    }
}

/// The order of combinations is that of what they pick from an increasing list.
pub proof fn lemma_picked_order(l: Seq<int>, x: Seq<usize>, y: Seq<usize>)
    requires
        increasing(l),
        is_combo(x, l.len() as int),
        is_combo(y, l.len() as int),
        lex_lt(ints(x), ints(y)),
    ensures
        lex_lt(picked(l, x), picked(l, y)),
{
    let p = choose|p: int| #[trigger] lex_at(ints(x), ints(y), p);
    let a = picked(l, x);
    let b = picked(l, y);
    assert forall|i: int| 0 <= i < p implies #[trigger] a[i] == b[i] by {
        assert(ints(x)[i] == ints(y)[i]);
    }
    assert(ints(x)[p] < ints(y)[p]);
    assert(x[p] < l.len() && y[p] < l.len());
    assert(l[x[p] as int] < l[y[p] as int]);
    assert(lex_at(a, b, p));
}

/// Two lists that are ordered strictly and hold the same items are the same.
pub proof fn lemma_ordered_lists_equal<T>(a: Seq<T>, b: Seq<T>, lt: spec_fn(T, T) -> bool)
    requires
        forall|x: T| !#[trigger] lt(x, x),
        forall|x: T, y: T, z: T| #[trigger] lt(x, y) && #[trigger] lt(y, z) ==> lt(x, z),
        forall|i: int, j: int| 0 <= i < j < a.len() ==> lt(a[i], a[j]),
        forall|i: int, j: int| 0 <= i < j < b.len() ==> lt(b[i], b[j]),
        forall|x: T| a.contains(x) <==> b.contains(x),
    ensures
        a == b,
    decreases a.len(),
{
    if a.len() == 0 {
        if b.len() > 0 {
            assert(b.contains(b[0]));
            assert(a.contains(b[0]));
        }
        assert(a =~= b);
    } else {
        let m = a.len() - 1;
        assert(a.contains(a[m]));
        assert(b.contains(a[m]));
        let n = b.len() - 1;
        assert(b.contains(b[n]));
        assert(a.contains(b[n]));
        let i = choose|i: int| 0 <= i < b.len() && b[i] == a[m];
        let j = choose|j: int| 0 <= j < a.len() && a[j] == b[n];
        if i < n {
            assert(lt(b[i], b[n]));
            if j < m {
                assert(lt(a[j], a[m]));
                assert(lt(a[m], a[m]));
            }
        }
        assert(a[m] == b[n]);
        let x = a.drop_last();
        let y = b.drop_last();
        assert forall|t: T| x.contains(t) implies y.contains(t) by {
            let p = choose|p: int| 0 <= p < x.len() && x[p] == t;
            assert(a[p] == t);
            assert(a.contains(t));
            let q = choose|q: int| 0 <= q < b.len() && b[q] == t;
            if q == n {
                assert(lt(a[p], a[m]));
            }
            assert(y[q] == t);
        }
        assert forall|t: T| y.contains(t) implies x.contains(t) by {
            let q = choose|q: int| 0 <= q < y.len() && y[q] == t;
            assert(b[q] == t);
            assert(b.contains(t));
            let p = choose|p: int| 0 <= p < a.len() && a[p] == t;
            if p == m {
                assert(lt(b[q], b[n]));
            }
            assert(x[p] == t);
        }
        assert forall|t: T| x.contains(t) <==> y.contains(t) by {}
        lemma_ordered_lists_equal(x, y, lt);
        assert(a =~= x.push(a[m]));
        assert(b =~= y.push(b[n]));
    }
}

/// A measure that falls as a combination moves on: the items read as digits of a number
/// to the base `pool + 1`, counted down.
spec fn remaining(pool: int, s: Seq<usize>) -> nat
    decreases s.len(),
{
    if s.len() == 0 {
        0
    } else {
        let rest = remaining(pool, s.drop_last());
        (rest * (pool + 1) + (pool - s.last())) as nat
    }
}

proof fn lemma_remaining(pool: int, a: Seq<usize>, b: Seq<usize>)
    requires
        is_combo(a, pool),
        is_combo(b, pool),
        a.len() == b.len(),
        lex_lt(ints(a), ints(b)),
        0 <= pool,
    ensures
        remaining(pool, b) < remaining(pool, a),
    decreases a.len(),
{
    let p = choose|p: int| #[trigger] lex_at(ints(a), ints(b), p);
    let x = a.drop_last();
    let y = b.drop_last();
    let rx = remaining(pool, x);
    let ry = remaining(pool, y);
    assert(a.last() < pool && b.last() < pool) by {
        assert(a[a.len() - 1] < pool);
        assert(b[b.len() - 1] < pool);
    }
    assert(is_combo(x, pool)) by {
        assert(forall|i: int| 0 <= i < x.len() ==> x[i] == a[i]);
    }
    assert(is_combo(y, pool)) by {
        assert(forall|i: int| 0 <= i < y.len() ==> y[i] == b[i]);
    }
    assert(rx * (pool + 1) >= 0 && ry * (pool + 1) >= 0) by (nonlinear_arith)
        requires
            rx >= 0,
            ry >= 0,
            pool >= 0,
    ;
    if p == a.len() - 1 {
        assert forall|i: int| 0 <= i < x.len() implies x[i] == y[i] by {
            assert(ints(a)[i] == ints(b)[i]);
        }
        assert(x =~= y);
        assert(ints(a)[p] < ints(b)[p]);
    } else {
        assert forall|i: int| 0 <= i < p implies #[trigger] ints(x)[i] == ints(y)[i] by {
            assert(ints(a)[i] == ints(b)[i]);
        }
        assert(ints(a)[p] < ints(b)[p]);
        assert(lex_at(ints(x), ints(y), p));
        lemma_remaining(pool, x, y);
        assert(ry * (pool + 1) + (pool + 1) <= rx * (pool + 1)) by (nonlinear_arith)
            requires
                ry + 1 <= rx,
                pool >= 0,
        ;
    }
}

} // verus!
