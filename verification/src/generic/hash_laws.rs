//! What hashes of canonical forms tell apart.

use super::canonical;
use super::canonical::hash_of;
use vstd::prelude::*;

verus! {

/// The number that the bytes of `v` write to a base.
pub open spec fn number(v: Seq<int>, base: int) -> int
    decreases v.len(),
{
    if v.len() == 0 {
        0
    } else {
        number(v.drop_last(), base) * base + v.last()
    }
}

/// The items are bytes.
pub open spec fn are_bytes(v: Seq<int>) -> bool {
    forall|i: int| 0 <= i < v.len() ==> 0 <= #[trigger] v[i] <= 255
}

/// The upper half of a hash.
pub open spec fn upper(h: int) -> int {
    h / 0x1_0000_0000_0000_0000
}

/// The lower half of a hash.
pub open spec fn lower(h: int) -> int {
    h % 0x1_0000_0000_0000_0000
}

/// Folding takes away a multiple of the modulus.
proof fn lemma_fold(x: int, m: int) -> (q: int)
    requires
        0 <= x < 0x1_0000_0000_0000_0000,
        m == 0x7fff_ffff || m == 0x1fff_ffff_ffff_ffff,
    ensures
        canonical::fold_once(x, m) == x - m * q,
        0 <= canonical::fold_once(x, m),
        m == 0x7fff_ffff ==> canonical::fold_once(x, m) < 0x4_0000_0000,
        m == 0x1fff_ffff_ffff_ffff ==> canonical::fold_once(x, m) < m,
{
    let k = x / (m + 1);
    vstd::arithmetic::div_mod::lemma_fundamental_div_mod(x, m + 1);
    vstd::arithmetic::div_mod::lemma_mod_bound(x, m + 1);
    assert((m + 1) * k == m * k + k) by (nonlinear_arith);
    let y = k + x % (m + 1);
    assert(y == x - m * k);
    if m == 0x7fff_ffff {
        assert(0 <= k < 0x2_0000_0000);
    } else {
        assert(0 <= k < 8);
    }
    if y >= m {
        assert(m * (k + 1) == m * k + m) by (nonlinear_arith);
        k + 1
    } else {
        k
    }
}

/// The bounds of both halves.
proof fn lemma_halves(v: Seq<int>)
    requires
        are_bytes(v),
    ensures
        ({
            let a = canonical::poly_hash(v, 0x517cc1b727220a95, 131, 0x1fff_ffff_ffff_ffff);
            let b = canonical::poly_hash(v, 0xdeadbeefcafe1234, 137, 0x7fff_ffff);
            &&& 0 <= a < 0x1_0000_0000_0000_0000
            &&& 0 <= b < 0x1_0000_0000_0000_0000
            &&& v.len() >= 1 ==> a < 0x1fff_ffff_ffff_ffff && b < 0x4_0000_0000
            &&& upper(hash_of(v)) == a
            &&& lower(hash_of(v)) == b
        }),
{
    let a = canonical::poly_hash(v, 0x517cc1b727220a95, 131, 0x1fff_ffff_ffff_ffff);
    let b = canonical::poly_hash(v, 0xdeadbeefcafe1234, 137, 0x7fff_ffff);
    if v.len() >= 1 {
        let x = canonical::poly_hash(
            v.drop_last(),
            0x517cc1b727220a95,
            131,
            0x1fff_ffff_ffff_ffff,
        ) * 131 + v.last();
        let y = canonical::poly_hash(v.drop_last(), 0xdeadbeefcafe1234, 137, 0x7fff_ffff) * 137
            + v.last();
        vstd::arithmetic::div_mod::lemma_mod_bound(x, 0x1_0000_0000_0000_0000);
        vstd::arithmetic::div_mod::lemma_mod_bound(y, 0x1_0000_0000_0000_0000);
        let _ = lemma_fold(x % 0x1_0000_0000_0000_0000, 0x1fff_ffff_ffff_ffff);
        let _ = lemma_fold(y % 0x1_0000_0000_0000_0000, 0x7fff_ffff);
    }
    vstd::arithmetic::div_mod::lemma_fundamental_div_mod_converse(
        hash_of(v),
        0x1_0000_0000_0000_0000,
        a,
        b,
    );
}

/// All but the last of some bytes are bytes.
proof fn lemma_fewer_bytes(v: Seq<int>)
    requires
        are_bytes(v),
        v.len() >= 1,
    ensures
        are_bytes(v.drop_last()),
        0 <= v.last() <= 255,
{
    let a = v.drop_last();
    assert forall|i: int| 0 <= i < a.len() implies 0 <= #[trigger] a[i] <= 255 by {
        assert(a[i] == v[i]);
    }
    assert(v[v.len() - 1] == v.last());
}

/// The lower half of the hash of one byte.
proof fn lemma_first_byte(v: Seq<int>) -> (q: int)
    requires
        are_bytes(v),
        v.len() == 1,
    ensures
        lower(hash_of(v)) == 3097120105481878996 + v.last() - 0x7fff_ffff * q,
{
    let k = 3097120105481878996int;
    let top = 0x1_0000_0000_0000_0000int;
    let x = v.last();
    lemma_fewer_bytes(v);
    lemma_halves(v);
    assert(canonical::poly_hash(v.drop_last(), 0xdeadbeefcafe1234, 137, 0x7fff_ffff)
        == 0xdeadbeefcafe1234);
    vstd::arithmetic::div_mod::lemma_fundamental_div_mod_converse(
        0xdeadbeefcafe1234 * 137 + x,
        top,
        119,
        k + x,
    );
    lemma_fold(k + x, 0x7fff_ffff)
}

/// The lower half of a hash after one more byte.
proof fn lemma_next_byte(v: Seq<int>) -> (q: int)
    requires
        are_bytes(v),
        v.len() >= 2,
    ensures
        lower(hash_of(v)) == lower(hash_of(v.drop_last())) * 137 + v.last() - 0x7fff_ffff * q,
{
    lemma_fewer_bytes(v);
    lemma_halves(v);
    lemma_halves(v.drop_last());
    let x = lower(hash_of(v.drop_last())) * 137 + v.last();
    vstd::arithmetic::div_mod::lemma_small_mod(x as nat, 0x1_0000_0000_0000_0000);
    lemma_fold(x, 0x7fff_ffff)
}

/// The lower halves of two hashes differ by the difference of the numbers, up to a multiple of
/// the modulus.
proof fn lemma_difference(v: Seq<int>, w: Seq<int>) -> (t: int)
    requires
        are_bytes(v),
        are_bytes(w),
        v.len() == w.len(),
        v.len() >= 1,
    ensures
        lower(hash_of(v)) - lower(hash_of(w)) == number(v, 137) - number(w, 137) + 0x7fff_ffff * t,
    decreases v.len(),
{
    lemma_fewer_bytes(v);
    lemma_fewer_bytes(w);
    let (a, b) = (v.drop_last(), w.drop_last());
    if v.len() == 1 {
        let p = lemma_first_byte(v);
        let q = lemma_first_byte(w);
        assert(number(a, 137) == 0 && number(b, 137) == 0);
        q - p
    } else {
        let t = lemma_difference(a, b);
        let p = lemma_next_byte(v);
        let q = lemma_next_byte(w);
        137 * t + q - p
    }
}

/// The lower half of a hash is a polynomial of the bytes: for two forms of the same length it
/// differs by as much as the numbers that they write to the base 137, modulo two to the 31 less
/// one. Every byte counts, with its place.
pub proof fn law_lower_half_is_polynomial(v: Seq<int>, w: Seq<int>)
    requires
        are_bytes(v),
        are_bytes(w),
        v.len() == w.len(),
        v.len() >= 1,
    ensures
        (lower(hash_of(v)) - lower(hash_of(w))) % 0x7fff_ffff == (number(v, 137) - number(w, 137))
            % 0x7fff_ffff,
{
    let t = lemma_difference(v, w);
    vstd::arithmetic::div_mod::lemma_mod_multiples_vanish(
        t,
        number(v, 137) - number(w, 137),
        0x7fff_ffff,
    );
}

/// Forms with the same hash write numbers that agree modulo two to the 31 less one.
pub proof fn law_same_hash(v: Seq<int>, w: Seq<int>)
    requires
        are_bytes(v),
        are_bytes(w),
        v.len() == w.len(),
        v.len() >= 1,
        hash_of(v) == hash_of(w),
    ensures
        (number(v, 137) - number(w, 137)) % 0x7fff_ffff == 0,
{
    law_lower_half_is_polynomial(v, w);
    vstd::arithmetic::div_mod::lemma_small_mod(0, 0x7fff_ffff);
}

/// A power of the base.
spec fn power(j: nat) -> int
    decreases j,
{
    if j == 0 {
        1
    } else {
        137 * power((j - 1) as nat)
    }
}

/// Forms that differ in one byte write numbers that differ by a multiple of a power.
proof fn lemma_one_byte(v: Seq<int>, w: Seq<int>, i: int)
    requires
        v.len() == w.len(),
        0 <= i < v.len(),
        forall|j: int| 0 <= j < v.len() && j != i ==> #[trigger] v[j] == w[j],
    ensures
        number(v, 137) - number(w, 137) == (v[i] - w[i]) * power((v.len() - 1 - i) as nat),
    decreases v.len(),
{
    let (a, b) = (v.drop_last(), w.drop_last());
    if i == v.len() - 1 {
        assert(a =~= b);
    } else {
        assert forall|j: int| 0 <= j < a.len() && j != i implies #[trigger] a[j] == b[j] by {
            assert(v[j] == w[j]);
        }
        lemma_one_byte(a, b, i);
        assert(v[v.len() - 1] == w[v.len() - 1]);
        let (d, p) = (v[i] - w[i], power((a.len() - 1 - i) as nat));
        assert(a[i] == v[i] && b[i] == w[i]);
        assert(137 * (d * p) == d * (137 * p)) by (nonlinear_arith);
    }
}

/// The base can be cancelled modulo two to the 31 less one.
proof fn lemma_cancel(d: int, j: nat, t: int) -> (u: int)
    requires
        d * power(j) == 0x7fff_ffff * t,
    ensures
        d == 0x7fff_ffff * u,
    decreases j,
{
    if j == 0 {
        t
    } else {
        let x = d * power((j - 1) as nat);
        assert(d * (137 * power((j - 1) as nat)) == 137 * x) by (nonlinear_arith)
            requires
                x == d * power((j - 1) as nat),
        ;
        assert(137 * x == 0x7fff_ffff * t);
        assert(137 * 1206979860 == 1 + 0x7fff_ffff * 77);
        let u = 1206979860 * t - 77 * x;
        assert(x == 0x7fff_ffff * u);
        lemma_cancel(d, (j - 1) as nat, u)
    }
}

/// A hash tells apart forms of the same length that differ in one byte, wherever that is.
pub proof fn law_hash_tells_one_byte_apart(v: Seq<int>, w: Seq<int>, i: int)
    requires
        are_bytes(v),
        are_bytes(w),
        v.len() == w.len(),
        0 <= i < v.len(),
        v[i] != w[i],
        forall|j: int| 0 <= j < v.len() && j != i ==> #[trigger] v[j] == w[j],
    ensures
        lower(hash_of(v)) != lower(hash_of(w)),
        hash_of(v) != hash_of(w),
{
    if lower(hash_of(v)) == lower(hash_of(w)) {
        let t = lemma_difference(v, w);
        lemma_one_byte(v, w, i);
        let d = v[i] - w[i];
        assert(d * power((v.len() - 1 - i) as nat) == 0x7fff_ffff * (0 - t));
        let u = lemma_cancel(d, (v.len() - 1 - i) as nat, 0 - t);
        assert(-255 <= d <= 255);
        assert(u == 0);
    }
}

/// The halves that a hash starts from.
pub proof fn law_hash_of_nothing(v: Seq<int>)
    requires
        v.len() == 0,
    ensures
        upper(hash_of(v)) == 0x517cc1b727220a95,
        lower(hash_of(v)) == 0xdeadbeefcafe1234,
{
    lemma_halves(v);
}

/// One more byte takes the upper half of a hash to 131 times itself and the byte, in 64 bits and
/// modulo two to the 61 less one; and the lower half likewise with 137, modulo two to the 31 less
/// one.
pub proof fn law_one_more_byte(v: Seq<int>, x: int)
    requires
        are_bytes(v),
        0 <= x <= 255,
    ensures
        ({
            let top = 0x1_0000_0000_0000_0000int;
            let (h, r) = (hash_of(v), hash_of(v.push(x)));
            &&& upper(r) % 0x1fff_ffff_ffff_ffff == ((upper(h) * 131 + x) % top)
                % 0x1fff_ffff_ffff_ffff
            &&& upper(r) < 0x1fff_ffff_ffff_ffff
            &&& lower(r) % 0x7fff_ffff == ((lower(h) * 137 + x) % top) % 0x7fff_ffff
            &&& lower(r) < 0x4_0000_0000
        }),
{
    let top = 0x1_0000_0000_0000_0000int;
    let w = v.push(x);
    assert(w.drop_last() =~= v);
    assert(are_bytes(w));
    lemma_halves(v);
    lemma_halves(w);
    let (a, b) = ((upper(hash_of(v)) * 131 + x) % top, (lower(hash_of(v)) * 137 + x) % top);
    vstd::arithmetic::div_mod::lemma_mod_bound(upper(hash_of(v)) * 131 + x, top);
    vstd::arithmetic::div_mod::lemma_mod_bound(lower(hash_of(v)) * 137 + x, top);
    let p = lemma_fold(a, 0x1fff_ffff_ffff_ffff);
    let q = lemma_fold(b, 0x7fff_ffff);
    vstd::arithmetic::div_mod::lemma_mod_multiples_vanish(0 - p, a, 0x1fff_ffff_ffff_ffff);
    vstd::arithmetic::div_mod::lemma_mod_multiples_vanish(0 - q, b, 0x7fff_ffff);
}

/// Different last bytes lead to different upper halves, unless the step leaves 64 bits between
/// the two.
pub proof fn law_upper_half_tells_last_byte_apart(v: Seq<int>, x: int, y: int)
    requires
        are_bytes(v),
        0 <= x <= 255,
        0 <= y <= 255,
        x != y,
        (upper(hash_of(v)) * 131) % 0x1_0000_0000_0000_0000 + 255 < 0x1_0000_0000_0000_0000,
    ensures
        upper(hash_of(v.push(x))) != upper(hash_of(v.push(y))),
{
    let top = 0x1_0000_0000_0000_0000int;
    let m = 0x1fff_ffff_ffff_ffffint;
    let h = upper(hash_of(v)) * 131;
    let k = h % top;
    let w = h / top;
    vstd::arithmetic::div_mod::lemma_fundamental_div_mod(h, top);
    vstd::arithmetic::div_mod::lemma_mod_bound(h, top);
    assert(top * w == w * top) by (nonlinear_arith);
    assert((h + x) % top == k + x) by {
        vstd::arithmetic::div_mod::lemma_fundamental_div_mod_converse(h + x, top, w, k + x);
    }
    assert((h + y) % top == k + y) by {
        vstd::arithmetic::div_mod::lemma_fundamental_div_mod_converse(h + y, top, w, k + y);
    }
    assert(v.push(x).drop_last() =~= v && v.push(y).drop_last() =~= v);
    assert(are_bytes(v.push(x)) && are_bytes(v.push(y)));
    lemma_halves(v);
    lemma_halves(v.push(x));
    lemma_halves(v.push(y));
    let p = lemma_fold(k + x, m);
    let q = lemma_fold(k + y, m);
    if upper(hash_of(v.push(x))) == upper(hash_of(v.push(y))) {
        assert(x - y == m * (p - q)) by (nonlinear_arith)
            requires
                k + x - m * p == k + y - m * q,
        ;
        assert(p - q == 0);
    }
}

} // verus!
