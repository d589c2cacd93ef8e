//! Digit masks: a `u32` in which bit `d - 1` stands for digit `d`.

use vstd::prelude::*;
use vstd::set_lib::*;

verus! {

/// Digit `d` is a member of the mask `m`.
pub open spec fn holds(m: u32, d: int) -> bool {
    1 <= d <= 32 && m & (1u32 << ((d - 1) as u32)) != 0
}

/// The mask that holds digit `d` alone.
pub open spec fn bit(d: int) -> u32 {
    1u32 << ((d - 1) as u32)
}

/// The mask that holds the digits `1..=n`.
pub open spec fn full(n: int) -> u32 {
    ((1u32 << (n as u32)) - 1) as u32
}

/// The digits of a mask.
pub open spec fn digits(m: u32) -> Set<int> {
    Set::new(|d: int| holds(m, d))
}

/// `u32::count_ones`: the number of positions at which `i` holds a one, which
/// is the number of digits in the mask `i`.
pub assume_specification[ u32::count_ones ](i: u32) -> (r: u32)
    ensures
        r == digits(i).len(),
;

pub broadcast proof fn lemma_holds_and(a: u32, b: u32, d: int)
    ensures
        #[trigger] holds(a & b, d) == (holds(a, d) && holds(b, d)),
{
    if 1 <= d <= 32 {
        let k = (d - 1) as u32;
        assert(((a & b) & (1u32 << k) != 0) == (a & (1u32 << k) != 0 && b & (1u32 << k) != 0))
            by (bit_vector)
            requires
                k < 32,
        ;
    }
}

pub broadcast proof fn lemma_holds_or(a: u32, b: u32, d: int)
    ensures
        #[trigger] holds(a | b, d) == (holds(a, d) || holds(b, d)),
{
    if 1 <= d <= 32 {
        let k = (d - 1) as u32;
        assert(((a | b) & (1u32 << k) != 0) == (a & (1u32 << k) != 0 || b & (1u32 << k) != 0))
            by (bit_vector)
            requires
                k < 32,
        ;
    }
}

pub broadcast proof fn lemma_holds_not(a: u32, d: int)
    ensures
        #[trigger] holds(!a, d) == (1 <= d <= 32 && !holds(a, d)),
{
    if 1 <= d <= 32 {
        let k = (d - 1) as u32;
        assert((!a & (1u32 << k) != 0) == (a & (1u32 << k) == 0)) by (bit_vector)
            requires
                k < 32,
        ;
    }
}

pub broadcast proof fn lemma_holds_xor(a: u32, b: u32, d: int)
    ensures
        #[trigger] holds(a ^ b, d) == (holds(a, d) != holds(b, d)),
{
    if 1 <= d <= 32 {
        let k = (d - 1) as u32;
        assert(((a ^ b) & (1u32 << k) != 0) == ((a & (1u32 << k) != 0) != (b & (1u32 << k) != 0)))
            by (bit_vector)
            requires
                k < 32,
        ;
    }
}

pub broadcast proof fn lemma_holds_bit(e: int, d: int)
    requires
        1 <= e <= 32,
    ensures
        #[trigger] holds(bit(e), d) == (d == e),
{
    if 1 <= d <= 32 {
        let k = (d - 1) as u32;
        let j = (e - 1) as u32;
        assert(((1u32 << j) & (1u32 << k) != 0) == (k == j)) by (bit_vector)
            requires
                k < 32,
                j < 32,
        ;
    }
}

pub broadcast proof fn lemma_holds_zero(d: int)
    ensures
        !(#[trigger] holds(0u32, d)),
{
    if 1 <= d <= 32 {
        let k = (d - 1) as u32;
        assert(0u32 & (1u32 << k) == 0) by (bit_vector);
    }
}

pub broadcast proof fn lemma_holds_full(n: int, d: int)
    requires
        0 <= n <= 31,
    ensures
        #[trigger] holds(full(n), d) == (1 <= d <= n),
{
    let j = n as u32;
    assert(1u32 << j >= 1) by (bit_vector)
        requires
            j <= 31,
    ;
    let m = full(n);
    assert(m == ((1u32 << j) - 1) as u32);
    if 1 <= d <= 32 {
        let k = (d - 1) as u32;
        assert((m & (1u32 << k) != 0) == (k < j)) by (bit_vector)
            requires
                k < 32,
                j <= 31,
                m == ((1u32 << j) - 1) as u32,
        ;
    }
}

pub broadcast group group_masks {
    lemma_holds_and,
    lemma_holds_or,
    lemma_holds_not,
    lemma_holds_xor,
    lemma_holds_bit,
    lemma_holds_zero,
    lemma_holds_full,
}

/// A mask that is not zero has a lowest digit.
pub proof fn lemma_lowest(m: u32) -> (d: int)
    requires
        m != 0,
    ensures
        1 <= d <= 32,
        d == vstd::std_specs::bits::u32_trailing_zeros(m) + 1,
        holds(m, d),
        forall|e: int| e < d ==> !holds(m, e),
{
    let k = vstd::std_specs::bits::u32_trailing_zeros(m);
    vstd::std_specs::bits::axiom_u32_trailing_zeros(m);
    let d = k as int + 1;
    assert(m & (1u32 << k) != 0) by (bit_vector)
        requires
            (m >> k) & 1u32 == 1u32,
            k < 32,
    ;
    assert forall|e: int| e < d implies !holds(m, e) by {
        if 1 <= e {
            let j = (e - 1) as u32;
            assert((m >> j) & 1u32 == 0u32);
            assert(m & (1u32 << j) == 0) by (bit_vector)
                requires
                    j < 32,
                    (m >> j) & 1u32 == 0u32,
            ;
        }
    }
    d
}

/// Two masks with the same digits are equal.
pub proof fn lemma_mask_ext(a: u32, b: u32)
    requires
        forall|d: int| 1 <= d <= 32 ==> holds(a, d) == holds(b, d),
    ensures
        a == b,
{
    if a != b {
        assert(a ^ b != 0) by (bit_vector)
            requires
                a != b,
        ;
        let d = lemma_lowest(a ^ b);
        lemma_holds_xor(a, b, d);
    }
}

/// A mask is zero exactly when it holds no digit.
pub proof fn lemma_zero(m: u32)
    ensures
        (m == 0) == (forall|d: int| !holds(m, d)),
{
    broadcast use lemma_holds_zero;

    if m != 0 {
        let d = lemma_lowest(m);
        assert(holds(m, d));
    }
}

pub proof fn lemma_digits_finite(m: u32)
    ensures
        digits(m).finite(),
        digits(m).len() <= 32,
{
    lemma_int_range(1, 33);
    assert(digits(m).subset_of(set_int_range(1, 33)));
    lemma_len_subset(digits(m), set_int_range(1, 33));
}

/// A mask with one digit is that digit's bit.
pub proof fn lemma_single(m: u32, d: int)
    requires
        holds(m, d),
    ensures
        (digits(m).len() == 1) == (m == bit(d)),
{
    broadcast use group_masks;

    lemma_digits_finite(m);
    if digits(m).len() == 1 {
        assert forall|e: int| 1 <= e <= 32 implies holds(m, e) == holds(bit(d), e) by {
            if holds(m, e) && e != d {
                let r = digits(m).remove(d);
                assert(r.contains(e));
                assert(r.len() == 0);
                assert(r.finite());
                r.lemma_len0_is_empty();
            }
        }
        lemma_mask_ext(m, bit(d));
    }
    if m == bit(d) {
        assert(digits(m) =~= set![d]);
    }
}

/// The lowest digit of a mask that is not zero.
pub fn lowest_digit(m: u32) -> (d: u8)
    requires
        m != 0,
    ensures
        1 <= d <= 32,
        holds(m, d as int),
        forall|e: int| e < d ==> !holds(m, e),
{
    proof {
        let e = lemma_lowest(m);
    }
    m.trailing_zeros() as u8 + 1
}

/// The mask of digit `d`.
pub fn digit_bit(d: u8) -> (m: u32)
    requires
        1 <= d <= 32,
    ensures
        m == bit(d as int),
{
    1u32 << ((d - 1) as u32)
}

/// The mask of the digits `1..=n`.
pub fn full_mask(n: usize) -> (m: u32)
    requires
        n <= 31,
    ensures
        m == full(n as int),
{
    let j: u32 = n as u32;
    assert(1u32 << j >= 1) by (bit_vector)
        requires
            j <= 31,
    ;
    (1u32 << j) - 1
}

} // verus!
