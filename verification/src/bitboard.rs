//! Units and peers of the grid with nine digits, and masks of its digits.
//!
//! A unit is a row, a column or a box. There are 27 of them, every cell belongs to three, and
//! has twenty peers. Digit `d` is bit `d - 1` of a mask.

use crate::generic::bitboard::BitSet;
use crate::generic::geometry;
use crate::generic::geometry::Dims;
use crate::generic::masks;
use vstd::prelude::*;
use vstd::set_lib::*;

verus! {

broadcast use masks::group_masks;

pub const N: usize = 9;

pub const NCELLS: usize = 81;

pub const NUNITS: usize = 27;

pub const ALL_DIGITS: u16 = 0x1FF;

/// The shape of the grid.
pub open spec fn shape() -> Dims {
    Dims::of(9, 3, 3)
}

/// Row, column and box of a cell.
pub fn rcb(cell: usize) -> (r: (usize, usize, usize))
    ensures
        r.0 == shape().row(cell as int),
        r.1 == shape().col(cell as int),
        r.2 == shape().box_of(cell as int),
{
    let r: usize = cell / 9;
    let c: usize = cell % 9;
    let b: usize = (r / 3) * 3 + (c / 3);
    (r, c, b)
}

/// The cells of the units: rows, then columns, then boxes.
pub fn units() -> (r: [[u8; 9]; 27])
    ensures
        forall|u: int, k: int|
            0 <= u < 27 && 0 <= k < 9 ==> (#[trigger] r@[u]@[k]) == shape().unit_cell(u, k),
{
    let mut out: [[u8; 9]; 27] = [[0u8; 9]; 27];
    let mut u: usize = 0;
    while u < 27
        invariant
            u <= 27,
            forall|v: int, k: int|
                0 <= v < u && 0 <= k < 9 ==> (#[trigger] out@[v]@[k]) == shape().unit_cell(v, k),
        decreases 27 - u,
    {
        let ghost before = out@;
        let line: [u8; 9] = unit_cells(u);
        out[u] = line;
        proof {
            assert forall|v: int, k: int| 0 <= v < u + 1 && 0 <= k < 9 implies (
            #[trigger] out@[v]@[k]) == shape().unit_cell(v, k) by {
                if v < u {
                    assert(out@[v] == before[v]);
                }
            }
        }
        u += 1;
    }
    out
}

/// The cells of one unit.
fn unit_cells(u: usize) -> (r: [u8; 9])
    requires
        u < 27,
    ensures
        forall|k: int| 0 <= k < 9 ==> (#[trigger] r@[k]) == shape().unit_cell(u as int, k),
{
    let mut r: [u8; 9] = [0u8; 9];
    let mut k: usize = 0;
    while k < 9
        invariant
            u < 27,
            k <= 9,
            forall|j: int| 0 <= j < k ==> (#[trigger] r@[j]) == shape().unit_cell(u as int, j),
        decreases 9 - k,
    {
        let cell: usize = if u < 9 {
            u * 9 + k
        } else if u < 18 {
            k * 9 + (u - 9)
        } else {
            let b: usize = u - 18;
            ((b / 3) * 3 + k / 3) * 9 + (b % 3) * 3 + k % 3
        };
        r[k] = cell as u8;
        k += 1;
    }
    r
}

/// The units of the cells: row, column, box.
pub fn cell_units() -> (r: [[u8; 3]; 81])
    ensures
        forall|i: int|
            0 <= i < 81 ==> {
                &&& (#[trigger] r@[i])@[0] == shape().row(i)
                &&& r@[i]@[1] == 9 + shape().col(i)
                &&& r@[i]@[2] == 18 + shape().box_of(i)
            },
{
    let mut out: [[u8; 3]; 81] = [[0u8; 3]; 81];
    let mut i: usize = 0;
    while i < 81
        invariant
            i <= 81,
            forall|j: int|
                0 <= j < i ==> {
                    &&& (#[trigger] out@[j])@[0] == shape().row(j)
                    &&& out@[j]@[1] == 9 + shape().col(j)
                    &&& out@[j]@[2] == 18 + shape().box_of(j)
                },
        decreases 81 - i,
    {
        let ghost before = out@;
        let (r, c, b) = rcb(i);
        let three: [u8; 3] = [r as u8, (9 + c) as u8, (18 + b) as u8];
        out[i] = three;
        proof {
            assert forall|j: int| 0 <= j < i + 1 implies {
                &&& (#[trigger] out@[j])@[0] == shape().row(j)
                &&& out@[j]@[1] == 9 + shape().col(j)
                &&& out@[j]@[2] == 18 + shape().box_of(j)
            } by {
                if j < i {
                    assert(out@[j] == before[j]);
                }
            }
        }
        i += 1;
    }
    out
}

/// The cells of two words: bit `i` of the first stands for cell `i`, bit `i` of the second for
/// cell `64 + i`.
pub open spec fn in_words(w: [u64; 2], i: int) -> bool {
    (BitSet { words: w }).contains(i)
}

/// The peers of every cell.
pub fn peers_u64x2() -> (r: [[u64; 2]; 81])
    ensures
        forall|c: int, i: int|
            0 <= c < 81 ==> #[trigger] in_words(r@[c], i) == shape().peer(c, i),
{
    let mut out: [[u64; 2]; 81] = [[0u64; 2]; 81];
    let mut c: usize = 0;
    while c < 81
        invariant
            c <= 81,
            forall|x: int, i: int|
                0 <= x < c ==> #[trigger] in_words(out@[x], i) == shape().peer(x, i),
        decreases 81 - c,
    {
        let ghost before = out@;
        let (r, col, b) = rcb(c);
        let mut set: BitSet<2> = BitSet::empty();
        let mut i: usize = 0;
        while i < 81
            invariant
                c < 81,
                i <= 81,
                r == shape().row(c as int),
                col == shape().col(c as int),
                b == shape().box_of(c as int),
                forall|j: int| #[trigger] set.contains(j) == (j < i && shape().peer(c as int, j)),
            decreases 81 - i,
        {
            let (ri, ci, bi) = rcb(i);
            if i != c && (ri == r || ci == col || bi == b) {
                set.set(i);
            }
            i += 1;
        }
        let words: [u64; 2] = set.words;
        out[c] = words;
        proof {
            assert forall|x: int, i: int| 0 <= x < c + 1 implies #[trigger] in_words(out@[x], i)
                == shape().peer(x, i) by {
                if x < c {
                    assert(out@[x] == before[x]);
                } else {
                    assert(out@[x] == set.words);
                    assert(set.contains(i) == (i < 81 && shape().peer(x, i)));
                }
            }
        }
        c += 1;
    }
    out
}

/// The digits of a mask.
pub open spec fn digits_of(mask: u16) -> Set<int> {
    Set::new(|d: int| 1 <= d <= 9 && masks::holds(mask as u32, d))
}

/// The number of digits of a mask.
pub fn popcount9(x: u16) -> (r: u32)
    ensures
        r == digits_of(x).len(),
        r <= 9,
{
    let all: u32 = masks::full_mask(9);
    let m: u32 = x as u32 & all;
    proof {
        assert(masks::digits(m) =~= digits_of(x));
        lemma_int_range(1, 10);
        assert(digits_of(x).subset_of(set_int_range(1, 10)));
        lemma_len_subset(digits_of(x), set_int_range(1, 10));
    }
    m.count_ones()
}

/// Masks of different digits differ.
proof fn lemma_masks_differ(a: u8, b: u8)
    requires
        1 <= a <= 9,
        1 <= b <= 9,
        1u16 << ((a - 1) as u16) == 1u16 << ((b - 1) as u16),
    ensures
        a == b,
{
    let x: u16 = (a - 1) as u16;
    let y: u16 = (b - 1) as u16;
    assert(x == y) by (bit_vector)
        requires
            x < 9,
            y < 9,
            1u16 << x == 1u16 << y,
    ;
}

/// The digit from 1 to 9 whose mask this is; `0` if it is the mask of no single digit.
pub fn single_digit(mask: u16) -> (r: u8)
    ensures
        r <= 9,
        forall|d: u8|
            1 <= d <= 9 ==> (r == d <==> mask == #[trigger] (1u16 << ((d - 1) as u16))),
{
    let mut d: u8 = 1;
    while d <= 9
        invariant
            1 <= d <= 10,
            forall|e: u8| 1 <= e < d ==> mask != #[trigger] (1u16 << ((e - 1) as u16)),
        decreases 10 - d,
    {
        if mask == 1u16 << ((d - 1) as u16) {
            proof {
                assert forall|e: u8| 1 <= e <= 9 implies (d == e <==> mask == #[trigger] (1u16 << ((
                e - 1) as u16))) by {
                    if mask == 1u16 << ((e - 1) as u16) {
                        lemma_masks_differ(d, e);
                    }
                }
            }
            return d;
        }
        d += 1;
    }
    0
}

/// The digits of a mask in ascending order.
pub fn iter_bits(mask: u16) -> (v: Vec<u8>)
    ensures
        forall|k: int, l: int| 0 <= k < l < v@.len() ==> v@[k] < v@[l],
        forall|d: int| #[trigger]
            digits_of(mask).contains(d) == exists|k: int| 0 <= k < v@.len() && #[trigger] v@[k] == d,
{
    let m: u32 = mask as u32;
    let mut v: Vec<u8> = Vec::new();
    let mut d: u8 = 1;
    while d <= 9
        invariant
            m == mask as u32,
            1 <= d <= 10,
            forall|k: int| 0 <= k < v@.len() ==> (#[trigger] v@[k]) < d,
            forall|k: int, l: int| 0 <= k < l < v@.len() ==> v@[k] < v@[l],
            forall|x: int|
                (x < d && #[trigger] digits_of(mask).contains(x)) == exists|k: int|
                    0 <= k < v@.len() && #[trigger] v@[k] == x,
        decreases 10 - d,
    {
        let ghost before = v@;
        if m & masks::digit_bit(d) != 0 {
            assert(masks::holds(m, d as int));
            v.push(d);
            assert(v@[before.len() as int] == d);
        } else {
            assert(!masks::holds(m, d as int));
        }
        proof {
            assert forall|x: int| (x < d + 1 && #[trigger] digits_of(mask).contains(x))
                == exists|k: int| 0 <= k < v@.len() && #[trigger] v@[k] == x by {
                if x < d && digits_of(mask).contains(x) {
                    let k = choose|k: int| 0 <= k < before.len() && #[trigger] before[k] == x;
                    assert(v@[k] == x);
                }
                if exists|k: int| 0 <= k < v@.len() && #[trigger] v@[k] == x {
                    let k = choose|k: int| 0 <= k < v@.len() && #[trigger] v@[k] == x;
                    if k < before.len() {
                        assert(before[k] == x);
                    }
                }
            }
        }
        d += 1;
    }
    v
}

/// Every cell belongs to three units.
pub proof fn law_cell_in_three_units(i: int, u: int)
    requires
        shape().is_cell(i),
        shape().is_unit(u),
    ensures
        shape().in_unit(u, i) == (u == shape().row(i) || u == 9 + shape().col(i) || u == 18
            + shape().box_of(i)),
{
    geometry::lemma_cell_parts(shape(), i);
}

} // verus!
