use sudoku_rs_core::bitboard::{
    cell_units, iter_bits, peers_u64x2, popcount9, rcb, single_digit, units, ALL_DIGITS,
};
use sudoku_rs_core::generic::bitboard::BitSet;

#[test]
fn peers_count() {
    let p = peers_u64x2();
    for c in 0..81 {
        let cnt = p[c][0].count_ones() + p[c][1].count_ones();
        assert_eq!(cnt, 20, "cell {} peer count", c);
    }
}

#[test]
fn units_cover() {
    let u = units();
    // Each cell appears in exactly 3 units.
    for cell in 0..81u8 {
        let mut hits = 0;
        for k in 0..27 {
            if u[k].contains(&cell) {
                hits += 1;
            }
        }
        assert_eq!(hits, 3);
    }
}

#[test]
fn cells_know_their_row_column_and_box() {
    assert_eq!(rcb(0), (0, 0, 0));
    assert_eq!(rcb(40), (4, 4, 4));
    assert_eq!(rcb(80), (8, 8, 8));
    assert_eq!(rcb(17), (1, 8, 2));
    let u = units();
    let cu = cell_units();
    for cell in 0..81u8 {
        for k in cu[cell as usize] {
            assert!(u[k as usize].contains(&cell));
        }
    }
}

#[test]
fn masks_of_nine_digits() {
    assert_eq!(popcount9(ALL_DIGITS), 9);
    assert_eq!(popcount9(0b101), 2);
    assert_eq!(single_digit(0b1_0000), 5);
    assert_eq!(iter_bits(0b1_0000_0101), vec![1, 3, 9]);
    assert_eq!(iter_bits(0), Vec::<u8>::new());
}

#[test]
fn set_test_clear_popcount() {
    let mut b: BitSet<2> = BitSet::empty();
    b.set(0);
    b.set(63);
    b.set(64);
    b.set(127);
    assert!(b.test(0));
    assert!(b.test(63));
    assert!(b.test(64));
    assert!(b.test(127));
    assert!(!b.test(1));
    assert_eq!(b.popcount(), 4);
    b.clear(63);
    assert!(!b.test(63));
    assert_eq!(b.popcount(), 3);
}

#[test]
fn for_each_ascending() {
    let mut b: BitSet<3> = BitSet::empty();
    for &i in &[5usize, 17, 64, 130] {
        b.set(i);
    }
    let mut got = Vec::new();
    for i in b.for_each() {
        got.push(i);
    }
    assert_eq!(got, vec![5, 17, 64, 130]);
}

#[test]
fn sets_meet_where_they_share_a_bit() {
    let mut a: BitSet<2> = BitSet::empty();
    let mut b: BitSet<2> = BitSet::empty();
    a.set(70);
    b.set(71);
    assert!(!a.meets(&b));
    b.set(70);
    assert!(a.meets(&b));
}

#[test]
fn a_mask_of_one_digit_names_it() {
    for d in 1..=9u8 {
        assert_eq!(single_digit(1 << (d - 1)), d);
    }
    // Bits above the ninth are no digits.
    for bit in 9..16 {
        assert_eq!(single_digit(1 << bit), 0);
    }
    assert_eq!(single_digit(0), 0);
    assert_eq!(single_digit(0b11), 0);
    assert_eq!(single_digit(0x201), 0);
    assert_eq!(single_digit(u16::MAX), 0);
}
