//! Sets of small indices, stored as `W` words of 64 bits.

use vstd::prelude::*;
use vstd::set_lib::*;

verus! {

/// Bit `b` of a word.
pub open spec fn bit64(w: u64, b: int) -> bool {
    0 <= b < 64 && (w >> (b as u64)) & 1 == 1
}

/// The positions at which a word holds a one.
pub open spec fn word_bits(w: u64) -> Set<int> {
    Set::new(|b: int| bit64(w, b))
}

/// `u64::count_ones`: the number of positions at which `i` holds a one.
pub assume_specification[ u64::count_ones ](i: u64) -> (r: u32)
    ensures
        r == word_bits(i).len(),
;

/// A set of indices below `64 * W`.
#[derive(Clone, Copy, Debug)]
pub struct BitSet<const W: usize> {
    pub words: [u64; W],
}

pub broadcast proof fn lemma_bit64_or(a: u64, b: u64, i: int)
    ensures
        #[trigger] bit64(a | b, i) == (bit64(a, i) || bit64(b, i)),
{
    if 0 <= i < 64 {
        let k = i as u64;
        assert((((a | b) >> k) & 1 == 1) == ((a >> k) & 1 == 1 || (b >> k) & 1 == 1)) by (bit_vector);
    }
}

pub broadcast proof fn lemma_bit64_and(a: u64, b: u64, i: int)
    ensures
        #[trigger] bit64(a & b, i) == (bit64(a, i) && bit64(b, i)),
{
    if 0 <= i < 64 {
        let k = i as u64;
        assert((((a & b) >> k) & 1 == 1) == ((a >> k) & 1 == 1 && (b >> k) & 1 == 1)) by (bit_vector);
    }
}

pub broadcast proof fn lemma_bit64_not(a: u64, i: int)
    ensures
        #[trigger] bit64(!a, i) == (0 <= i < 64 && !bit64(a, i)),
{
    if 0 <= i < 64 {
        let k = i as u64;
        assert(((!a >> k) & 1 == 1) == ((a >> k) & 1 != 1)) by (bit_vector)
            requires
                k < 64,
        ;
    }
}

pub proof fn lemma_bit64_one(b: u64, i: int)
    requires
        b < 64,
    ensures
        bit64(1u64 << b, i) == (i == b),
{
    if 0 <= i < 64 {
        let k = i as u64;
        assert((((1u64 << b) >> k) & 1 == 1) == (k == b)) by (bit_vector)
            requires
                k < 64,
                b < 64,
        ;
    }
}

pub broadcast proof fn lemma_bit64_zero(i: int)
    ensures
        !(#[trigger] bit64(0u64, i)),
{
    if 0 <= i < 64 {
        let k = i as u64;
        assert((0u64 >> k) & 1 != 1) by (bit_vector);
    }
}

pub broadcast group group_bit64 {
    lemma_bit64_or,
    lemma_bit64_and,
    lemma_bit64_not,
    lemma_bit64_zero,
}

/// A word is zero exactly when it holds no one.
pub proof fn lemma_word_zero(w: u64)
    ensures
        (w == 0) == (forall|i: int| !bit64(w, i)),
{
    broadcast use group_bit64;

    if w != 0 {
        let k = vstd::std_specs::bits::u64_trailing_zeros(w);
        vstd::std_specs::bits::axiom_u64_trailing_zeros(w);
        assert((w >> k) & 1u64 == 1u64);
        let kk = k as u64;
        assert((w >> kk) & 1u64 == 1u64) by (bit_vector)
            requires
                kk == k,
                (w >> k) & 1u64 == 1u64,
        ;
        assert(bit64(w, k as int));
    }
}

fn word_mask(b: usize) -> (m: u64)
    requires
        b < 64,
    ensures
        forall|i: int| #[trigger] bit64(m, i) == (i == b),
{
    let k: u64 = b as u64;
    proof {
        assert forall|i: int| #[trigger] bit64(1u64 << k, i) == (i == b) by {
            lemma_bit64_one(k, i);
        }
    }
    1u64 << k
}

impl<const W: usize> BitSet<W> {
    /// Index `i` is in the set.
    pub open spec fn contains(self, i: int) -> bool {
        0 <= i < 64 * W && bit64(self.words@[i / 64], i % 64)
    }

    /// The indices in the set.
    pub open spec fn members(self) -> Set<int> {
        Set::new(|i: int| self.contains(i))
    }

    /// The set without indices.
    pub fn empty() -> (r: Self)
        ensures
            forall|i: int| !#[trigger] r.contains(i),
    {
        broadcast use group_bit64;

        BitSet { words: [0u64; W] }
    }

    /// Adds `idx`.
    pub fn set(&mut self, idx: usize)
        requires
            idx < 64 * W,
        ensures
            forall|i: int| #[trigger]
                final(self).contains(i) == (i == idx || old(self).contains(i)),
    {
        broadcast use group_bit64;

        let w: usize = idx / 64;
        let b: usize = idx % 64;
        let m: u64 = word_mask(b);
        let ghost before = self.words@;
        self.words[w] = self.words[w] | m;
        assert(self.words@ == before.update(w as int, before[w as int] | m));
    }

    /// Takes `idx` out.
    pub fn clear(&mut self, idx: usize)
        requires
            idx < 64 * W,
        ensures
            forall|i: int| #[trigger]
                final(self).contains(i) == (i != idx && old(self).contains(i)),
    {
        broadcast use group_bit64;

        let w: usize = idx / 64;
        let b: usize = idx % 64;
        let m: u64 = word_mask(b);
        let ghost before = self.words@;
        self.words[w] = self.words[w] & !m;
        assert(self.words@ == before.update(w as int, before[w as int] & !m));
    }

    /// Whether `idx` is in the set.
    pub fn test(&self, idx: usize) -> (r: bool)
        requires
            idx < 64 * W,
        ensures
            r == self.contains(idx as int),
    {
        broadcast use group_bit64;

        let m: u64 = word_mask(idx % 64);
        let x: u64 = self.words[idx / 64] & m;
        proof {
            lemma_word_zero(x);
            assert(bit64(x, idx as int % 64) == self.contains(idx as int));
        }
        x != 0
    }

    /// The number of indices in the set.
    pub fn popcount(&self) -> (r: u32)
        requires
            64 * W <= u32::MAX,
        ensures
            r == self.members().len(),
    {
        let mut c: u32 = 0;
        let mut i: usize = 0;
        assert(members_below(self.words@, 0) =~= Set::<int>::empty());
        while i < W
            invariant
                64 * W <= u32::MAX,
                i <= W,
                self.words@.len() == W,
                c == members_below(self.words@, i as int).len(),
                members_below(self.words@, i as int).finite(),
                c <= 64 * i,
            decreases W - i,
        {
            proof {
                lemma_members_step(self.words@, i as int);
            }
            c = c + self.words[i].count_ones();
            i += 1;
        }
        assert(members_below(self.words@, W as int) =~= self.members());
        c
    }

    /// The indices of the set in ascending order.
    pub fn for_each(&self) -> (v: Vec<usize>)
        requires
            64 * W <= usize::MAX,
        ensures
            forall|k: int| 0 <= k < v@.len() ==> self.contains(#[trigger] v@[k] as int),
            forall|k: int, l: int| 0 <= k < l < v@.len() ==> v@[k] < v@[l],
            forall|i: int| #[trigger] self.contains(i) ==> v@.contains(i as usize),
            v@.len() == self.members().len(),
    {
        let mut v: Vec<usize> = Vec::new();
        let mut i: usize = 0;
        while i < 64 * W
            invariant
                64 * W <= usize::MAX,
                i <= 64 * W,
                forall|k: int|
                    0 <= k < v@.len() ==> v@[k] < i && self.contains(#[trigger] v@[k] as int),
                forall|k: int, l: int| 0 <= k < l < v@.len() ==> v@[k] < v@[l],
                forall|j: int| #[trigger] self.contains(j) && j < i ==> v@.contains(j as usize),
            decreases 64 * W - i,
        {
            let ghost before = v@;
            if self.test(i) {
                v.push(i);
            }
            proof {
                assert forall|j: int| #[trigger] self.contains(j) && j < i + 1 implies v@.contains(
                    j as usize,
                ) by {
                    if j == i {
                        assert(v@[v@.len() - 1] == i);
                    } else {
                        assert(before.contains(j as usize));
                        let k = choose|k: int| 0 <= k < before.len() && before[k] == j as usize;
                        assert(v@[k] == j as usize);
                    }
                }
            }
            i += 1;
        }
        proof {
            let ints = v@.map_values(|x: usize| x as int);
            assert(ints.no_duplicates());
            ints.unique_seq_to_set();
            assert forall|x: int| ints.to_set().contains(x) == self.members().contains(x) by {
                if self.members().contains(x) {
                    let k = choose|k: int| 0 <= k < v@.len() && v@[k] == x as usize;
                    assert(ints[k] == x);
                }
                if ints.contains(x) {
                    let k = choose|k: int| 0 <= k < ints.len() && ints[k] == x;
                    assert(self.contains(v@[k] as int));
                }
            }
            assert(ints.to_set() =~= self.members());
        }
        v
    }

    /// Whether the two sets share an index.
    pub fn meets(&self, other: &Self) -> (r: bool)
        ensures
            r == exists|i: int| #[trigger] self.contains(i) && other.contains(i),
    {
        broadcast use group_bit64;

        let mut w: usize = 0;
        while w < W
            invariant
                w <= W,
                forall|i: int| #[trigger] self.contains(i) && i < 64 * w ==> !other.contains(i),
            decreases W - w,
        {
            broadcast use group_bit64;

            let x: u64 = self.words[w] & other.words[w];
            proof {
                lemma_word_zero(x);
            }
            if x != 0 {
                proof {
                    let b = choose|b: int| bit64(x, b);
                    let i = 64 * w + b;
                    assert(i / 64 == w && i % 64 == b);
                    assert(self.contains(i) && other.contains(i));
                }
                return true;
            }
            proof {
                assert forall|i: int| #[trigger] self.contains(i) && i < 64 * (w + 1) implies !other.contains(
                    i,
                ) by {
                    if i >= 64 * w {
                        assert(i / 64 == w);
                        assert(!bit64(x, i % 64));
                    }
                }
            }
            w += 1;
        }
        false
    }
}

spec fn members_below(words: Seq<u64>, upto: int) -> Set<int> {
    Set::new(|i: int| 0 <= i < 64 * upto && bit64(words[i / 64], i % 64))
}

proof fn lemma_members_step(words: Seq<u64>, w: int)
    requires
        0 <= w < words.len(),
        members_below(words, w).finite(),
    ensures
        members_below(words, w + 1).finite(),
        members_below(words, w + 1).len() == members_below(words, w).len() + word_bits(
            words[w],
        ).len(),
        word_bits(words[w]).len() <= 64,
{
    let a = members_below(words, w);
    let b = word_bits(words[w]);
    lemma_int_range(0, 64);
    assert(b.subset_of(set_int_range(0, 64)));
    lemma_len_subset(b, set_int_range(0, 64));
    let f = |i: int| 64 * w + i;
    let c = b.map(f);
    b.lemma_map_finite(f);
    assert forall|x: int, y: int| b.contains(x) && b.contains(y) && f(x) == f(y) implies x == y by {}
    lemma_map_size(b, c, f);
    let m = members_below(words, w + 1);
    assert forall|i: int| m.contains(i) implies (a + c).contains(i) by {
        if i >= 64 * w {
            assert(i / 64 == w);
            assert(b.contains(i % 64));
            assert(f(i % 64) == i);
        }
    }
    assert forall|i: int| (a + c).contains(i) implies m.contains(i) by {
        if c.contains(i) {
            let x = choose|x: int| b.contains(x) && f(x) == i;
            assert(i / 64 == w && i % 64 == x);
        }
    }
    assert(m =~= a + c);
    assert(a.disjoint(c)) by {
        assert forall|i: int| a.contains(i) implies !c.contains(i) by {
            if c.contains(i) {
                let x = choose|x: int| b.contains(x) && f(x) == i;
            }
        }
    }
    lemma_set_disjoint_lens(a, c);
}

} // verus!
