//! Puzzles as strings of bytes, and their clues.

use vstd::prelude::*;

verus! {

/// The byte that an emptied cell gets.
pub const EMPTIED: u8 = 0x2e;

/// The number of cells.
pub const CELLS: usize = 81;

/// The byte stands for an open cell.
pub open spec fn is_open(b: u8) -> bool {
    b == 0x2e || b == 0x30
}

/// The byte is a digit from `1` to `9`.
pub open spec fn is_digit(b: u8) -> bool {
    0x31 <= b <= 0x39
}

/// Every byte is a digit from `1` to `9`.
pub open spec fn all_digits(s: Seq<u8>) -> bool {
    forall|i: int| 0 <= i < s.len() ==> is_digit(#[trigger] s[i])
}

/// Every clue is what the solution shows in its cell.
pub open spec fn agrees(p: Seq<u8>, sol: Seq<u8>) -> bool {
    &&& p.len() == sol.len()
    &&& forall|i: int| 0 <= i < p.len() && !is_open(#[trigger] p[i]) ==> p[i] == sol[i]
}

/// The number of clues.
pub open spec fn clue_total(p: Seq<u8>) -> nat
    decreases p.len(),
{
    if p.len() == 0 {
        0
    } else {
        clue_total(p.drop_last()) + if is_open(p.last()) {
            0nat
        } else {
            1nat
        }
    }
}

/// Whether a byte stands for an open cell.
pub fn shows_open(b: u8) -> (r: bool)
    ensures
        r == is_open(b),
{
    b == 0x2e || b == 0x30
}

/// Whether a byte is a digit from `1` to `9`.
pub fn shows_digit(b: u8) -> (r: bool)
    ensures
        r == is_digit(b),
{
    0x31 <= b && b <= 0x39
}

/// The number of clues.
pub fn clue_count(p: &Vec<u8>) -> (r: usize)
    ensures
        r == clue_total(p@),
        r <= p@.len(),
{
    let mut r: usize = 0;
    let mut i: usize = 0;
    while i < p.len()
        invariant
            i <= p@.len(),
            r == clue_total(p@.take(i as int)),
            r <= i,
        decreases p@.len() - i,
    {
        assert(p@.take(i + 1).drop_last() =~= p@.take(i as int));
        if !shows_open(p[i]) {
            r += 1;
        }
        i += 1;
    }
    assert(p@.take(i as int) =~= p@);
    r
}

/// There are no more clues than cells.
pub proof fn lemma_total_bound(p: Seq<u8>)
    ensures
        clue_total(p) <= p.len(),
    decreases p.len(),
{
    if p.len() > 0 {
        lemma_total_bound(p.drop_last());
    }
}

/// What one changed cell does to the number of clues.
pub proof fn lemma_changed_total(p: Seq<u8>, i: int, x: u8)
    requires
        0 <= i < p.len(),
    ensures
        clue_total(p.update(i, x)) == clue_total(p) + (if is_open(x) {
            0int
        } else {
            1int
        }) - (if is_open(p[i]) {
            0int
        } else {
            1int
        }),
    decreases p.len(),
{
    let q = p.update(i, x);
    if i < p.len() - 1 {
        lemma_changed_total(p.drop_last(), i, x);
        assert(q.drop_last() =~= p.drop_last().update(i, x));
    } else {
        assert(q.drop_last() =~= p.drop_last());
    }
}

/// Strings that are open in the same cells have as many clues.
pub proof fn lemma_same_pattern(p: Seq<u8>, q: Seq<u8>)
    requires
        p.len() == q.len(),
        forall|i: int| 0 <= i < p.len() ==> is_open(#[trigger] p[i]) == is_open(q[i]),
    ensures
        clue_total(p) == clue_total(q),
    decreases p.len(),
{
    if p.len() > 0 {
        assert(is_open(p[p.len() - 1]) == is_open(q[q.len() - 1]));
        assert forall|i: int| 0 <= i < p.drop_last().len() implies is_open(
            #[trigger] p.drop_last()[i],
        ) == is_open(q.drop_last()[i]) by {
            assert(is_open(p[i]) == is_open(q[i]));
        }
        lemma_same_pattern(p.drop_last(), q.drop_last());
    }
}

/// Where no more cells are open there are at least as many clues.
pub proof fn lemma_fewer_open(p: Seq<u8>, q: Seq<u8>)
    requires
        p.len() == q.len(),
        forall|i: int| 0 <= i < p.len() && is_open(#[trigger] q[i]) ==> is_open(p[i]),
    ensures
        clue_total(p) <= clue_total(q),
    decreases p.len(),
{
    if p.len() > 0 {
        assert(is_open(q[p.len() - 1]) ==> is_open(p[p.len() - 1]));
        assert forall|i: int|
            0 <= i < p.drop_last().len() && is_open(#[trigger] q.drop_last()[i]) implies is_open(
            p.drop_last()[i],
        ) by {
            assert(is_open(q[i]) ==> is_open(p[i]));
        }
        lemma_fewer_open(p.drop_last(), q.drop_last());
    }
}

/// The cells that are open, or those that are not, in ascending order.
pub open spec fn lists_cells(p: Seq<u8>, open: bool, v: Seq<usize>) -> bool {
    &&& forall|k: int|
        0 <= k < v.len() ==> (#[trigger] v[k]) < p.len() && is_open(p[v[k] as int]) == open
    &&& forall|k: int, l: int| 0 <= k < l < v.len() ==> v[k] < v[l]
    &&& forall|i: int| 0 <= i < p.len() && is_open(#[trigger] p[i]) == open ==> v.contains(i as usize)
    &&& v.len() == if open {
        p.len() - clue_total(p)
    } else {
        clue_total(p) as int
    }
}

/// The cells below `n` that are open, or those that are not, in ascending order.
pub open spec fn cells_below(p: Seq<u8>, open: bool, n: int) -> Seq<usize>
    decreases n,
{
    if n <= 0 {
        Seq::empty()
    } else if is_open(p[n - 1]) == open {
        cells_below(p, open, n - 1).push((n - 1) as usize)
    } else {
        cells_below(p, open, n - 1)
    }
}

/// The cells that are open, or those that are not, in ascending order.
pub fn cells_of(p: &Vec<u8>, open: bool) -> (v: Vec<usize>)
    ensures
        lists_cells(p@, open, v@),
        v@ == cells_below(p@, open, p@.len() as int),
{
    let mut v: Vec<usize> = Vec::new();
    let mut i: usize = 0;
    while i < p.len()
        invariant
            i <= p@.len(),
            v@ == cells_below(p@, open, i as int),
            forall|k: int| 0 <= k < v@.len() ==> (#[trigger] v@[k]) < i && is_open(p@[v@[k] as int]) == open,
            forall|k: int, l: int| 0 <= k < l < v@.len() ==> v@[k] < v@[l],
            forall|j: int| 0 <= j < i && is_open(#[trigger] p@[j]) == open ==> v@.contains(j as usize),
            v@.len() == if open {
                i - clue_total(p@.take(i as int))
            } else {
                clue_total(p@.take(i as int)) as int
            },
        decreases p@.len() - i,
    {
        let ghost before = v@;
        assert(p@.take(i + 1).drop_last() =~= p@.take(i as int));
        if shows_open(p[i]) == open {
            v.push(i);
        }
        proof {
            assert forall|j: int| 0 <= j < i + 1 && is_open(#[trigger] p@[j]) == open implies v@.contains(
                j as usize,
            ) by {
                if j == i {
                    assert(v@[v@.len() - 1] == i);
                } else {
                    assert(before.contains(j as usize));
                    let k = choose|k: int| 0 <= k < before.len() && before[k] == j as usize;
                    assert(v@[k] == j as usize);
                }
            }
        }
        i += 1;
    }
    assert(p@.take(i as int) =~= p@);
    v
}

/// A list of cells in another order still lists cells of the same kind, each once.
pub proof fn lemma_reordered(p: Seq<u8>, open: bool, v: Seq<usize>, w: Seq<usize>)
    requires
        lists_cells(p, open, v),
        v.to_multiset() == w.to_multiset(),
    ensures
        w.len() == v.len(),
        w.no_duplicates(),
        forall|k: int|
            0 <= k < w.len() ==> (#[trigger] w[k]) < p.len() && is_open(p[w[k] as int]) == open,
{
    assert(v.no_duplicates());
    crate::generic::rng::lemma_shuffled(v, w);
    assert forall|k: int| 0 <= k < w.len() implies (#[trigger] w[k]) < p.len() && is_open(
        p[w[k] as int],
    ) == open by {
        assert(w.contains(w[k]));
        assert(v.contains(w[k]));
        let j = choose|j: int| 0 <= j < v.len() && v[j] == w[k];
        assert(v[j] < p.len() && is_open(p[v[j] as int]) == open);
    }
}

} // verus!
