//! Puzzle strings of nine by nine cells, and puzzles next to one another.

use super::rng;
use rand_xoshiro::Xoshiro256PlusPlus;
use vstd::prelude::*;

verus! {

/// The character of an open cell.
pub const OPEN: u8 = 0x2e;

/// The byte is a digit from `1` to `9`.
pub open spec fn is_clue_byte(b: u8) -> bool {
    0x31 <= b <= 0x39
}

/// The bytes are a puzzle with `.` for the open cells.
pub open spec fn is_puzzle_text(p: Seq<u8>) -> bool {
    &&& p.len() == 81
    &&& forall|i: int| 0 <= i < 81 ==> #[trigger] p[i] == OPEN || is_clue_byte(p[i])
}

/// The bytes as characters.
pub open spec fn chars_of(p: Seq<u8>) -> Seq<char> {
    Seq::new(p.len(), |i: int| p[i] as char)
}

/// The bytes as a text.
pub fn text_of(p: &Vec<u8>) -> (r: String)
    ensures
        r@ == chars_of(p@),
{
    let mut s = String::new();
    let mut i: usize = 0;
    while i < p.len()
        invariant
            i <= p@.len(),
            s@ == chars_of(p@.take(i as int)),
        decreases p@.len() - i,
    {
        s.push(p[i] as char);
        assert(s@ =~= chars_of(p@.take(i + 1)));
        i += 1;
    }
    assert(p@.take(i as int) =~= p@);
    s
}

/// Whether two strings are the same.
pub fn same_bytes(a: &Vec<u8>, b: &Vec<u8>) -> (r: bool)
    ensures
        r == (a@ == b@),
{
    if a.len() != b.len() {
        return false;
    }
    let mut i: usize = 0;
    while i < a.len()
        invariant
            a@.len() == b@.len(),
            i <= a@.len(),
            forall|j: int| 0 <= j < i ==> a@[j] == b@[j],
        decreases a@.len() - i,
    {
        if a[i] != b[i] {
            assert(a@[i as int] != b@[i as int]);
            return false;
        }
        i += 1;
    }
    assert(a@ =~= b@);
    true
}

/// The string occurs in the list.
pub open spec fn holds_bytes(l: Seq<Vec<u8>>, x: Seq<u8>) -> bool {
    exists|i: int| 0 <= i < l.len() && (#[trigger] l[i])@ == x
}

/// Whether a string occurs in a list.
pub fn contains_bytes(l: &Vec<Vec<u8>>, x: &Vec<u8>) -> (r: bool)
    ensures
        r == holds_bytes(l@, x@),
{
    let mut i: usize = 0;
    while i < l.len()
        invariant
            i <= l@.len(),
            forall|j: int| 0 <= j < i ==> (#[trigger] l@[j])@ != x@,
        decreases l@.len() - i,
    {
        if same_bytes(&l[i], x) {
            assert(l@[i as int]@ == x@);
            return true;
        }
        i += 1;
    }
    false
}

/// The number of clues.
pub open spec fn clue_count(p: Seq<u8>) -> nat
    decreases p.len(),
{
    if p.len() == 0 {
        0
    } else {
        clue_count(p.drop_last()) + if p.last() != OPEN {
            1nat
        } else {
            0nat
        }
    }
}

/// The number of clues.
pub fn count_clues(p: &Vec<u8>) -> (r: usize)
    ensures
        r == clue_count(p@),
        r <= p@.len(),
{
    let mut r: usize = 0;
    let mut i: usize = 0;
    while i < p.len()
        invariant
            i <= p@.len(),
            r == clue_count(p@.take(i as int)),
            r <= i,
        decreases p@.len() - i,
    {
        assert(p@.take(i + 1).drop_last() =~= p@.take(i as int));
        if p[i] != OPEN {
            r += 1;
        }
        i += 1;
    }
    assert(p@.take(i as int) =~= p@);
    r
}

/// A clue that is replaced by another clue leaves their number as it is.
pub proof fn lemma_replaced_count(p: Seq<u8>, i: int, x: u8)
    requires
        0 <= i < p.len(),
        p[i] != OPEN,
        x != OPEN,
    ensures
        clue_count(p.update(i, x)) == clue_count(p),
    decreases p.len(),
{
    let q = p.update(i, x);
    if i < p.len() - 1 {
        lemma_replaced_count(p.drop_last(), i, x);
        assert(q.drop_last() =~= p.drop_last().update(i, x));
    } else {
        assert(q.drop_last() =~= p.drop_last());
    }
}

/// The cells below `n` that hold a clue, in ascending order.
pub open spec fn clues_below(p: Seq<u8>, n: int) -> Seq<usize>
    decreases n,
{
    if n <= 0 {
        Seq::empty()
    } else if p[n - 1] != OPEN {
        clues_below(p, n - 1).push((n - 1) as usize)
    } else {
        clues_below(p, n - 1)
    }
}

/// The cells of the clues in ascending order.
pub fn clue_cells(p: &Vec<u8>) -> (v: Vec<usize>)
    ensures
        v@ == clues_below(p@, p@.len() as int),
        forall|k: int|
            0 <= k < v@.len() ==> (#[trigger] v@[k]) < p@.len() && p@[v@[k] as int] != OPEN,
        forall|k: int, l: int| 0 <= k < l < v@.len() ==> v@[k] < v@[l],
        forall|i: int| 0 <= i < p@.len() && #[trigger] p@[i] != OPEN ==> v@.contains(i as usize),
        v@.len() == clue_count(p@),
{
    let mut v: Vec<usize> = Vec::new();
    let mut i: usize = 0;
    while i < p.len()
        invariant
            i <= p@.len(),
            v@ == clues_below(p@, i as int),
            forall|k: int| 0 <= k < v@.len() ==> (#[trigger] v@[k]) < i && p@[v@[k] as int] != OPEN,
            forall|k: int, l: int| 0 <= k < l < v@.len() ==> v@[k] < v@[l],
            forall|j: int| 0 <= j < i && #[trigger] p@[j] != OPEN ==> v@.contains(j as usize),
            v@.len() == clue_count(p@.take(i as int)),
        decreases p@.len() - i,
    {
        let ghost before = v@;
        assert(p@.take(i + 1).drop_last() =~= p@.take(i as int));
        if p[i] != OPEN {
            v.push(i);
        }
        proof {
            assert forall|j: int| 0 <= j < i + 1 && #[trigger] p@[j] != OPEN implies v@.contains(
                j as usize,
            ) by {
                if j == i {
                    assert(v@[v@.len() - 1] == i);
                } else {
                    assert(before.contains(j as usize));
                    let k = choose|k: int| 0 <= k < before.len() && before[k] == j as usize;
                    assert(v@[k] == j as usize);
                }
            }
        }
        i += 1;
    }
    assert(p@.take(i as int) =~= p@);
    v
}

/// The digit bytes up to `d` other than `cur`, in ascending order.
pub open spec fn others_upto(cur: u8, d: int) -> Seq<u8>
    decreases d,
{
    if d < 0x31 {
        Seq::empty()
    } else if d != cur {
        others_upto(cur, d - 1).push(d as u8)
    } else {
        others_upto(cur, d - 1)
    }
}

/// The digit bytes other than `cur`, in the order that a generator with the words `words`
/// gives them, and its words afterwards.
pub open spec fn drawn_others(cur: u8, words: Seq<u64>) -> (Seq<u8>, Seq<u64>) {
    let ds = others_upto(cur, 0x39);
    let shuffled = rng::shuffle_of(ds.len(), words);
    (rng::picked(ds, shuffled.0), shuffled.1)
}

/// The digit bytes other than `cur`, in random order.
pub(crate) fn other_digits(cur: u8, rng: &mut Xoshiro256PlusPlus) -> (v: Vec<u8>)
    ensures
        (v@, rng::state(*final(rng))) == drawn_others(cur, rng::state(*old(rng))),
        v@.len() >= 8,
        forall|k: int| 0 <= k < v@.len() ==> is_clue_byte(#[trigger] v@[k]) && v@[k] != cur,
{
    let mut v: Vec<u8> = Vec::new();
    let mut d: u8 = 0x31;
    while d <= 0x39
        invariant
            0x31 <= d <= 0x3a,
            v@ == others_upto(cur, d - 1),
            v@.len() >= d - 0x31 - if 0x31 <= cur < d {
                1int
            } else {
                0int
            },
            forall|k: int| 0 <= k < v@.len() ==> is_clue_byte(#[trigger] v@[k]) && v@[k] != cur,
        decreases 0x3a - d,
    {
        if d != cur {
            v.push(d);
        }
        d += 1;
    }
    let ghost before = v@;
    rng::shuffle(&mut v, rng);
    proof {
        rng::lemma_shuffled(before, v@);
        assert forall|k: int| 0 <= k < v@.len() implies is_clue_byte(#[trigger] v@[k]) && v@[k]
            != cur by {
            assert(v@.contains(v@[k]));
            assert(before.contains(v@[k]));
            let j = choose|j: int| 0 <= j < before.len() && before[j] == v@[k];
            assert(is_clue_byte(before[j]) && before[j] != cur);
        }
    }
    v
}

/// `q` is `p` with another digit for the clue of cell `i`.
pub open spec fn replaces(p: Seq<u8>, q: Seq<u8>, i: int) -> bool {
    &&& 0 <= i < p.len()
    &&& p[i] != OPEN
    &&& q.len() == p.len()
    &&& is_clue_byte(q[i])
    &&& q[i] != p[i]
    &&& q == p.update(i, q[i])
}

/// `q` is `p` with another digit for one clue.
pub open spec fn is_next_to(p: Seq<u8>, q: Seq<u8>) -> bool {
    exists|i: int| #[trigger] replaces(p, q, i)
}

/// `q` is `p` with other digits for the clues of the cells `i` and `j`.
pub open spec fn replaces_both(p: Seq<u8>, q: Seq<u8>, i: int, j: int) -> bool {
    &&& 0 <= i < p.len()
    &&& 0 <= j < p.len()
    &&& i != j
    &&& p[i] != OPEN
    &&& p[j] != OPEN
    &&& q.len() == p.len()
    &&& is_clue_byte(q[i])
    &&& is_clue_byte(q[j])
    &&& q[i] != p[i]
    &&& q[j] != p[j]
    &&& q == p.update(i, q[i]).update(j, q[j])
}

/// `q` is `p` with other digits for two clues.
pub open spec fn is_two_off(p: Seq<u8>, q: Seq<u8>) -> bool {
    exists|i: int, j: int| #[trigger] replaces_both(p, q, i, j)
}

/// Puzzles next to one another show their clues in the same cells.
pub proof fn law_mutations_keep_the_pattern(p: Seq<u8>, q: Seq<u8>)
    requires
        is_next_to(p, q) || is_two_off(p, q),
    ensures
        q != p,
        q.len() == p.len(),
        forall|i: int| 0 <= i < p.len() ==> (#[trigger] q[i] == OPEN <==> p[i] == OPEN),
        clue_count(q) == clue_count(p),
        is_puzzle_text(p) ==> is_puzzle_text(q),
{
    if is_next_to(p, q) {
        let i = choose|i: int| #[trigger] replaces(p, q, i);
        lemma_replaced_count(p, i, q[i]);
    } else {
        let (i, j) = choose|i: int, j: int| #[trigger] replaces_both(p, q, i, j);
        lemma_replaced_count(p, i, q[i]);
        lemma_replaced_count(p.update(i, q[i]), j, q[j]);
    }
}

/// The items differ from one another.
pub open spec fn all_differ(l: Seq<Vec<u8>>) -> bool {
    forall|i: int, j: int| 0 <= i < j < l.len() ==> (#[trigger] l[i])@ != (#[trigger] l[j])@
}

/// The contents of a list of strings.
pub open spec fn contents(l: Seq<Vec<u8>>) -> Seq<Seq<u8>> {
    Seq::new(l.len(), |i: int| l[i]@)
}

/// `l` with `q` at its end, unless it is there already.
pub open spec fn with_new(l: Seq<Seq<u8>>, q: Seq<u8>) -> Seq<Seq<u8>> {
    if l.contains(q) {
        l
    } else {
        l.push(q)
    }
}

/// What `n` rounds lead to, until there are `k` results: in each, a clue is drawn and gets
/// another digit. The results, and the words that the generator holds afterwards.
pub open spec fn rounds_1(p: Seq<u8>, k: nat, words: Seq<u64>, n: nat) -> (
    Seq<Seq<u8>>,
    Seq<u64>,
)
    decreases n,
{
    if n == 0 {
        (Seq::empty(), words)
    } else {
        let before = rounds_1(p, k, words, (n - 1) as nat);
        if before.0.len() >= k {
            before
        } else {
            let cells = clues_below(p, p.len() as int);
            let pick = rng::below_of(cells.len(), usize::BITS as nat, before.1);
            let i = cells[pick.0 as int] as int;
            let ds = drawn_others(p[i], pick.1);
            (with_new(before.0, p.update(i, ds.0[0])), ds.1)
        }
    }
}

/// Once there are enough results, nothing more happens.
proof fn lemma_rounds_1(p: Seq<u8>, k: nat, words: Seq<u64>, n: nat, m: nat)
    requires
        n <= m,
        rounds_1(p, k, words, n).0.len() >= k,
    ensures
        rounds_1(p, k, words, m) == rounds_1(p, k, words, n),
    decreases m - n,
{
    if n < m {
        lemma_rounds_1(p, k, words, n, (m - 1) as nat);
    }
}

/// A string that is appended if it is not there yet.
proof fn lemma_with_new(l: Seq<Vec<u8>>, x: Vec<u8>)
    ensures
        holds_bytes(l, x@) ==> with_new(contents(l), x@) == contents(l),
        !holds_bytes(l, x@) ==> with_new(contents(l), x@) == contents(l.push(x)),
{
    if holds_bytes(l, x@) {
        let i = choose|i: int| 0 <= i < l.len() && (#[trigger] l[i])@ == x@;
        assert(contents(l)[i] == x@);
    } else {
        if contents(l).contains(x@) {
            let i = choose|i: int| 0 <= i < l.len() && contents(l)[i] == x@;
            assert(l[i]@ == x@);
        }
        assert(contents(l.push(x)) =~= contents(l).push(x@));
    }
}

/// Up to `k` puzzles next to `p` that a generator with the words `words` leads to in ten rounds
/// for each, and its words afterwards. A puzzle without clues leads to none.
pub open spec fn drawn_1(p: Seq<u8>, k: nat, words: Seq<u64>) -> (Seq<Seq<u8>>, Seq<u64>) {
    if clue_count(p) == 0 {
        (Seq::empty(), words)
    } else {
        rounds_1(p, k, words, 10 * k)
    }
}

/// Up to `k` different puzzles next to a puzzle, drawn at random in ten rounds for each.
pub fn mutate_1(puzzle: &Vec<u8>, k: u32, rng: &mut Xoshiro256PlusPlus) -> (r: Vec<Vec<u8>>)
    ensures
        (contents(r@), rng::state(*final(rng))) == drawn_1(
            puzzle@,
            k as nat,
            rng::state(*old(rng)),
        ),
        r@.len() <= k,
        all_differ(r@),
        forall|i: int| 0 <= i < r@.len() ==> is_next_to(puzzle@, (#[trigger] r@[i])@),
{
    let mut results: Vec<Vec<u8>> = Vec::new();
    let cells: Vec<usize> = clue_cells(puzzle);
    if cells.len() == 0 {
        assert(contents(results@) =~= Seq::<Seq<u8>>::empty());
        return results;
    }
    let rounds: u64 = k as u64 * 10;
    let ghost words = rng::state(*rng);
    assert(contents(results@) =~= Seq::<Seq<u8>>::empty());
    let mut round: u64 = 0;
    while round < rounds && results.len() < k as usize
        invariant
            rounds == 10 * k,
            round <= rounds,
            words == rng::state(*old(rng)),
            cells@ == clues_below(puzzle@, puzzle@.len() as int),
            rounds_1(puzzle@, k as nat, words, round as nat) == (
                contents(results@),
                rng::state(*rng),
            ),
            0 < cells@.len(),
            forall|i: int|
                0 <= i < cells@.len() ==> (#[trigger] cells@[i]) < puzzle@.len()
                    && puzzle@[cells@[i] as int] != OPEN,
            results@.len() <= k,
            all_differ(results@),
            forall|i: int|
                0 <= i < results@.len() ==> is_next_to(puzzle@, (#[trigger] results@[i])@),
        decreases rounds - round,
    {
        round += 1;
        let pick: usize = rng::below(cells.len(), rng);
        let idx: usize = cells[pick];
        let alts: Vec<u8> = other_digits(puzzle[idx], rng);
        assert(is_clue_byte(alts@[0]) && alts@[0] != puzzle@[idx as int]);
        let mut next: Vec<u8> = puzzle.clone();
        assert(next@ =~= puzzle@);
        next.set(idx, alts[0]);
        assert(replaces(puzzle@, next@, idx as int));
        proof {
            lemma_with_new(results@, next);
        }
        if !contains_bytes(&results, &next) {
            push_new(&mut results, next);
        }
    }
    proof {
        if round < rounds {
            lemma_rounds_1(puzzle@, k as nat, words, round as nat, rounds as nat);
        }
    }
    results
}

/// Appends a string that does not occur yet.
fn push_new(l: &mut Vec<Vec<u8>>, x: Vec<u8>)
    requires
        all_differ(old(l)@),
        !holds_bytes(old(l)@, x@),
    ensures
        final(l)@ == old(l)@.push(x),
        all_differ(final(l)@),
{
    let ghost before = l@;
    l.push(x);
    assert forall|i: int, j: int| 0 <= i < j < l@.len() implies (#[trigger] l@[i])@ != (
    #[trigger] l@[j])@ by {
        assert(l@[i] == before[i]);
        if j < before.len() {
            assert(l@[j] == before[j]);
        } else {
            assert(before[i]@ != x@);
        }
    }
}

/// What `n` rounds lead to, until there are `k` results: in each, the cells of the clues are
/// shuffled and the first two get other digits. The results, the cells, and the words that the
/// generator holds afterwards.
pub open spec fn rounds_2(p: Seq<u8>, k: nat, words: Seq<u64>, n: nat) -> (
    Seq<Seq<u8>>,
    Seq<usize>,
    Seq<u64>,
)
    decreases n,
{
    if n == 0 {
        (Seq::empty(), clues_below(p, p.len() as int), words)
    } else {
        let before = rounds_2(p, k, words, (n - 1) as nat);
        if before.0.len() >= k {
            before
        } else {
            let shuffled = rng::shuffle_of(before.1.len(), before.2);
            let cells = rng::picked(before.1, shuffled.0);
            let a = drawn_others(p[cells[0] as int], shuffled.1);
            let b = drawn_others(p[cells[1] as int], a.1);
            let q = p.update(cells[0] as int, a.0[0]).update(cells[1] as int, b.0[0]);
            (with_new(before.0, q), cells, b.1)
        }
    }
}

/// Once there are enough results, nothing more happens.
proof fn lemma_rounds_2(p: Seq<u8>, k: nat, words: Seq<u64>, n: nat, m: nat)
    requires
        n <= m,
        rounds_2(p, k, words, n).0.len() >= k,
    ensures
        rounds_2(p, k, words, m) == rounds_2(p, k, words, n),
    decreases m - n,
{
    if n < m {
        lemma_rounds_2(p, k, words, n, (m - 1) as nat);
    }
}

/// Up to `k` puzzles two clues off `p` that a generator with the words `words` leads to in ten
/// rounds for each, and its words afterwards. A puzzle with less than two clues leads to none.
pub open spec fn drawn_2(p: Seq<u8>, k: nat, words: Seq<u64>) -> (Seq<Seq<u8>>, Seq<u64>) {
    if clue_count(p) < 2 {
        (Seq::empty(), words)
    } else {
        let drawn = rounds_2(p, k, words, 10 * k);
        (drawn.0, drawn.2)
    }
}

/// Up to `k` different puzzles two clues off a puzzle, drawn at random in ten rounds for each.
pub fn mutate_2(puzzle: &Vec<u8>, k: u32, rng: &mut Xoshiro256PlusPlus) -> (r: Vec<Vec<u8>>)
    ensures
        (contents(r@), rng::state(*final(rng))) == drawn_2(
            puzzle@,
            k as nat,
            rng::state(*old(rng)),
        ),
        r@.len() <= k,
        all_differ(r@),
        forall|i: int| 0 <= i < r@.len() ==> is_two_off(puzzle@, (#[trigger] r@[i])@),
{
    let mut results: Vec<Vec<u8>> = Vec::new();
    let mut cells: Vec<usize> = clue_cells(puzzle);
    if cells.len() < 2 {
        assert(contents(results@) =~= Seq::<Seq<u8>>::empty());
        return results;
    }
    let rounds: u64 = k as u64 * 10;
    let ghost words = rng::state(*rng);
    assert(contents(results@) =~= Seq::<Seq<u8>>::empty());
    let mut round: u64 = 0;
    assert(cells@.no_duplicates());
    while round < rounds && results.len() < k as usize
        invariant
            rounds == 10 * k,
            round <= rounds,
            words == rng::state(*old(rng)),
            rounds_2(puzzle@, k as nat, words, round as nat) == (
                contents(results@),
                cells@,
                rng::state(*rng),
            ),
            2 <= cells@.len(),
            cells@.no_duplicates(),
            forall|i: int|
                0 <= i < cells@.len() ==> (#[trigger] cells@[i]) < puzzle@.len()
                    && puzzle@[cells@[i] as int] != OPEN,
            results@.len() <= k,
            all_differ(results@),
            forall|i: int|
                0 <= i < results@.len() ==> is_two_off(puzzle@, (#[trigger] results@[i])@),
        decreases rounds - round,
    {
        round += 1;
        let ghost before = cells@;
        rng::shuffle(&mut cells, rng);
        proof {
            rng::lemma_shuffled(before, cells@);
            assert forall|i: int| 0 <= i < cells@.len() implies (#[trigger] cells@[i])
                < puzzle@.len() && puzzle@[cells@[i] as int] != OPEN by {
                assert(cells@.contains(cells@[i]));
                assert(before.contains(cells@[i]));
                let j = choose|j: int| 0 <= j < before.len() && before[j] == cells@[i];
                assert(before[j] < puzzle@.len() && puzzle@[before[j] as int] != OPEN);
            }
        }
        let ia: usize = cells[0];
        let ib: usize = cells[1];
        assert(cells@[0] < puzzle@.len() && cells@[1] < puzzle@.len());
        let a: Vec<u8> = other_digits(puzzle[ia], rng);
        let b: Vec<u8> = other_digits(puzzle[ib], rng);
        assert(is_clue_byte(a@[0]) && a@[0] != puzzle@[ia as int]);
        assert(is_clue_byte(b@[0]) && b@[0] != puzzle@[ib as int]);
        let mut next: Vec<u8> = puzzle.clone();
        assert(next@ =~= puzzle@);
        next.set(ia, a[0]);
        next.set(ib, b[0]);
        assert(replaces_both(puzzle@, next@, ia as int, ib as int));
        proof {
            lemma_with_new(results@, next);
        }
        if !contains_bytes(&results, &next) {
            push_new(&mut results, next);
        }
    }
    proof {
        if round < rounds {
            lemma_rounds_2(puzzle@, k as nat, words, round as nat, rounds as nat);
        }
    }
    results
}

} // verus!
