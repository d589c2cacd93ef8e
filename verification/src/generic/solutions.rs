//! What a solution of a candidate grid is, and how placements act on the set of
//! solutions.

use super::geometry;
use super::geometry::Dims;
use super::masks;
use vstd::prelude::*;
use vstd::set_lib::*;

verus! {

broadcast use masks::group_masks;

/// `s` fills the grid: every cell holds a digit and no two peers hold the same.
pub open spec fn is_solution(g: Dims, s: Seq<int>) -> bool {
    &&& s.len() == g.cells()
    &&& forall|i: int| 0 <= i < s.len() ==> g.is_digit(#[trigger] s[i])
    &&& forall|i: int, j: int| #[trigger] g.peer(i, j) ==> s[i] != s[j]
}

/// Every digit of `s` is among the candidates of its cell.
pub open spec fn fits(c: Seq<u32>, s: Seq<int>) -> bool {
    &&& c.len() == s.len()
    &&& forall|i: int| 0 <= i < s.len() ==> masks::holds(c[i], #[trigger] s[i])
}

/// The solutions that the candidates `c` leave open.
pub open spec fn solutions(g: Dims, c: Seq<u32>) -> Set<Seq<int>> {
    Set::new(|s: Seq<int>| is_solution(g, s) && fits(c, s))
}

/// The digits that are placed, `0` where a cell is open, as a sequence of `int`.
pub open spec fn digits_of(solved: Seq<u8>) -> Seq<int> {
    Seq::new(solved.len(), |i: int| solved[i] as int)
}

/// Placing `d` in `cell` fails at cell `p`: that peer would be left without a
/// candidate, or it already holds `d`.
pub open spec fn blocks(g: Dims, c: Seq<u32>, solved: Seq<u8>, cell: int, d: int, p: int) -> bool {
    g.peer(cell, p) && if solved[p] == 0 {
        c[p] & !masks::bit(d) == 0
    } else {
        c[p] == masks::bit(d)
    }
}

/// `d` can be placed in `cell`.
pub open spec fn can_assign(g: Dims, c: Seq<u32>, solved: Seq<u8>, cell: int, d: int) -> bool {
    masks::holds(c[cell], d) && forall|p: int| g.peer(cell, p) ==> !#[trigger] blocks(g, c, solved, cell, d, p)
}

/// The candidates after `d` was placed in `cell` and taken from the open peers up
/// to cell `last`.
pub open spec fn placed_until(
    g: Dims,
    c: Seq<u32>,
    solved: Seq<u8>,
    cell: int,
    d: int,
    last: int,
) -> Seq<u32> {
    Seq::new(
        c.len(),
        |j: int|
            if j == cell {
                masks::bit(d)
            } else if j <= last && g.peer(cell, j) && solved[j] == 0 {
                c[j] & !masks::bit(d)
            } else {
                c[j]
            },
    )
}

/// The candidates after `d` was placed in `cell`.
pub open spec fn assigned(g: Dims, c: Seq<u32>, solved: Seq<u8>, cell: int, d: int) -> Seq<u32> {
    placed_until(g, c, solved, cell, d, g.cells())
}

/// Lengths and ranges of a candidate grid: masks hold digits of the shape, and a
/// placed digit is the only candidate of its cell.
pub open spec fn well_formed(g: Dims, c: Seq<u32>, solved: Seq<u8>) -> bool {
    &&& g.ok()
    &&& c.len() == g.cells()
    &&& solved.len() == g.cells()
    &&& forall|i: int, d: int|
        0 <= i < c.len() && #[trigger] masks::holds(c[i], d) ==> g.is_digit(d)
    &&& forall|i: int|
        0 <= i < solved.len() ==> (#[trigger] solved[i]) <= g.n && (solved[i] != 0 ==> c[i]
            == masks::bit(solved[i] as int))
}

/// Every cell has a candidate, and no peer of a placed digit has that digit as a
/// candidate.
pub open spec fn settled(g: Dims, c: Seq<u32>, solved: Seq<u8>) -> bool {
    &&& forall|i: int| 0 <= i < c.len() ==> #[trigger] c[i] != 0
    &&& forall|i: int, j: int|
        #[trigger] g.peer(i, j) && solved[i] != 0 ==> !masks::holds(c[j], solved[i] as int)
}

/// The number of placed digits.
pub open spec fn placed(solved: Seq<u8>) -> nat
    decreases solved.len(),
{
    if solved.len() == 0 {
        0
    } else {
        placed(solved.drop_last()) + if solved.last() != 0 {
            1nat
        } else {
            0nat
        }
    }
}

pub proof fn lemma_placed_bound(solved: Seq<u8>)
    ensures
        placed(solved) <= solved.len(),
        placed(solved) == solved.len() <==> (forall|i: int|
            0 <= i < solved.len() ==> #[trigger] solved[i] != 0),
    decreases solved.len(),
{
    if solved.len() > 0 {
        let t = solved.drop_last();
        lemma_placed_bound(t);
        if forall|i: int| 0 <= i < solved.len() ==> #[trigger] solved[i] != 0 {
            assert forall|i: int| 0 <= i < t.len() implies #[trigger] t[i] != 0 by {
                assert(t[i] == solved[i]);
            }
        }
        if placed(solved) == solved.len() {
            assert forall|i: int| 0 <= i < solved.len() implies #[trigger] solved[i] != 0 by {
                if i < t.len() {
                    assert(t[i] == solved[i]);
                }
            }
        }
    }
}

pub proof fn lemma_placed_update(solved: Seq<u8>, i: int, d: u8)
    requires
        0 <= i < solved.len(),
        d != 0,
    ensures
        placed(solved.update(i, d)) == placed(solved) + if solved[i] == 0 {
            1nat
        } else {
            0nat
        },
    decreases solved.len(),
{
    let t = solved.drop_last();
    let u = solved.update(i, d);
    if i == solved.len() - 1 {
        assert(u.drop_last() =~= t);
    } else {
        lemma_placed_update(t, i, d);
        assert(u.drop_last() =~= t.update(i, d));
    }
}

/// A placement that is possible keeps exactly the solutions with that digit in
/// that cell.
pub proof fn lemma_assign_solutions(g: Dims, c: Seq<u32>, solved: Seq<u8>, cell: int, d: int)
    requires
        well_formed(g, c, solved),
        g.is_cell(cell),
        g.is_digit(d),
        masks::holds(c[cell], d),
    ensures
        solutions(g, assigned(g, c, solved, cell, d)) =~= solutions(g, c).filter(
            |s: Seq<int>| s[cell] == d,
        ),
{
    let b = assigned(g, c, solved, cell, d);
    assert forall|s: Seq<int>| solutions(g, b).contains(s) implies solutions(g, c).filter(
        |s: Seq<int>| s[cell] == d,
    ).contains(s) by {
        assert(masks::holds(b[cell], s[cell]));
        assert forall|i: int| 0 <= i < s.len() implies masks::holds(c[i], #[trigger] s[i]) by {
            assert(masks::holds(b[i], s[i]));
        }
    }
    assert forall|s: Seq<int>|
        solutions(g, c).filter(|s: Seq<int>| s[cell] == d).contains(s) implies solutions(
        g,
        b,
    ).contains(s) by {
        assert forall|i: int| 0 <= i < s.len() implies masks::holds(b[i], #[trigger] s[i]) by {
            assert(masks::holds(c[i], s[i]));
            if g.peer(cell, i) {
                assert(s[cell] != s[i]);
            }
        }
    }
}

/// A placement that is not possible has no solution.
pub proof fn lemma_blocked(g: Dims, c: Seq<u32>, solved: Seq<u8>, cell: int, d: int, s: Seq<int>)
    requires
        well_formed(g, c, solved),
        g.is_cell(cell),
        g.is_digit(d),
        !can_assign(g, c, solved, cell, d),
        solutions(g, c).contains(s),
    ensures
        s[cell] != d,
{
    assert(masks::holds(c[cell], s[cell]));
    if s[cell] == d {
        let p = choose|p: int| g.peer(cell, p) && #[trigger] blocks(g, c, solved, cell, d, p);
        assert(masks::holds(c[p], s[p]));
        assert(s[cell] != s[p]);
        if solved[p] == 0 {
            assert(masks::holds(c[p] & !masks::bit(d), s[p]));
        }
    }
}

/// Taking a candidate away that no solution uses keeps all solutions.
pub proof fn lemma_eliminate_solutions(g: Dims, c: Seq<u32>, cell: int, d: int)
    requires
        g.is_digit(d),
        g.ok(),
        0 <= cell < c.len(),
        forall|s: Seq<int>| #[trigger] solutions(g, c).contains(s) ==> s[cell] != d,
    ensures
        solutions(g, c.update(cell, c[cell] & !masks::bit(d))) =~= solutions(g, c),
{
    let b = c.update(cell, c[cell] & !masks::bit(d));
    assert forall|s: Seq<int>| solutions(g, b).contains(s) implies solutions(g, c).contains(s) by {
        assert forall|i: int| 0 <= i < s.len() implies masks::holds(c[i], #[trigger] s[i]) by {
            assert(masks::holds(b[i], s[i]));
        }
    }
    assert forall|s: Seq<int>| solutions(g, c).contains(s) implies solutions(g, b).contains(s) by {
        assert forall|i: int| 0 <= i < s.len() implies masks::holds(b[i], #[trigger] s[i]) by {
            assert(masks::holds(c[i], s[i]));
        }
    }
}

/// A placement keeps the grid well formed.
pub proof fn lemma_assign_well_formed(
    g: Dims,
    c: Seq<u32>,
    solved: Seq<u8>,
    cell: int,
    d: u8,
    last: int,
)
    requires
        well_formed(g, c, solved),
        g.is_cell(cell),
        g.is_digit(d as int),
    ensures
        well_formed(g, placed_until(g, c, solved, cell, d as int, last), solved.update(cell, d)),
{
    let b = placed_until(g, c, solved, cell, d as int, last);
    assert forall|i: int, e: int| 0 <= i < b.len() && #[trigger] masks::holds(b[i], e) implies g.is_digit(
        e,
    ) by {
        if i != cell {
            assert(masks::holds(c[i], e));
        }
    }
    assert forall|i: int| 0 <= i < solved.len() implies (#[trigger] solved.update(cell, d)[i])
        <= g.n && (solved.update(cell, d)[i] != 0 ==> b[i] == masks::bit(
        solved.update(cell, d)[i] as int,
    )) by {
        assert(solved[i] <= g.n);
    }
}

/// A possible placement keeps the grid settled.
pub proof fn lemma_assign_settled(g: Dims, c: Seq<u32>, solved: Seq<u8>, cell: int, d: u8)
    requires
        well_formed(g, c, solved),
        settled(g, c, solved),
        g.is_cell(cell),
        g.is_digit(d as int),
        can_assign(g, c, solved, cell, d as int),
    ensures
        settled(g, assigned(g, c, solved, cell, d as int), solved.update(cell, d)),
{
    let b = assigned(g, c, solved, cell, d as int);
    let t = solved.update(cell, d);
    assert forall|i: int| 0 <= i < b.len() implies #[trigger] b[i] != 0 by {
        assert(c[i] != 0);
        if i == cell {
            assert(masks::holds(b[i], d as int));
        } else if g.peer(cell, i) {
            assert(!blocks(g, c, solved, cell, d as int, i));
        }
    }
    assert forall|i: int, j: int| #[trigger] g.peer(i, j) && t[i] != 0 implies !masks::holds(
        b[j],
        t[i] as int,
    ) by {
        assert(g.peer(j, i));
        if i == cell {
            if solved[j] != 0 {
                assert(!blocks(g, c, solved, cell, d as int, j));
                assert(c[j] == masks::bit(solved[j] as int));
            }
        } else if j == cell {
            if t[i] == d {
                assert(solved[i] == d);
                assert(!masks::holds(c[cell], d as int));
            }
        } else {
            assert(!masks::holds(c[j], solved[i] as int));
        }
    }
}

/// As many different values as the set has members take every member.
pub proof fn lemma_pigeonhole(f: Seq<int>, s: Set<int>, d: int) -> (i: int)
    requires
        f.no_duplicates(),
        s.finite(),
        s.len() <= f.len(),
        forall|j: int| 0 <= j < f.len() ==> s.contains(#[trigger] f[j]),
        s.contains(d),
    ensures
        0 <= i < f.len(),
        f[i] == d,
{
    f.unique_seq_to_set();
    assert(f.to_set().subset_of(s)) by {
        assert forall|x: int| f.to_set().contains(x) implies s.contains(x) by {
            assert(f.contains(x));
        }
    }
    lemma_len_subset(f.to_set(), s);
    lemma_subset_equality(f.to_set(), s);
    assert(f.to_set().contains(d));
    assert(f.contains(d));
    choose|i: int| 0 <= i < f.len() && f[i] == d
}

/// In a solution every unit holds every digit.
pub proof fn lemma_unit_onto(g: Dims, s: Seq<int>, u: int, d: int) -> (k: int)
    requires
        g.ok(),
        is_solution(g, s),
        g.is_unit(u),
        g.is_digit(d),
    ensures
        0 <= k < g.n,
        g.is_cell(g.unit_cell(u, k)),
        s[g.unit_cell(u, k)] == d,
{
    let ks = set_int_range(0, g.n);
    let ds = set_int_range(1, g.n + 1);
    lemma_int_range(0, g.n);
    lemma_int_range(1, g.n + 1);
    let f = |k: int| s[g.unit_cell(u, k)];
    let img = ks.map(f);
    assert forall|k: int, l: int|
        ks.contains(k) && ks.contains(l) && #[trigger] f(k) == #[trigger] f(l) implies k == l by {
        if k != l {
            geometry::lemma_unit_peers(g, u, k, l);
        }
    }
    lemma_map_size(ks, img, f);
    assert forall|e: int| img.contains(e) implies ds.contains(e) by {
        let k = choose|k: int| ks.contains(k) && f(k) == e;
        geometry::lemma_unit_cell(g, u, k);
        assert(g.is_digit(s[g.unit_cell(u, k)]));
    }
    assert(img.subset_of(ds));
    lemma_subset_equality(img, ds);
    assert(ds.contains(d));
    let k = choose|k: int| ks.contains(k) && f(k) == d;
    geometry::lemma_unit_cell(g, u, k);
    k
}

/// A full and settled grid has its digits as its only solution.
pub proof fn lemma_full_grid(g: Dims, c: Seq<u32>, solved: Seq<u8>)
    requires
        well_formed(g, c, solved),
        settled(g, c, solved),
        forall|i: int| 0 <= i < solved.len() ==> #[trigger] solved[i] != 0,
    ensures
        is_solution(g, digits_of(solved)),
        solutions(g, c) =~= set![digits_of(solved)],
{
    let t = digits_of(solved);
    assert forall|i: int| 0 <= i < t.len() implies masks::holds(c[i], #[trigger] t[i]) by {
        assert(solved[i] != 0);
    }
    assert forall|i: int, j: int| #[trigger] g.peer(i, j) implies t[i] != t[j] by {
        assert(solved[i] != 0);
        assert(masks::holds(c[j], t[j]));
    }
    assert(solutions(g, c).contains(t));
    assert forall|s: Seq<int>| solutions(g, c).contains(s) implies s =~= t by {
        assert forall|i: int| 0 <= i < s.len() implies s[i] == t[i] by {
            assert(solved[i] != 0);
            assert(masks::holds(c[i], s[i]));
        }
    }
    assert forall|s: Seq<int>| solutions(g, c).contains(s) implies set![t].contains(s) by {
        assert(s =~= t);
    }
}

/// The sequences of length `len` over the digits `1..=n`.
pub open spec fn words(n: int, len: nat) -> Set<Seq<int>> {
    Set::new(
        |s: Seq<int>| s.len() == len && forall|i: int| 0 <= i < s.len() ==> 1 <= #[trigger] s[i] <= n,
    )
}

proof fn lemma_words_finite_upto(n: int, len: nat, top: int)
    requires
        len > 0,
        words(n, (len - 1) as nat).finite(),
        0 <= top <= n,
    ensures
        Set::new(|s: Seq<int>| words(n, len).contains(s) && s.last() <= top).finite(),
    decreases top,
{
    let a = Set::new(|s: Seq<int>| words(n, len).contains(s) && s.last() <= top);
    if top == 0 {
        assert forall|s: Seq<int>| !a.contains(s) by {
            if a.contains(s) {
                assert(1 <= s[s.len() - 1]);
            }
        }
        assert(a =~= Set::empty());
    } else {
        lemma_words_finite_upto(n, len, top - 1);
        let b = Set::new(|s: Seq<int>| words(n, len).contains(s) && s.last() <= top - 1);
        let w = words(n, (len - 1) as nat);
        let e = w.map(|s: Seq<int>| s.push(top));
        w.lemma_map_finite(|s: Seq<int>| s.push(top));
        assert forall|s: Seq<int>| a.contains(s) implies b.union(e).contains(s) by {
            if s.last() == top {
                let t = s.drop_last();
                assert forall|i: int| 0 <= i < t.len() implies 1 <= #[trigger] t[i] <= n by {
                    assert(t[i] == s[i]);
                }
                assert(w.contains(t));
                assert(t.push(top) =~= s);
            }
        }
        assert(a.subset_of(b.union(e)));
        lemma_set_subset_finite(b.union(e), a);
    }
}

pub proof fn lemma_words_finite(n: int, len: nat)
    requires
        0 <= n,
    ensures
        words(n, len).finite(),
    decreases len,
{
    if len == 0 {
        assert forall|s: Seq<int>| words(n, len).contains(s) implies s =~= Seq::<int>::empty() by {}
        assert(words(n, len) =~= set![Seq::<int>::empty()]);
    } else {
        lemma_words_finite(n, (len - 1) as nat);
        lemma_words_finite_upto(n, len, n);
        let a = Set::new(|s: Seq<int>| words(n, len).contains(s) && s.last() <= n);
        assert(words(n, len).subset_of(a)) by {
            assert forall|s: Seq<int>| words(n, len).contains(s) implies a.contains(s) by {
                assert(s[s.len() - 1] <= n);
            }
        }
        lemma_set_subset_finite(a, words(n, len));
    }
}

/// A candidate grid leaves open only finitely many solutions.
pub proof fn lemma_solutions_finite(g: Dims, c: Seq<u32>)
    requires
        g.ok(),
    ensures
        solutions(g, c).finite(),
{
    assert(g.cells() >= 0) by (nonlinear_arith)
        requires
            g.cells() == g.n * g.n,
    ;
    lemma_words_finite(g.n, g.cells() as nat);
    assert forall|s: Seq<int>| solutions(g, c).contains(s) implies words(
        g.n,
        g.cells() as nat,
    ).contains(s) by {
        assert forall|i: int| 0 <= i < s.len() implies 1 <= #[trigger] s[i] <= g.n by {
            assert(g.is_digit(s[i]));
        }
    }
    assert(solutions(g, c).subset_of(words(g.n, g.cells() as nat)));
    lemma_set_subset_finite(words(g.n, g.cells() as nat), solutions(g, c));
}

} // verus!
