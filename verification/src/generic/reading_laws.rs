//! What characters stand for, what clues allow, and where a search goes first.

use super::geometry::Dims;
use super::grid::{cell_char, cell_value, completions};
use super::masks;
use super::search::{is_tightest, tightest};
use super::solutions;
use vstd::prelude::*;

verus! {

/// A point and a nought stand for an open cell; each value from one up is written in one way, or
/// as a letter of either case, and what is written for a value is read as that value.
pub proof fn law_characters_read(b: u8, c: u8, d: int)
    ensures
        cell_value(b) == Some(0int) <==> b == 0x2e || b == 0x30,
        cell_value(b) is Some && cell_value(b) == cell_value(c) && cell_value(b) != Some(0int)
            ==> b == c || b == c + 0x20 || c == b + 0x20,
        0x41 <= b <= 0x5a ==> cell_value(b) == cell_value((b + 0x20) as u8),
        0 <= d <= 35 ==> (cell_char(d) as int) < 0x80 && cell_value(cell_char(d) as u8) == Some(d),
        0x31 <= b <= 0x39 ==> cell_value(b) == Some(b - 0x30),
        cell_value(0x41) == Some(10int),
{
    if 0 <= d <= 35 {
        if d == 0 {
            assert('.' as u8 == 0x2e);
        } else if d <= 9 {
            assert(cell_char(d) as int == 0x30 + d);
        } else {
            assert(cell_char(d) as int == 0x41 + d - 10);
        }
    }
}

/// Without clues every filling in of the rules is a solution, and one more clue keeps just the
/// solutions that have it.
pub proof fn law_clues_pick_solutions(g: Dims, v: Seq<int>, i: int, d: int, s: Seq<int>)
    requires
        g.ok(),
        v.len() == g.cells(),
        g.is_cell(i),
        v[i] == 0,
        d != 0,
    ensures
        completions(g, Seq::new(v.len(), |j: int| 0int)).contains(s) <==> solutions::is_solution(
            g,
            s,
        ),
        completions(g, v.update(i, d)).contains(s) <==> completions(g, v).contains(s) && s[i] == d,
{
    let w = v.update(i, d);
    if completions(g, w).contains(s) {
        assert(w[i] != 0);
        assert forall|j: int| 0 <= j < s.len() && #[trigger] v[j] != 0 implies s[j] == v[j] by {
            assert(w[j] == v[j]);
        }
    }
    if completions(g, v).contains(s) && s[i] == d {
        assert forall|j: int| 0 <= j < s.len() && #[trigger] w[j] != 0 implies s[j] == w[j] by {
            if j != i {
                assert(v[j] != 0);
            }
        }
    }
}

/// Where a cell is open, the search goes on in one that is open, has as few candidates as any,
/// and fewer than every open one before it.
pub proof fn law_search_goes_where_least_is_left(c: Seq<u32>, solved: Seq<u8>, j: int)
    requires
        c.len() == solved.len(),
        0 <= j < solved.len(),
        solved[j] == 0,
    ensures
        ({
            let i = tightest(c, solved);
            &&& 0 <= i < solved.len()
            &&& solved[i] == 0
            &&& masks::digits(c[i]).len() <= masks::digits(c[j]).len()
            &&& j < i ==> masks::digits(c[i]).len() < masks::digits(c[j]).len()
        }),
{
    let i = lemma_tightest_upto(c, solved, solved.len() as int, j);
    assert(is_tightest(c, solved, i));
}

proof fn lemma_tightest_upto(c: Seq<u32>, solved: Seq<u8>, n: int, some: int) -> (i: int)
    requires
        c.len() == solved.len(),
        0 <= some < n <= solved.len(),
        solved[some] == 0,
    ensures
        0 <= i < n,
        solved[i] == 0,
        forall|j: int|
            0 <= j < n && #[trigger] solved[j] == 0 ==> {
                &&& masks::digits(c[i]).len() <= masks::digits(c[j]).len()
                &&& j < i ==> masks::digits(c[i]).len() < masks::digits(c[j]).len()
            },
    decreases n,
{
    let l = n - 1;
    if exists|k: int| 0 <= k < l && #[trigger] solved[k] == 0 {
        let k = choose|k: int| 0 <= k < l && #[trigger] solved[k] == 0;
        let i = lemma_tightest_upto(c, solved, l, k);
        if solved[l] == 0 && masks::digits(c[l]).len() < masks::digits(c[i]).len() {
            l
        } else {
            i
        }
    } else {
        l
    }
}

} // verus!
