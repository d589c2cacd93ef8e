//! Taking clues away from a solution.

use super::geometry;
use super::geometry::Dims;
use super::grid;
use super::grid::Grid;
use super::masks;
use super::peer_tables;
use super::peer_tables::PeerTable;
use super::search;
use super::search::count_solutions_up_to;
use super::solutions;
use std::sync::Arc;
use vstd::prelude::*;

verus! {

broadcast use masks::group_masks;

/// `s` is the only solution that holds the clues `v`.
pub open spec fn only_solution(g: Dims, v: Seq<int>, s: Seq<int>) -> bool {
    grid::completions(g, v) == set![s]
}

/// Every clue is needed: without it another solution holds the rest.
pub open spec fn every_clue_needed(g: Dims, v: Seq<int>, s: Seq<int>) -> bool {
    forall|i: int| g.is_cell(i) && #[trigger] v[i] != 0 ==> another(g, v.update(i, 0), s)
}

/// A solution other than `s` holds the clues `v`.
pub open spec fn another(g: Dims, v: Seq<int>, s: Seq<int>) -> bool {
    exists|t: Seq<int>| #[trigger] grid::completions(g, v).contains(t) && t != s
}

/// The clues `v` are among the digits of `s`.
pub open spec fn part_of(v: Seq<int>, s: Seq<int>) -> bool {
    v.len() == s.len() && forall|i: int| 0 <= i < v.len() ==> #[trigger] v[i] == 0 || v[i] == s[i]
}

/// The digits of `s` in the cells that are kept.
pub open spec fn kept(s: Seq<u8>, keep: Seq<bool>) -> Seq<int> {
    Seq::new(
        s.len(),
        |i: int|
            if keep[i] {
                s[i] as int
            } else {
                0
            },
    )
}

/// The number of cells that are kept.
pub open spec fn kept_count(keep: Seq<bool>) -> nat
    decreases keep.len(),
{
    if keep.len() == 0 {
        0
    } else {
        kept_count(keep.drop_last()) + if keep.last() {
            1nat
        } else {
            0nat
        }
    }
}

/// Fewer clues are held by more solutions.
pub proof fn lemma_fewer_clues(g: Dims, v: Seq<int>, w: Seq<int>)
    requires
        v.len() == g.cells(),
        part_of(w, v),
    ensures
        grid::completions(g, v).subset_of(grid::completions(g, w)),
{
    assert forall|s: Seq<int>| grid::completions(g, v).contains(s) implies grid::completions(
        g,
        w,
    ).contains(s) by {
        assert forall|i: int| 0 <= i < s.len() && #[trigger] w[i] != 0 implies s[i] == w[i] by {
            assert(v[i] == w[i]);
        }
    }
}

/// Clues of a solution are held by it.
pub proof fn lemma_part_held(g: Dims, v: Seq<int>, s: Seq<int>)
    requires
        solutions::is_solution(g, s),
        part_of(v, s),
    ensures
        grid::completions(g, v).contains(s),
{
    assert forall|i: int| 0 <= i < s.len() && #[trigger] v[i] != 0 implies s[i] == v[i] by {}
}

/// Either `s` is the only solution that holds the clues, or another one does.
pub proof fn lemma_only_or_another(g: Dims, v: Seq<int>, s: Seq<int>)
    requires
        grid::completions(g, v).contains(s),
    ensures
        only_solution(g, v, s) != another(g, v, s),
{
    let all = grid::completions(g, v);
    if !another(g, v, s) {
        assert forall|t: Seq<int>| all.contains(t) implies set![s].contains(t) by {}
        assert(all =~= set![s]);
    }
}

/// A grid that shows the clues of a solution has exactly one solution exactly when the
/// clues determine it.
pub proof fn lemma_unique_count<const N: usize, const BR: usize, const BC: usize>(
    x: Grid<N, BR, BC>,
    v: Seq<int>,
    s: Seq<int>,
)
    requires
        x.shows(v),
        grid::completions(Grid::<N, BR, BC>::shape(), v).contains(s),
    ensures
        x.solutions().finite(),
        x.solutions().contains(s),
        (x.solutions().len() == 1) == only_solution(Grid::<N, BR, BC>::shape(), v, s),
{
    let g = Grid::<N, BR, BC>::shape();
    let all = x.solutions();
    grid::lemma_shows_solutions(x, v);
    solutions::lemma_solutions_finite(g, x.candidates@);
    if all.len() == 1 {
        assert(all.remove(s).len() == 0);
        all.remove(s).lemma_len0_is_empty();
        assert forall|t: Seq<int>| all.contains(t) implies set![s].contains(t) by {
            if t != s {
                assert(all.remove(s).contains(t));
            }
        }
        assert(all =~= set![s]);
    }
}

/// Whether the clues `v` of a solution determine it; the grid that shows them.
pub fn trial_grid<const N: usize, const BR: usize, const BC: usize>(
    table: Arc<PeerTable>,
    v: &Vec<u8>,
    Ghost(s): Ghost<Seq<int>>,
) -> (r: (Grid<N, BR, BC>, bool))
    requires
        table.wf(Grid::<N, BR, BC>::shape()),
        v@.len() == N * N,
        solutions::is_solution(Grid::<N, BR, BC>::shape(), s),
        part_of(solutions::digits_of(v@), s),
    ensures
        r.0.shows(solutions::digits_of(v@)),
        r.0.solutions().contains(s),
        r.1 == only_solution(Grid::<N, BR, BC>::shape(), solutions::digits_of(v@), s),
        r.1 ==> r.0.solutions() == set![s],
{
    let ghost g = Grid::<N, BR, BC>::shape();
    let ghost w = solutions::digits_of(v@);
    proof {
        lemma_part_held(g, w, s);
        grid::lemma_held_clues_agree(g, w, s);
        assert forall|i: int| 0 <= i < v@.len() implies (#[trigger] v@[i]) <= N by {
            assert(w[i] == v@[i]);
            assert(g.is_digit(s[i]));
        }
    }
    let x: Grid<N, BR, BC> = match Grid::from_clues_on(table, v) {
        Some(x) => x,
        None => {
            assert(false);
            Grid::empty()
        },
    };
    proof {
        lemma_unique_count(x, w, s);
        grid::lemma_shows_solutions(x, w);
    }
    let unique: bool = count_solutions_up_to(&x, 2) == 1;
    (x, unique)
}

/// The number of cells that are kept.
pub fn count_kept(keep: &Vec<bool>) -> (r: u32)
    requires
        keep@.len() <= u32::MAX,
    ensures
        r == kept_count(keep@),
        r <= keep@.len(),
{
    let mut r: u32 = 0;
    let mut i: usize = 0;
    while i < keep.len()
        invariant
            keep@.len() <= u32::MAX,
            i <= keep@.len(),
            r == kept_count(keep@.take(i as int)),
            r <= i,
        decreases keep@.len() - i,
    {
        assert(keep@.take(i + 1).drop_last() =~= keep@.take(i as int));
        if keep[i] {
            r += 1;
        }
        i += 1;
    }
    assert(keep@.take(i as int) =~= keep@);
    r
}

/// The clues that are kept.
pub fn kept_clues(solved: &Vec<u8>, keep: &Vec<bool>) -> (v: Vec<u8>)
    requires
        keep@.len() == solved@.len(),
    ensures
        v@.len() == solved@.len(),
        solutions::digits_of(v@) == kept(solved@, keep@),
        forall|i: int| 0 <= i < v@.len() ==> #[trigger] v@[i] == 0 || v@[i] == solved@[i],
{
    let mut v: Vec<u8> = Vec::new();
    let mut i: usize = 0;
    while i < solved.len()
        invariant
            keep@.len() == solved@.len(),
            i <= solved@.len(),
            v@.len() == i,
            forall|j: int|
                0 <= j < i ==> (#[trigger] v@[j]) == if keep@[j] {
                    solved@[j]
                } else {
                    0
                },
        decreases solved@.len() - i,
    {
        v.push(
            if keep[i] {
                solved[i]
            } else {
                0
            },
        );
        i += 1;
    }
    assert(solutions::digits_of(v@) =~= kept(solved@, keep@));
    v
}

/// The grid that shows the digits of `solution` in the cells that are kept. `None` if
/// one of these cells is open, if two peers among them hold the same digit, or if a cell
/// is left without a candidate.
pub fn build_subset<const N: usize, const BR: usize, const BC: usize>(
    solution: &Grid<N, BR, BC>,
    keep: &Vec<bool>,
) -> (r: Option<Grid<N, BR, BC>>)
    requires
        solution.wf(),
        keep@.len() == N * N,
    ensures
        r is Some == ((forall|i: int|
            0 <= i < keep@.len() && #[trigger] keep@[i] ==> solution.solved@[i] != 0)
            && grid::clues_agree(Grid::<N, BR, BC>::shape(), kept(solution.solved@, keep@))),
        r matches Some(x) ==> x.shows(kept(solution.solved@, keep@)),
{
    let mut i: usize = 0;
    while i < keep.len()
        invariant
            solution.wf(),
            keep@.len() == N * N,
            i <= keep@.len(),
            forall|j: int| 0 <= j < i && #[trigger] keep@[j] ==> solution.solved@[j] != 0,
        decreases keep@.len() - i,
    {
        if keep[i] && solution.solved[i] == 0 {
            assert(keep@[i as int]);
            return None;
        }
        i += 1;
    }
    let v: Vec<u8> = kept_clues(&solution.solved, keep);
    proof {
        assert forall|j: int| 0 <= j < v@.len() implies (#[trigger] v@[j]) <= N by {
            assert(solution.solved@[j] <= N);
        }
    }
    Grid::from_clues_on(solution.table_arc(), &v)
}

/// The number of kept cells falls by one as one is given up.
pub proof fn lemma_kept_count_update(keep: Seq<bool>, i: int)
    requires
        0 <= i < keep.len(),
        keep[i],
    ensures
        kept_count(keep) == kept_count(keep.update(i, false)) + 1,
    decreases keep.len(),
{
    let t = keep.drop_last();
    if i == keep.len() - 1 {
        assert(keep.update(i, false).drop_last() =~= t);
    } else {
        lemma_kept_count_update(t, i);
        assert(keep.update(i, false).drop_last() =~= t.update(i, false));
    }
}

/// The clues of a full grid are counted by the kept cells.
pub proof fn lemma_kept_placed(solved: Seq<u8>, x: Seq<u8>, keep: Seq<bool>)
    requires
        solved.len() == keep.len(),
        x.len() == keep.len(),
        solutions::digits_of(x) == kept(solved, keep),
        forall|i: int| 0 <= i < solved.len() ==> #[trigger] solved[i] != 0,
    ensures
        solutions::placed(x) == kept_count(keep),
    decreases keep.len(),
{
    if keep.len() > 0 {
        let n = keep.len() - 1;
        assert forall|i: int| 0 <= i < n implies #[trigger] solved.drop_last()[i] != 0 by {
            assert(solved[i] != 0);
        }
        let lhs = solutions::digits_of(x.drop_last());
        let rhs = kept(solved.drop_last(), keep.drop_last());
        assert forall|i: int| 0 <= i < n implies lhs[i] == rhs[i] by {
            assert(solutions::digits_of(x)[i] == x[i]);
            assert(kept(solved, keep)[i] == if keep[i] {
                solved[i] as int
            } else {
                0
            });
            assert(lhs[i] == x[i]);
            assert(keep.drop_last()[i] == keep[i]);
            assert(rhs[i] == if keep[i] {
                solved[i] as int
            } else {
                0
            });
        }
        assert(lhs =~= rhs);
        lemma_kept_placed(solved.drop_last(), x.drop_last(), keep.drop_last());
        assert(solutions::digits_of(x)[n] == x[n]);
        assert(kept(solved, keep)[n] == if keep[n] {
            solved[n] as int
        } else {
            0
        });
        assert(solved[n] != 0);
    }
}

/// The digit of the pattern solution in row `r` and column `c`.
pub open spec fn pattern(g: Dims, r: int, c: int) -> int {
    (g.bc * (r % g.br) + r / g.br + c) % g.n + 1
}

/// Two numbers that agree after a shift modulo `n` were the same below `n`.
proof fn lemma_shift(x: int, y: int, k: int, n: int)
    requires
        0 <= x < n,
        0 <= y < n,
        (x + k) % n == (y + k) % n,
    ensures
        x == y,
{
    let a = (x + k) / n;
    let b = (y + k) / n;
    vstd::arithmetic::div_mod::lemma_fundamental_div_mod(x + k, n);
    vstd::arithmetic::div_mod::lemma_fundamental_div_mod(y + k, n);
    assert(x - y == n * (a - b)) by (nonlinear_arith)
        requires
            x + k == n * a + (x + k) % n,
            y + k == n * b + (y + k) % n,
            (x + k) % n == (y + k) % n,
    ;
    assert(a == b) by (nonlinear_arith)
        requires
            x - y == n * (a - b),
            -n < x - y < n,
            0 < n,
    ;
}

/// Every shape has a solution.
pub proof fn law_every_shape_has_a_solution(g: Dims)
    requires
        g.ok(),
    ensures
        exists|s: Seq<int>| #[trigger] solutions::is_solution(g, s),
{
    let s = Seq::new(g.cells() as nat, |i: int| pattern(g, g.row(i), g.col(i)));
    peer_tables::lemma_cells_bound(g);
    assert forall|i: int| 0 <= i < s.len() implies g.is_digit(#[trigger] s[i]) by {
        let r = g.row(i);
        let c = g.col(i);
        vstd::arithmetic::div_mod::lemma_mod_bound(g.bc * (r % g.br) + r / g.br + c, g.n);
    }
    assert forall|i: int, j: int| #[trigger] g.peer(i, j) implies s[i] != s[j] by {
        geometry::lemma_cell_parts(g, i);
        geometry::lemma_cell_parts(g, j);
        let (r1, c1) = (g.row(i), g.col(i));
        let (r2, c2) = (g.row(j), g.col(j));
        vstd::arithmetic::div_mod::lemma_mod_bound(r1, g.br);
        vstd::arithmetic::div_mod::lemma_mod_bound(r2, g.br);
        vstd::arithmetic::div_mod::lemma_fundamental_div_mod(r1, g.br);
        vstd::arithmetic::div_mod::lemma_fundamental_div_mod(r2, g.br);
        assert(g.bc * (r1 % g.br) == (r1 % g.br) * g.bc) by (nonlinear_arith);
        assert(g.bc * (r2 % g.br) == (r2 % g.br) * g.bc) by (nonlinear_arith);
        let a1 = (r1 % g.br) * g.bc + r1 / g.br;
        let a2 = (r2 % g.br) * g.bc + r2 / g.br;
        if s[i] == s[j] {
            if r1 == r2 {
                lemma_shift(c1, c2, a1, g.n);
            } else if c1 == c2 {
                geometry::lemma_compose_bound(r1 % g.br, r1 / g.br, g.br, g.bc);
                geometry::lemma_compose_bound(r2 % g.br, r2 / g.br, g.br, g.bc);
                lemma_shift(a1, a2, c1, g.n);
                geometry::lemma_div_mod_of(r1 % g.br, r1 / g.br, g.bc);
                geometry::lemma_div_mod_of(r2 % g.br, r2 / g.br, g.bc);
            } else {
                // The same box: the rows and columns start at the same place.
                let band = r1 / g.br;
                assert(band == r2 / g.br);
                let stack = c1 / g.bc;
                assert(stack == c2 / g.bc);
                vstd::arithmetic::div_mod::lemma_fundamental_div_mod(c1, g.bc);
                vstd::arithmetic::div_mod::lemma_fundamental_div_mod(c2, g.bc);
                vstd::arithmetic::div_mod::lemma_mod_bound(c1, g.bc);
                vstd::arithmetic::div_mod::lemma_mod_bound(c2, g.bc);
                let t1 = (r1 % g.br) * g.bc + c1 % g.bc;
                let t2 = (r2 % g.br) * g.bc + c2 % g.bc;
                geometry::lemma_compose_bound(r1 % g.br, c1 % g.bc, g.br, g.bc);
                geometry::lemma_compose_bound(r2 % g.br, c2 % g.bc, g.br, g.bc);
                let k = band + g.bc * stack;
                assert(a1 + c1 == t1 + k);
                assert(a2 + c2 == t2 + k);
                lemma_shift(t1, t2, k, g.n);
                geometry::lemma_div_mod_of(r1 % g.br, c1 % g.bc, g.bc);
                geometry::lemma_div_mod_of(r2 % g.br, c2 % g.bc, g.bc);
            }
        }
    }
    assert(solutions::is_solution(g, s));
}

} // verus!
