//! Backtracking search: counting solutions and finding one.

use super::backtracker;
use super::backtracker::{propagate_singles, Placed};
use super::geometry::Dims;
use super::grid::Grid;
use super::masks;
use super::peer_tables;
use super::rng;
use super::solutions;
use rand_xoshiro::Xoshiro256PlusPlus;
use vstd::prelude::*;
use vstd::set_lib::*;

verus! {

broadcast use masks::group_masks;

/// `i` is the open cell with the fewest candidates, the first of several.
pub open spec fn is_tightest(c: Seq<u32>, solved: Seq<u8>, i: int) -> bool {
    &&& 0 <= i < solved.len()
    &&& solved[i] == 0
    &&& forall|j: int|
        0 <= j < solved.len() && #[trigger] solved[j] == 0 ==> {
            &&& masks::digits(c[i]).len() <= masks::digits(c[j]).len()
            &&& j < i ==> masks::digits(c[i]).len() < masks::digits(c[j]).len()
        }
}

/// The open cell with the fewest candidates, the first of several.
pub open spec fn tightest(c: Seq<u32>, solved: Seq<u8>) -> int {
    choose|i: int| is_tightest(c, solved, i)
}

/// The open cell with the fewest candidates, the first of several.
fn tightest_cell<const N: usize, const BR: usize, const BC: usize>(g: &Grid<N, BR, BC>) -> (r:
    usize)
    requires
        g.sound(),
        g.solved_count != N * N,
    ensures
        r < N * N,
        g.solved@[r as int] == 0,
        r == tightest(g.candidates@, g.solved@),
{
    let ghost sh = Grid::<N, BR, BC>::shape();
    proof {
        peer_tables::lemma_cells_bound(sh);
        solutions::lemma_placed_bound(g.solved@);
    }
    let nn: usize = N * N;
    let mut best: usize = nn;
    let mut best_len: u32 = 33;
    let mut i: usize = 0;
    while i < nn
        invariant
            g.wf(),
            nn == N * N,
            i <= nn,
            best <= nn,
            best == nn ==> best_len == 33 && forall|j: int| 0 <= j < i ==> #[trigger] g.solved@[j] != 0,
            best < nn ==> {
                &&& best < i
                &&& g.solved@[best as int] == 0
                &&& best_len == masks::digits(g.candidates@[best as int]).len()
                &&& forall|j: int|
                    0 <= j < i && #[trigger] g.solved@[j] == 0 ==> {
                        &&& best_len <= masks::digits(g.candidates@[j]).len()
                        &&& j < best ==> best_len < masks::digits(g.candidates@[j]).len()
                    }
            },
        decreases nn - i,
    {
        if g.solved[i] == 0 {
            let p: u32 = g.pop(i);
            proof {
                masks::lemma_digits_finite(g.candidates@[i as int]);
            }
            if p < best_len {
                best = i;
                best_len = p;
            }
        }
        i += 1;
    }
    proof {
        let t = tightest(g.candidates@, g.solved@);
        assert(is_tightest(g.candidates@, g.solved@, best as int));
        assert(is_tightest(g.candidates@, g.solved@, t));
    }
    best
}

/// The digits of a mask up to `d`, in ascending order.
pub open spec fn listed(m: u32, d: int) -> Seq<u8>
    decreases d,
{
    if d <= 0 {
        Seq::empty()
    } else if masks::holds(m, d) {
        listed(m, d - 1).push(d as u8)
    } else {
        listed(m, d - 1)
    }
}

/// The digits of a mask in ascending order.
pub fn digit_list(m: u32) -> (v: Vec<u8>)
    ensures
        v@ == listed(m, 32),
        forall|k: int| 0 <= k < v@.len() ==> 1 <= #[trigger] v@[k] <= 32 && masks::holds(m, v@[k] as int),
        forall|k: int, l: int| 0 <= k < l < v@.len() ==> v@[k] < v@[l],
        forall|d: int| #[trigger] masks::holds(m, d) ==> v@.contains(d as u8),
{
    let mut v: Vec<u8> = Vec::new();
    let mut d: u8 = 1;
    while d <= 32
        invariant
            1 <= d <= 33,
            v@ == listed(m, d - 1),
            forall|k: int|
                0 <= k < v@.len() ==> 1 <= #[trigger] v@[k] < d && masks::holds(m, v@[k] as int),
            forall|k: int, l: int| 0 <= k < l < v@.len() ==> v@[k] < v@[l],
            forall|e: int| #[trigger] masks::holds(m, e) && e < d ==> v@.contains(e as u8),
        decreases 33 - d,
    {
        let ghost before = v@;
        if m & masks::digit_bit(d) != 0 {
            v.push(d);
        }
        proof {
            assert forall|e: int| #[trigger] masks::holds(m, e) && e < d + 1 implies v@.contains(
                e as u8,
            ) by {
                if e == d {
                    assert(v@[v@.len() - 1] == d);
                } else {
                    assert(before.contains(e as u8));
                    let k = choose|k: int| 0 <= k < before.len() && before[k] == e as u8;
                    assert(v@[k] == e as u8);
                }
            }
        }
        d += 1;
    }
    v
}

/// The solutions of `all` whose digit in `cell` is among the first `upto` of `ds`.
spec fn covered(all: Set<Seq<int>>, cell: int, ds: Seq<u8>, upto: int) -> Set<Seq<int>> {
    all.filter(|s: Seq<int>| exists|k: int| 0 <= k < upto && #[trigger] ds[k] == s[cell])
}

/// One more digit covers the solutions with that digit, and no other.
proof fn lemma_cover_step(all: Set<Seq<int>>, cell: int, ds: Seq<u8>, k: int)
    requires
        all.finite(),
        0 <= k < ds.len(),
        ds.no_duplicates(),
    ensures
        covered(all, cell, ds, k + 1).len() == covered(all, cell, ds, k).len() + all.filter(
            |s: Seq<int>| s[cell] == ds[k] as int,
        ).len(),
{
    let a = covered(all, cell, ds, k);
    let b = all.filter(|s: Seq<int>| s[cell] == ds[k] as int);
    let c = covered(all, cell, ds, k + 1);
    assert forall|s: Seq<int>| c.contains(s) implies (a + b).contains(s) by {
        let l = choose|l: int| 0 <= l < k + 1 && #[trigger] ds[l] == s[cell];
        assert(ds[l] == s[cell]);
    }
    assert forall|s: Seq<int>| (a + b).contains(s) implies c.contains(s) by {
        if b.contains(s) {
            assert(ds[k] == s[cell]);
        } else {
            let l = choose|l: int| 0 <= l < k && #[trigger] ds[l] == s[cell];
            assert(ds[l] == s[cell]);
        }
    }
    assert(c =~= a + b);
    assert(a.disjoint(b)) by {
        assert forall|s: Seq<int>| a.contains(s) implies !b.contains(s) by {
            let l = choose|l: int| 0 <= l < k && #[trigger] ds[l] == s[cell];
            assert(ds[l] != ds[k]);
        }
    }
    all.lemma_len_filter(|s: Seq<int>| s[cell] == ds[k] as int);
    lemma_set_subset_finite(all, a);
    lemma_set_subset_finite(all, b);
    lemma_set_disjoint_lens(a, b);
}

/// The candidates of a cell cover all solutions.
proof fn lemma_cover_all(g: Dims, c: Seq<u32>, cell: int, ds: Seq<u8>)
    requires
        g.is_cell(cell),
        c.len() == g.cells(),
        forall|d: int| #[trigger] masks::holds(c[cell], d) ==> ds.contains(d as u8),
        g.ok(),
    ensures
        covered(solutions::solutions(g, c), cell, ds, ds.len() as int) =~= solutions::solutions(
            g,
            c,
        ),
{
    let all = solutions::solutions(g, c);
    assert forall|s: Seq<int>| all.contains(s) implies covered(
        all,
        cell,
        ds,
        ds.len() as int,
    ).contains(s) by {
        assert(masks::holds(c[cell], s[cell]));
        assert(ds.contains(s[cell] as u8));
        let k = choose|k: int| 0 <= k < ds.len() && ds[k] == s[cell] as u8;
        assert(ds[k] == s[cell]);
    }
}

/// A grid that is full has one solution, and a grid that is not has an open cell.
proof fn lemma_full<const N: usize, const BR: usize, const BC: usize>(g: Grid<N, BR, BC>)
    requires
        g.sound(),
        g.solved_count == N * N,
    ensures
        g.solutions() == set![solutions::digits_of(g.solved@)],
        g.solutions().len() == 1,
{
    let sh = Grid::<N, BR, BC>::shape();
    peer_tables::lemma_cells_bound(sh);
    solutions::lemma_placed_bound(g.solved@);
    solutions::lemma_full_grid(sh, g.candidates@, g.solved@);
}

pub open spec fn min(a: int, b: int) -> int {
    if a <= b {
        a
    } else {
        b
    }
}

/// Counts the solutions of `g`, up to `limit`.
fn count_from<const N: usize, const BR: usize, const BC: usize>(
    g: Grid<N, BR, BC>,
    limit: usize,
) -> (r: usize)
    requires
        g.sound(),
    ensures
        r == min(limit as int, g.solutions().len() as int),
    decreases N * N - g.solved_count,
{
    let ghost sh = Grid::<N, BR, BC>::shape();
    proof {
        peer_tables::lemma_cells_bound(sh);
        solutions::lemma_placed_bound(g.solved@);
        solutions::lemma_solutions_finite(sh, g.candidates@);
    }
    if limit == 0 {
        return 0;
    }
    let ghost all = g.solutions();
    let mut w = g.clone();
    let ghost n0 = g.solved_count;
    if propagate_singles(&mut w).is_err() {
        return 0;
    }
    proof {
        solutions::lemma_placed_bound(w.solved@);
    }
    if w.is_solved() {
        proof {
            lemma_full(w);
        }
        return 1;
    }
    let cell: usize = tightest_cell(&w);
    let ds: Vec<u8> = digit_list(w.candidates[cell]);
    let mut total: usize = 0;
    let mut k: usize = 0;
    proof {
        assert(covered(all, cell as int, ds@, 0) =~= Set::<Seq<int>>::empty());
    }
    while k < ds.len() && total < limit
        invariant
            sh == Grid::<N, BR, BC>::shape(),
            sh.ok(),
            N * N <= 961,
            w.sound(),
            all == w.solutions(),
            all.finite(),
            w.solved_count >= n0,
            w.solved_count < N * N,
            n0 == g.solved_count,
            cell < N * N,
            w.solved@[cell as int] == 0,
            forall|k: int|
                0 <= k < ds@.len() ==> 1 <= #[trigger] ds@[k] <= 32 && masks::holds(
                    w.candidates@[cell as int],
                    ds@[k] as int,
                ),
            ds@.no_duplicates(),
            k <= ds@.len(),
            total == min(limit as int, covered(all, cell as int, ds@, k as int).len() as int),
        decreases ds@.len() - k,
    {
        let d: u8 = ds[k];
        let ghost part = all.filter(|s: Seq<int>| s[cell as int] == ds@[k as int] as int);
        let mut t = w.clone();
        proof {
            assert(masks::holds(w.candidates@[cell as int], ds@[k as int] as int));
            lemma_cover_step(all, cell as int, ds@, k as int);
            solutions::lemma_assign_solutions(
                sh,
                w.candidates@,
                w.solved@,
                cell as int,
                d as int,
            );
            solutions::lemma_placed_update(w.solved@, cell as int, d);
            all.lemma_len_filter(|s: Seq<int>| s[cell as int] == ds@[k as int] as int);
        }
        if t.assign(cell, d).is_ok() {
            assert(t.solutions() =~= part);
            total = total + count_from(t, limit - total);
        } else {
            proof {
                assert forall|s: Seq<int>| !part.contains(s) by {
                    if part.contains(s) {
                        solutions::lemma_blocked(
                            sh,
                            w.candidates@,
                            w.solved@,
                            cell as int,
                            d as int,
                            s,
                        );
                    }
                }
                assert(part =~= Set::<Seq<int>>::empty());
            }
        }
        k += 1;
    }
    proof {
        lemma_cover_all(sh, w.candidates@, cell as int, ds@);
        let cov = covered(all, cell as int, ds@, k as int);
        lemma_len_subset(cov, all);
    }
    total
}

/// The number of solutions of `g`, or `limit` where there are that many or more.
pub fn count_solutions_up_to<const N: usize, const BR: usize, const BC: usize>(
    g: &Grid<N, BR, BC>,
    limit: usize,
) -> (r: usize)
    requires
        g.sound(),
    ensures
        r == min(limit as int, g.solutions().len() as int),
{
    count_from(g.clone(), limit)
}

/// Fills `g`, trying the digits of a cell in ascending order.
fn fill_first<const N: usize, const BR: usize, const BC: usize>(g: Grid<N, BR, BC>) -> (r: Option<
    Grid<N, BR, BC>,
>)
    requires
        g.sound(),
    ensures
        r is Some == (g.solutions().len() > 0),
        r matches Some(x) ==> x.sound() && x.solved_count == N * N && g.solutions().contains(
            solutions::digits_of(x.solved@),
        ),
    decreases N * N - g.solved_count,
{
    let ghost sh = Grid::<N, BR, BC>::shape();
    proof {
        peer_tables::lemma_cells_bound(sh);
        solutions::lemma_placed_bound(g.solved@);
        solutions::lemma_solutions_finite(sh, g.candidates@);
    }
    let ghost all = g.solutions();
    let mut w = g.clone();
    let ghost n0 = g.solved_count;
    if propagate_singles(&mut w).is_err() {
        return None;
    }
    proof {
        solutions::lemma_placed_bound(w.solved@);
    }
    if w.is_solved() {
        proof {
            lemma_full(w);
            assert(all.contains(solutions::digits_of(w.solved@)));
        }
        return Some(w);
    }
    let cell: usize = tightest_cell(&w);
    let ds: Vec<u8> = digit_list(w.candidates[cell]);
    proof {
        assert(covered(all, cell as int, ds@, 0) =~= Set::<Seq<int>>::empty());
    }
    let mut k: usize = 0;
    while k < ds.len()
        invariant
            sh == Grid::<N, BR, BC>::shape(),
            sh.ok(),
            N * N <= 961,
            w.sound(),
            g.sound(),
            all == g.solutions(),
            all == w.solutions(),
            all.finite(),
            w.solved_count >= n0,
            w.solved_count < N * N,
            n0 == g.solved_count,
            cell < N * N,
            w.solved@[cell as int] == 0,
            forall|k: int|
                0 <= k < ds@.len() ==> 1 <= #[trigger] ds@[k] <= 32 && masks::holds(
                    w.candidates@[cell as int],
                    ds@[k] as int,
                ),
            ds@.no_duplicates(),
            k <= ds@.len(),
            covered(all, cell as int, ds@, k as int).len() == 0,
        decreases ds@.len() - k,
    {
        let d: u8 = ds[k];
        let ghost part = all.filter(|s: Seq<int>| s[cell as int] == ds@[k as int] as int);
        let mut t = w.clone();
        proof {
            assert(masks::holds(w.candidates@[cell as int], ds@[k as int] as int));
            lemma_cover_step(all, cell as int, ds@, k as int);
            solutions::lemma_assign_solutions(
                sh,
                w.candidates@,
                w.solved@,
                cell as int,
                d as int,
            );
            solutions::lemma_placed_update(w.solved@, cell as int, d);
            all.lemma_len_filter(|s: Seq<int>| s[cell as int] == ds@[k as int] as int);
        }
        if t.assign(cell, d).is_ok() {
            assert(t.solutions() =~= part);
            let x = fill_first(t);
            if x.is_some() {
                proof {
                    assert(part.contains(solutions::digits_of(x->0.solved@)));
                    lemma_nonempty(all, solutions::digits_of(x->0.solved@));
                }
                return x;
            }
        } else {
            proof {
                assert forall|s: Seq<int>| !part.contains(s) by {
                    if part.contains(s) {
                        solutions::lemma_blocked(
                            sh,
                            w.candidates@,
                            w.solved@,
                            cell as int,
                            d as int,
                            s,
                        );
                    }
                }
                assert(part =~= Set::<Seq<int>>::empty());
            }
        }
        k += 1;
    }
    proof {
        lemma_cover_all(sh, w.candidates@, cell as int, ds@);
    }
    None
}

proof fn lemma_nonempty(all: Set<Seq<int>>, s: Seq<int>)
    requires
        all.finite(),
        all.contains(s),
    ensures
        all.len() > 0,
{
    vstd::set::axiom_set_contains_len(all, s);
}

/// The solution of `g` where it has exactly one.
pub fn solve_unique<const N: usize, const BR: usize, const BC: usize>(g: &Grid<N, BR, BC>) -> (r:
    Option<Grid<N, BR, BC>>)
    requires
        g.sound(),
    ensures
        r is Some == (g.solutions().len() == 1),
        r matches Some(x) ==> x.sound() && x.solved_count == N * N && g.solutions()
            == set![solutions::digits_of(x.solved@)],
{
    if count_solutions_up_to(g, 2) != 1 {
        return None;
    }
    let r = fill_first(g.clone());
    proof {
        let all = g.solutions();
        let s = solutions::digits_of(r->0.solved@);
        solutions::lemma_solutions_finite(Grid::<N, BR, BC>::shape(), g.candidates@);
        assert(all.remove(s).len() == 0);
        all.remove(s).lemma_len0_is_empty();
        assert forall|t: Seq<int>| all.contains(t) implies set![s].contains(t) by {
            if t != s {
                assert(all.remove(s).contains(t));
            }
        }
        assert(all =~= set![s]);
    }
    r
}

/// Fills a grid: singles are placed; then the digits of the tightest cell are tried in the
/// order that a shuffle gives them. What is placed in the end, if the grid can be filled, and
/// the words that the generator holds afterwards. `depth` limits how many cells are tried.
pub open spec fn random_fill(g: Dims, c: Seq<u32>, solved: Seq<u8>, words: Seq<u64>, depth: nat) -> (
    Option<(Seq<u32>, Seq<u8>)>,
    Seq<u64>,
)
    decreases depth, 1nat, 0nat,
{
    match backtracker::singles_placed(g, c, solved) {
        Placed::Refused(_) => (None, words),
        Placed::Through(at) => if solutions::placed(at.1) == g.cells() {
            (Some(at), words)
        } else {
            let cell = tightest(at.0, at.1);
            let ds = listed(at.0[cell], 32);
            let shuffled = rng::shuffle_of(ds.len(), words);
            random_try(g, at, cell, rng::picked(ds, shuffled.0), 0, shuffled.1, depth)
        },
    }
}

/// Tries the digits of `ds` in a cell, from the `k`-th on.
pub open spec fn random_try(
    g: Dims,
    at: (Seq<u32>, Seq<u8>),
    cell: int,
    ds: Seq<u8>,
    k: int,
    words: Seq<u64>,
    depth: nat,
) -> (Option<(Seq<u32>, Seq<u8>)>, Seq<u64>)
    decreases depth, 0nat, (ds.len() - k) as nat,
{
    if k < 0 || k >= ds.len() {
        (None, words)
    } else {
        match backtracker::place(g, at, cell, ds[k] as int) {
            Placed::Refused(_) => random_try(g, at, cell, ds, k + 1, words, depth),
            Placed::Through(next) => if depth == 0 {
                (None, words)
            } else {
                let below = random_fill(g, next.0, next.1, words, (depth - 1) as nat);
                match below.0 {
                    Some(_) => below,
                    None => random_try(g, at, cell, ds, k + 1, below.1, depth),
                }
            },
        }
    }
}

/// Fills `g` with one of its solutions, trying the digits of a cell in random
/// order. `None`, with `g` unchanged, if there is no solution.
pub fn search_random<const N: usize, const BR: usize, const BC: usize>(
    g: &mut Grid<N, BR, BC>,
    rng: &mut Xoshiro256PlusPlus,
) -> (r: Option<()>)
    requires
        old(g).sound(),
    ensures
        final(g).sound(),
        r is Some == (old(g).solutions().len() > 0),
        r is Some ==> final(g).solved_count == N * N && old(g).solutions().contains(
            solutions::digits_of(final(g).solved@),
        ),
        r is None ==> final(g).same(old(g)),
        ({
            let drawn = random_fill(
                Grid::<N, BR, BC>::shape(),
                old(g).candidates@,
                old(g).solved@,
                rng::state(*old(rng)),
                (N * N) as nat,
            );
            &&& r is Some ==> drawn.0 == Some((final(g).candidates@, final(g).solved@))
            &&& rng::state(*final(rng)) == drawn.1
        }),
{
    match fill_random(g.clone(), rng, Ghost((N * N) as nat)) {
        Some(x) => {
            *g = x;
            Some(())
        },
        None => None,
    }
}

fn fill_random<const N: usize, const BR: usize, const BC: usize>(
    g: Grid<N, BR, BC>,
    rng: &mut Xoshiro256PlusPlus,
    Ghost(depth): Ghost<nat>,
) -> (r: Option<Grid<N, BR, BC>>)
    requires
        g.sound(),
        N * N - g.solved_count <= depth,
    ensures
        ({
            let drawn = random_fill(
                Grid::<N, BR, BC>::shape(),
                g.candidates@,
                g.solved@,
                rng::state(*old(rng)),
                depth,
            );
            &&& drawn.0 == match r {
                Some(x) => Some((x.candidates@, x.solved@)),
                None => None,
            }
            &&& rng::state(*final(rng)) == drawn.1
        }),
        r is Some == (g.solutions().len() > 0),
        r matches Some(x) ==> x.sound() && x.solved_count == N * N && g.solutions().contains(
            solutions::digits_of(x.solved@),
        ),
    decreases N * N - g.solved_count,
{
    let ghost sh = Grid::<N, BR, BC>::shape();
    proof {
        peer_tables::lemma_cells_bound(sh);
        solutions::lemma_placed_bound(g.solved@);
        solutions::lemma_solutions_finite(sh, g.candidates@);
    }
    let ghost all = g.solutions();
    let ghost drawn = random_fill(sh, g.candidates@, g.solved@, rng::state(*rng), depth);
    let mut w = g.clone();
    let ghost n0 = g.solved_count;
    if propagate_singles(&mut w).is_err() {
        return None;
    }
    proof {
        solutions::lemma_placed_bound(w.solved@);
    }
    if w.is_solved() {
        proof {
            lemma_full(w);
            assert(all.contains(solutions::digits_of(w.solved@)));
        }
        return Some(w);
    }
    let cell: usize = tightest_cell(&w);
    let mut ds: Vec<u8> = digit_list(w.candidates[cell]);
    let ghost sorted = ds@;
    rng::shuffle(&mut ds, rng);
    proof {
        rng::lemma_shuffled(sorted, ds@);
        assert forall|k: int| 0 <= k < ds@.len() implies 1 <= #[trigger] ds@[k] <= 32 && masks::holds(
            w.candidates@[cell as int],
            ds@[k] as int,
        ) by {
            assert(ds@.contains(ds@[k]));
            assert(sorted.contains(ds@[k]));
        }
        assert forall|d: int| #[trigger] masks::holds(
            w.candidates@[cell as int],
            d,
        ) implies ds@.contains(d as u8) by {
            assert(sorted.contains(d as u8));
        }
        assert(covered(all, cell as int, ds@, 0) =~= Set::<Seq<int>>::empty());
    }
    let ghost at = (w.candidates@, w.solved@);
    let ghost order = ds@;
    let mut k: usize = 0;
    while k < ds.len()
        invariant
            drawn == random_try(
                sh,
                at,
                cell as int,
                order,
                k as int,
                rng::state(*rng),
                depth,
            ),
            drawn == random_fill(sh, g.candidates@, g.solved@, rng::state(*old(rng)), depth),
            at == (w.candidates@, w.solved@),
            order == ds@,
            N * N - g.solved_count <= depth,
            sh == Grid::<N, BR, BC>::shape(),
            sh.ok(),
            N * N <= 961,
            w.sound(),
            g.sound(),
            all == g.solutions(),
            all == w.solutions(),
            all.finite(),
            w.solved_count >= n0,
            w.solved_count < N * N,
            n0 == g.solved_count,
            cell < N * N,
            w.solved@[cell as int] == 0,
            forall|k: int|
                0 <= k < ds@.len() ==> 1 <= #[trigger] ds@[k] <= 32 && masks::holds(
                    w.candidates@[cell as int],
                    ds@[k] as int,
                ),
            ds@.no_duplicates(),
            k <= ds@.len(),
            covered(all, cell as int, ds@, k as int).len() == 0,
        decreases ds@.len() - k,
    {
        let d: u8 = ds[k];
        let ghost part = all.filter(|s: Seq<int>| s[cell as int] == ds@[k as int] as int);
        let mut t = w.clone();
        proof {
            assert(masks::holds(w.candidates@[cell as int], ds@[k as int] as int));
            lemma_cover_step(all, cell as int, ds@, k as int);
            solutions::lemma_assign_solutions(
                sh,
                w.candidates@,
                w.solved@,
                cell as int,
                d as int,
            );
            solutions::lemma_placed_update(w.solved@, cell as int, d);
            all.lemma_len_filter(|s: Seq<int>| s[cell as int] == ds@[k as int] as int);
        }
        if t.assign(cell, d).is_ok() {
            assert(t.solutions() =~= part);
            let x = fill_random(t, rng, Ghost((depth - 1) as nat));
            if x.is_some() {
                proof {
                    assert(part.contains(solutions::digits_of(x->0.solved@)));
                    lemma_nonempty(all, solutions::digits_of(x->0.solved@));
                }
                return x;
            }
        } else {
            proof {
                assert forall|s: Seq<int>| !part.contains(s) by {
                    if part.contains(s) {
                        solutions::lemma_blocked(
                            sh,
                            w.candidates@,
                            w.solved@,
                            cell as int,
                            d as int,
                            s,
                        );
                    }
                }
                assert(part =~= Set::<Seq<int>>::empty());
            }
        }
        k += 1;
    }
    proof {
        lemma_cover_all(sh, w.candidates@, cell as int, ds@);
    }
    None
}

} // verus!
