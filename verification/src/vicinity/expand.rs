//! Adding to a puzzle everything that singles decide.

use super::puzzle_text;
use super::puzzle_text::{shows_digit, shows_open, CELLS};
use crate::generic::backtracker;
use crate::generic::backtracker::{propagate_singles, Placed};
use crate::generic::geometry::Dims;
use crate::generic::grid;
use crate::generic::grid::Grid;
use crate::generic::masks;
use crate::generic::solutions;
use vstd::prelude::*;

verus! {

broadcast use masks::group_masks;

/// The shape of the classic grid.
pub open spec fn shape() -> Dims {
    Grid::<9, 3, 3>::shape()
}

/// The digits that a string shows, `0` for an open cell.
pub open spec fn digits_shown(p: Seq<u8>) -> Seq<int> {
    grid::clues(shape(), p)
}

/// The string is a puzzle: it can be read, and its clues leave a digit for every cell.
pub open spec fn is_puzzle(p: Seq<u8>) -> bool {
    grid::readable(shape(), p) && grid::clues_agree(shape(), digits_shown(p))
}

/// The solutions of a puzzle.
pub open spec fn solved_by(p: Seq<u8>) -> Set<Seq<int>> {
    grid::completions(shape(), digits_shown(p))
}

/// The candidates and placements of the grid that shows the clues `v`.
pub open spec fn shows_state(v: Seq<int>, c: Seq<u32>, solved: Seq<u8>) -> bool {
    &&& solutions::well_formed(shape(), c, solved)
    &&& solutions::digits_of(solved) == v
    &&& forall|i: int, d: int|
        shape().is_cell(i) ==> #[trigger] masks::holds(c[i], d) == grid::clue_leaves(
            shape(),
            v,
            i,
            d,
        )
}

/// Playing the singles `steps` on the grid that shows `v` leaves no single, and the
/// placements `s`.
pub open spec fn closes(
    v: Seq<int>,
    c: Seq<u32>,
    solved: Seq<u8>,
    steps: Seq<(int, u8)>,
    s: Seq<u8>,
) -> bool {
    &&& shows_state(v, c, solved)
    &&& backtracker::is_chain(shape(), c, solved, steps)
    &&& backtracker::no_singles(
        shape(),
        backtracker::after(shape(), c, solved, steps).0,
        backtracker::after(shape(), c, solved, steps).1,
    )
    &&& s == backtracker::after(shape(), c, solved, steps).1
}

/// `s` holds what is placed once every single that follows from the clues `v` is played.
pub open spec fn is_closure(v: Seq<int>, s: Seq<u8>) -> bool {
    exists|c: Seq<u32>, solved: Seq<u8>, steps: Seq<(int, u8)>|
        #[trigger] closes(v, c, solved, steps, s)
}

/// `p` with the digits of the solution in its open cells where `s` has a placement.
pub open spec fn merged(p: Seq<u8>, sol: Seq<u8>, s: Seq<u8>) -> Seq<u8> {
    Seq::new(
        p.len(),
        |i: int|
            if puzzle_text::is_open(p[i]) && s[i] != 0 && puzzle_text::is_digit(sol[i]) {
                sol[i]
            } else {
                p[i]
            },
    )
}

/// `q` is `p` with the digits of the solution in some of its open cells.
pub open spec fn only_adds(p: Seq<u8>, sol: Seq<u8>, q: Seq<u8>) -> bool {
    &&& q.len() == p.len()
    &&& forall|i: int|
        0 <= i < p.len() ==> #[trigger] q[i] == p[i] || (puzzle_text::is_open(p[i])
            && puzzle_text::is_digit(sol[i]) && q[i] == sol[i])
}

/// `q` is `p` with everything that singles decide.
pub open spec fn is_expanded(p: Seq<u8>, sol: Seq<u8>, q: Seq<u8>) -> bool {
    exists|s: Seq<u8>| #[trigger] is_closure(digits_shown(p), s) && q == merged(p, sol, s)
}

/// A solution of the clues fits the candidates.
proof fn lemma_solution_fits(v: Seq<int>, c: Seq<u32>, solved: Seq<u8>, x: Seq<int>)
    requires
        shows_state(v, c, solved),
        grid::completions(shape(), v).contains(x),
    ensures
        solutions::solutions(shape(), c).contains(x),
{
    let g = shape();
    assert forall|i: int| 0 <= i < x.len() implies masks::holds(c[i], #[trigger] x[i]) by {
        assert(g.is_cell(i));
        assert(g.is_digit(x[i]));
        if v[i] == 0 {
            assert forall|j: int| #[trigger] g.peer(i, j) implies v[j] != x[i] by {
                assert(x[i] != x[j]);
                if v[j] != 0 {
                    assert(x[j] == v[j]);
                }
            }
        } else {
            assert(x[i] == v[i]);
        }
        assert(grid::clue_leaves(g, v, i, x[i]));
    }
}

/// A puzzle with a solution has one closure: the order of the singles does not matter.
pub proof fn law_closure_is_one(v: Seq<int>, x: Seq<int>, s: Seq<u8>, t: Seq<u8>)
    requires
        grid::completions(shape(), v).contains(x),
        is_closure(v, s),
        is_closure(v, t),
    ensures
        s == t,
{
    let g = shape();
    let (c, p, a) = choose|c: Seq<u32>, p: Seq<u8>, a: Seq<(int, u8)>| #[trigger] closes(v, c, p, a, s);
    let (d, q, b) = choose|d: Seq<u32>, q: Seq<u8>, b: Seq<(int, u8)>| #[trigger] closes(v, d, q, b, t);
    assert(p =~= q) by {
        assert forall|i: int| 0 <= i < p.len() implies p[i] == q[i] by {
            assert(solutions::digits_of(p)[i] == solutions::digits_of(q)[i]);
        }
    }
    assert(c =~= d) by {
        assert forall|i: int| 0 <= i < c.len() implies c[i] == d[i] by {
            assert(g.is_cell(i));
            assert forall|k: int| 1 <= k <= 32 implies masks::holds(c[i], k) == masks::holds(
                d[i],
                k,
            ) by {
                assert(masks::holds(c[i], k) == grid::clue_leaves(g, v, i, k));
                assert(masks::holds(d[i], k) == grid::clue_leaves(g, v, i, k));
            }
            masks::lemma_mask_ext(c[i], d[i]);
        }
    }
    lemma_solution_fits(v, c, p, x);
    backtracker::law_singles_meet(g, c, p, a, b, x);
}

/// A string of digits shows its digits.
proof fn lemma_digits_shown(sol: Seq<u8>, i: int)
    requires
        puzzle_text::all_digits(sol),
        sol.len() == CELLS,
        0 <= i < CELLS,
    ensures
        digits_shown(sol)[i] == sol[i] - 0x30,
{
    assert(puzzle_text::is_digit(sol[i]));
}

/// Once the singles are played, the grid is the one that shows what they placed.
proof fn lemma_closed_state(
    p: Seq<u8>,
    sol: Seq<u8>,
    c: Seq<u32>,
    solved: Seq<u8>,
    steps: Seq<(int, u8)>,
    s: Seq<u8>,
)
    requires
        p.len() == CELLS,
        sol.len() == CELLS,
        grid::readable(shape(), p),
        puzzle_text::all_digits(sol),
        solved_by(p).contains(digits_shown(sol)),
        closes(digits_shown(p), c, solved, steps, s),
    ensures
        grid::readable(shape(), merged(p, sol, s)),
        solved_by(merged(p, sol, s)).contains(digits_shown(sol)),
        shows_state(
            digits_shown(merged(p, sol, s)),
            backtracker::after(shape(), c, solved, steps).0,
            s,
        ),
{
    let g = shape();
    let v = digits_shown(p);
    let q = merged(p, sol, s);
    let w = digits_shown(q);
    let x = digits_shown(sol);
    let c1 = backtracker::after(g, c, solved, steps).0;
    lemma_solution_fits(v, c, solved, x);
    backtracker::lemma_chain(g, c, solved, steps);
    assert(solutions::solutions(g, c1).contains(x));
    assert forall|i: int| 0 <= i < CELLS implies w[i] == s[i] && (w[i] != 0 ==> w[i] == x[i]) by {
        assert(g.is_cell(i));
        assert(grid::cell_value(p[i]) is Some);
        lemma_digits_shown(sol, i);
        assert(puzzle_text::is_digit(sol[i]));
        assert(solutions::digits_of(solved)[i] == v[i]);
        if s[i] != 0 {
            assert(c1[i] == masks::bit(s[i] as int));
            assert(masks::holds(c1[i], x[i]));
        }
        if v[i] != 0 {
            assert(solved[i] != 0);
            assert(s[i] == solved[i]);
            assert(!puzzle_text::is_open(p[i]));
            assert(q[i] == p[i]);
        } else {
            assert(puzzle_text::is_open(p[i]));
        }
    }
    assert forall|i: int| 0 <= i < g.cells() implies grid::cell_value(#[trigger] q[i]) is Some
        && grid::cell_value(q[i])->0 <= g.n by {
        assert(grid::cell_value(p[i]) is Some);
        assert(puzzle_text::is_digit(sol[i]));
    }
    assert(solutions::digits_of(s) =~= w);
    assert forall|i: int, d: int| g.is_cell(i) implies #[trigger] masks::holds(c1[i], d)
        == grid::clue_leaves(g, w, i, d) by {
        assert(w[i] == s[i]);
        if s[i] != 0 {
            assert(c1[i] == masks::bit(s[i] as int));
        } else {
            backtracker::lemma_after_candidates(g, c, solved, steps, i, d);
            assert(solutions::digits_of(solved)[i] == v[i]);
            assert(solved[i] == 0) by {
                if solved[i] != 0 {
                    assert(s[i] == solved[i]);
                }
            }
            assert(masks::holds(c[i], d) == grid::clue_leaves(g, v, i, d));
            if grid::clue_leaves(g, w, i, d) {
                assert forall|j: int| #[trigger] g.peer(i, j) implies v[j] != d by {
                    assert(w[j] != d);
                    assert(w[j] == s[j]);
                    assert(solutions::digits_of(solved)[j] == v[j]);
                    if solved[j] != 0 {
                        assert(s[j] == solved[j]);
                    }
                }
                if backtracker::ruled_since(g, solved, s, i, d) {
                    let j = choose|j: int|
                        #[trigger] g.peer(j, i) && solved[j] == 0 && s[j] == d && d != 0;
                    assert(g.peer(i, j));
                    assert(w[j] == s[j]);
                }
            }
            if masks::holds(c1[i], d) {
                assert forall|j: int| #[trigger] g.peer(i, j) implies w[j] != d by {
                    assert(g.peer(j, i));
                    assert(v[j] != d);
                    assert(w[j] == s[j]);
                    assert(solutions::digits_of(solved)[j] == v[j]);
                    if s[j] as int == d {
                        if solved[j] != 0 {
                            assert(s[j] == solved[j]);
                        }
                    }
                }
            }
        }
    }
}

/// Expanding what is already expanded changes nothing.
pub proof fn law_expanding_twice(p: Seq<u8>, sol: Seq<u8>, q: Seq<u8>, r: Seq<u8>)
    requires
        p.len() == CELLS,
        sol.len() == CELLS,
        grid::readable(shape(), p),
        puzzle_text::all_digits(sol),
        solved_by(p).contains(digits_shown(sol)),
        is_expanded(p, sol, q),
        is_expanded(q, sol, r),
    ensures
        r == q,
{
    let g = shape();
    let s = choose|s: Seq<u8>| #[trigger] is_closure(digits_shown(p), s) && q == merged(p, sol, s);
    let t = choose|t: Seq<u8>| #[trigger] is_closure(digits_shown(q), t) && r == merged(q, sol, t);
    let (c, solved, steps) = choose|c: Seq<u32>, solved: Seq<u8>, steps: Seq<(int, u8)>|
        #[trigger] closes(digits_shown(p), c, solved, steps, s);
    lemma_closed_state(p, sol, c, solved, steps, s);
    let c1 = backtracker::after(g, c, solved, steps).0;
    assert(closes(digits_shown(q), c1, s, Seq::empty(), s));
    law_closure_is_one(digits_shown(q), digits_shown(sol), s, t);
    assert forall|i: int| 0 <= i < q.len() implies r[i] == q[i] by {
        assert(puzzle_text::is_digit(sol[i]));
    }
    assert(r =~= q);
}

/// A puzzle with a solution has one expansion, and it has that solution too.
pub proof fn law_one_expansion(p: Seq<u8>, sol: Seq<u8>, q: Seq<u8>, r: Seq<u8>)
    requires
        p.len() == CELLS,
        sol.len() == CELLS,
        grid::readable(shape(), p),
        puzzle_text::all_digits(sol),
        solved_by(p).contains(digits_shown(sol)),
        is_expanded(p, sol, q),
        is_expanded(p, sol, r),
    ensures
        r == q,
        is_puzzle(q),
        solved_by(q).contains(digits_shown(sol)),
        only_adds(p, sol, q),
        puzzle_text::clue_total(p) <= puzzle_text::clue_total(q),
{
    let s = choose|s: Seq<u8>| #[trigger] is_closure(digits_shown(p), s) && q == merged(p, sol, s);
    let t = choose|t: Seq<u8>| #[trigger] is_closure(digits_shown(p), t) && r == merged(p, sol, t);
    law_closure_is_one(digits_shown(p), digits_shown(sol), s, t);
    let (c, solved, steps) = choose|c: Seq<u32>, solved: Seq<u8>, steps: Seq<(int, u8)>|
        #[trigger] closes(digits_shown(p), c, solved, steps, s);
    lemma_closed_state(p, sol, c, solved, steps, s);
    grid::lemma_held_clues_agree(shape(), digits_shown(q), digits_shown(sol));
    puzzle_text::lemma_fewer_open(p, q);
}

/// What singles decide of a grid: the placements where none is left, or where a dead end was
/// met.
pub open spec fn decided(c: Seq<u32>, solved: Seq<u8>) -> Seq<u8> {
    match backtracker::singles_placed(shape(), c, solved) {
        Placed::Through(at) => at.1,
        Placed::Refused(at) => at.1,
    }
}

/// `q` is `p` with the digit of the solution in every cell that singles decide, also where they
/// come to a dead end.
pub open spec fn is_played(p: Seq<u8>, sol: Seq<u8>, q: Seq<u8>) -> bool {
    exists|c: Seq<u32>, solved: Seq<u8>|
        #[trigger] shows_state(digits_shown(p), c, solved) && q == merged(
            p,
            sol,
            decided(c, solved),
        )
}

/// A puzzle is played to one result.
pub proof fn law_one_play(p: Seq<u8>, sol: Seq<u8>, q: Seq<u8>, r: Seq<u8>)
    requires
        is_played(p, sol, q),
        is_played(p, sol, r),
    ensures
        r == q,
{
    let v = digits_shown(p);
    let (c, s) = choose|c: Seq<u32>, s: Seq<u8>|
        #[trigger] shows_state(v, c, s) && q == merged(p, sol, decided(c, s));
    let (d, t) = choose|d: Seq<u32>, t: Seq<u8>|
        #[trigger] shows_state(v, d, t) && r == merged(p, sol, decided(d, t));
    assert forall|i: int| 0 <= i < c.len() implies c[i] == d[i] by {
        assert forall|x: int| 1 <= x <= 32 implies masks::holds(c[i], x) == masks::holds(d[i], x) by {
            assert(masks::holds(c[i], x) == grid::clue_leaves(shape(), v, i, x));
            assert(masks::holds(d[i], x) == grid::clue_leaves(shape(), v, i, x));
        }
        masks::lemma_mask_ext(c[i], d[i]);
    }
    assert(c =~= d);
    assert forall|i: int| 0 <= i < s.len() implies s[i] == t[i] by {
        assert(solutions::digits_of(s)[i] == solutions::digits_of(t)[i]);
    }
    assert(s =~= t);
}

/// Plays naked and hidden singles on a puzzle until there is none, and writes the digit of
/// the solution into every cell that got decided. A string that is no puzzle stays as it is.
pub fn brt_expand(puzzle: &Vec<u8>, solution: &Vec<u8>) -> (q: Vec<u8>)
    ensures
        puzzle@.len() != CELLS || solution@.len() != CELLS || !is_puzzle(puzzle@) ==> q@ == puzzle@,
        only_adds(puzzle@, solution@, q@),
        puzzle@.len() == CELLS && solution@.len() == CELLS && is_puzzle(puzzle@) ==> is_played(
            puzzle@,
            solution@,
            q@,
        ),
        puzzle@.len() == CELLS && solution@.len() == CELLS && is_puzzle(puzzle@) && (exists|
            x: Seq<int>,
        | #[trigger]
            solved_by(puzzle@).contains(x)) ==> is_expanded(puzzle@, solution@, q@),
{
    let mut q: Vec<u8> = puzzle.clone();
    assert(q@ =~= puzzle@);
    if puzzle.len() != CELLS || solution.len() != CELLS {
        return q;
    }
    let parsed: Option<Grid<9, 3, 3>> = Grid::<9, 3, 3>::from_bytes(puzzle.as_slice());
    let mut board: Grid<9, 3, 3> = match parsed {
        Some(b) => b,
        None => {
            return q;
        },
    };
    let ghost c = board.candidates@;
    let ghost placed = board.solved@;
    proof {
        solutions::lemma_placed_bound(board.solved@);
    }
    let done = propagate_singles(&mut board);
    let ghost s = board.solved@;
    proof {
        assert(shows_state(digits_shown(puzzle@), c, placed));
        assert(s == decided(c, placed));
        if exists|x: Seq<int>| #[trigger] solved_by(puzzle@).contains(x) {
            let x = choose|x: Seq<int>| #[trigger] solved_by(puzzle@).contains(x);
            lemma_solution_fits(digits_shown(puzzle@), c, placed, x);
            let steps = choose|steps: Seq<(int, u8)>|
                {
                    &&& #[trigger] backtracker::is_chain(shape(), c, placed, steps)
                    &&& (board.candidates@, board.solved@) == backtracker::after(
                        shape(),
                        c,
                        placed,
                        steps,
                    )
                    &&& board.solved_count == solutions::placed(placed) + steps.len()
                };
            assert(closes(digits_shown(puzzle@), c, placed, steps, s));
            assert(is_closure(digits_shown(puzzle@), s));
        }
    }
    let mut i: usize = 0;
    while i < CELLS
        invariant
            i <= CELLS,
            puzzle@.len() == CELLS,
            solution@.len() == CELLS,
            q@.len() == CELLS,
            s == board.solved@,
            s.len() == CELLS,
            forall|j: int| 0 <= j < i ==> #[trigger] q@[j] == merged(puzzle@, solution@, s)[j],
            forall|j: int| i <= j < CELLS ==> #[trigger] q@[j] == puzzle@[j],
        decreases CELLS - i,
    {
        if shows_open(puzzle[i]) && board.solved[i] != 0 && shows_digit(solution[i]) {
            q.set(i, solution[i]);
        }
        i += 1;
    }
    assert(q@ =~= merged(puzzle@, solution@, s));
    q
}

} // verus!
