//! Puzzles with one solution and no clue to spare, and the steps that end in one.

use super::expand;
use super::expand::brt_expand;
use super::puzzle_text;
use super::puzzle_text::{cells_of, shows_digit, CELLS, EMPTIED};
use crate::generic::grid;
use crate::generic::grid::Grid;
use crate::generic::mutation::same_bytes;
use crate::generic::rng;
use crate::generic::search::count_solutions_up_to;
use crate::generic::solutions;
use rand_xoshiro::Xoshiro256PlusPlus;
use vstd::prelude::*;

verus! {

/// The string is a puzzle with one solution.
pub open spec fn is_unique(p: Seq<u8>) -> bool {
    expand::is_puzzle(p) && expand::solved_by(p).len() == 1
}

/// The puzzle has one solution, and more without any of its clues.
pub open spec fn is_minimal(p: Seq<u8>) -> bool {
    &&& is_unique(p)
    &&& forall|i: int|
        0 <= i < p.len() && !puzzle_text::is_open(#[trigger] p[i]) ==> !is_unique(
            p.update(i, EMPTIED),
        )
}

/// `q` is `p` without some of its clues.
pub open spec fn is_part(q: Seq<u8>, p: Seq<u8>) -> bool {
    &&& q.len() == p.len()
    &&& forall|i: int|
        0 <= i < p.len() ==> #[trigger] q[i] == p[i] || (q[i] == EMPTIED && !puzzle_text::is_open(
            p[i],
        ))
}

/// Whether a string is a puzzle with one solution.
pub fn has_one_solution(p: &Vec<u8>) -> (r: bool)
    ensures
        r == is_unique(p@),
{
    match Grid::<9, 3, 3>::from_bytes(p.as_slice()) {
        Some(g) => {
            proof {
                grid::lemma_shows_solutions(g, expand::digits_shown(p@));
            }
            count_solutions_up_to(&g, 2) == 1
        },
        None => false,
    }
}

/// The set of solutions of a puzzle is finite.
proof fn lemma_solved_by_finite(p: Seq<u8>)
    ensures
        expand::solved_by(p).finite(),
{
    let words = solutions::words(9, 81);
    solutions::lemma_words_finite(9, 81);
    assert(expand::solved_by(p).subset_of(words)) by {
        assert forall|s: Seq<int>| expand::solved_by(p).contains(s) implies words.contains(s) by {
            assert forall|i: int| 0 <= i < s.len() implies 1 <= #[trigger] s[i] <= 9 by {
                assert(expand::shape().is_digit(s[i]));
            }
        }
    }
    vstd::set_lib::lemma_len_subset(expand::solved_by(p), words);
}

/// Two puzzles with one solution each, the one a part of the other, have the same solution.
proof fn lemma_part_same_solution(q: Seq<u8>, p: Seq<u8>)
    requires
        p.len() == CELLS,
        is_part(q, p),
        is_unique(p),
        is_unique(q),
    ensures
        expand::solved_by(q) == expand::solved_by(p),
{
    let a = expand::solved_by(p);
    let b = expand::solved_by(q);
    assert(a.subset_of(b)) by {
        assert forall|s: Seq<int>| a.contains(s) implies b.contains(s) by {
            let v = expand::digits_shown(p);
            let w = expand::digits_shown(q);
            assert forall|i: int| 0 <= i < s.len() && #[trigger] w[i] != 0 implies s[i] == w[i] by {
                assert(q[i] == p[i] || q[i] == EMPTIED);
                assert(v[i] != 0);
            }
        }
    }
    lemma_solved_by_finite(p);
    lemma_solved_by_finite(q);
    vstd::set_lib::lemma_subset_equality(a, b);
}

/// What is left of `q` once the first `k` cells of `order` were visited: each is emptied if
/// that leaves one solution.
pub open spec fn reduced_upto(q: Seq<u8>, order: Seq<usize>, k: int) -> Seq<u8>
    decreases k,
{
    if k <= 0 {
        q
    } else {
        let b = reduced_upto(q, order, k - 1);
        let less = b.update(order[k - 1] as int, EMPTIED);
        if is_unique(less) {
            less
        } else {
            b
        }
    }
}

/// One pass over all clues in the order that a generator with the words `words` gives them,
/// and its words afterwards.
pub open spec fn reduced_once(q: Seq<u8>, words: Seq<u64>) -> (Seq<u8>, Seq<u64>) {
    let cells = puzzle_text::cells_below(q, false, q.len() as int);
    let shuffled = rng::shuffle_of(cells.len(), words);
    (reduced_upto(q, rng::picked(cells, shuffled.0), cells.len() as int), shuffled.1)
}

/// Passes until one takes nothing away, at most `more` after the first.
pub open spec fn reduced(q: Seq<u8>, words: Seq<u64>, more: nat) -> (Seq<u8>, Seq<u64>)
    decreases more,
{
    let b = reduced_once(q, words);
    if b.0 == q || more == 0 {
        b
    } else {
        reduced(b.0, b.1, (more - 1) as nat)
    }
}

/// Takes away clues, in random order, until none can be taken away without a second solution.
/// There is no result where the string is not a puzzle with one solution.
pub fn reminimize(puzzle: &Vec<u8>, rng: &mut Xoshiro256PlusPlus) -> (r: Option<Vec<u8>>)
    ensures
        r is Some == (puzzle@.len() == CELLS && is_unique(puzzle@)),
        r matches Some(q) ==> {
            &&& is_part(q@, puzzle@)
            &&& is_minimal(q@)
            &&& expand::solved_by(q@) == expand::solved_by(puzzle@)
            &&& (q@, rng::state(*final(rng))) == reduced(
                puzzle@,
                rng::state(*old(rng)),
                puzzle_text::clue_total(puzzle@),
            )
        },
        r is None ==> rng::state(*final(rng)) == rng::state(*old(rng)),
{
    if puzzle.len() != CELLS {
        return None;
    }
    if !has_one_solution(puzzle) {
        return None;
    }
    let mut q: Vec<u8> = puzzle.clone();
    assert(q@ =~= puzzle@);
    let ghost end = reduced(puzzle@, rng::state(*rng), puzzle_text::clue_total(puzzle@));
    let ghost mut more = puzzle_text::clue_total(puzzle@);
    loop
        invariant_except_break
            end == reduced(q@, rng::state(*rng), more),
            more >= puzzle_text::clue_total(q@),
            puzzle@.len() == CELLS,
            is_part(q@, puzzle@),
            is_unique(q@),
        ensures
            end == (q@, rng::state(*rng)),
            is_part(q@, puzzle@),
            is_minimal(q@),
        decreases puzzle_text::clue_total(q@),
    {
        let ghost start = q@;
        let ghost words = rng::state(*rng);
        let mut cells: Vec<usize> = cells_of(&q, false);
        let ghost listed = cells@;
        rng::shuffle(&mut cells, rng);
        proof {
            puzzle_text::lemma_reordered(start, false, listed, cells@);
            rng::lemma_shuffled(listed, cells@);
        }
        let mut removed: bool = false;
        let mut k: usize = 0;
        while k < cells.len()
            invariant
                k <= cells@.len(),
                q@ == reduced_upto(start, cells@, k as int),
                puzzle@.len() == CELLS,
                start.len() == CELLS,
                cells@.no_duplicates(),
                forall|j: int|
                    0 <= j < cells@.len() ==> (#[trigger] cells@[j]) < start.len()
                        && !puzzle_text::is_open(start[cells@[j] as int]),
                forall|j: int|
                    k <= j < cells@.len() ==> q@[(#[trigger] cells@[j]) as int]
                        == start[cells@[j] as int],
                is_part(q@, puzzle@),
                is_unique(q@),
                puzzle_text::clue_total(q@) <= puzzle_text::clue_total(start),
                removed ==> puzzle_text::clue_total(q@) < puzzle_text::clue_total(start),
                !removed ==> q@ == start && forall|j: int|
                    0 <= j < k ==> !is_unique(start.update((#[trigger] cells@[j]) as int, EMPTIED)),
            decreases cells@.len() - k,
        {
            let c: usize = cells[k];
            let ghost was = q@;
            assert(was[c as int] == start[c as int]);
            let saved: u8 = q[c];
            q.set(c, EMPTIED);
            if has_one_solution(&q) {
                removed = true;
                proof {
                    puzzle_text::lemma_changed_total(was, c as int, EMPTIED);
                    assert forall|j: int| k + 1 <= j < cells@.len() implies q@[(
                    #[trigger] cells@[j]) as int] == start[cells@[j] as int] by {
                        assert(cells@[j] != cells@[k as int]);
                        assert(was[cells@[j] as int] == start[cells@[j] as int]);
                    }
                }
            } else {
                q.set(c, saved);
                assert(q@ =~= was);
            }
            k += 1;
        }
        assert(reduced_once(start, words) == (q@, rng::state(*rng)));
        if !removed {
            proof {
                assert forall|i: int|
                    0 <= i < q@.len() && !puzzle_text::is_open(#[trigger] q@[i]) implies !is_unique(
                    q@.update(i, EMPTIED),
                ) by {
                    assert(listed.contains(i as usize));
                    assert(cells@.contains(i as usize));
                    let j = choose|j: int| 0 <= j < cells@.len() && cells@[j] == i as usize;
                    assert(!is_unique(start.update(cells@[j] as int, EMPTIED)));
                }
            }
            break;
        }
        proof {
            more = (more - 1) as nat;
        }
    }
    proof {
        lemma_part_same_solution(q@, puzzle@);
    }
    Some(q)
}

/// `p` with the cells of `cells` emptied.
pub open spec fn emptied(p: Seq<u8>, cells: Seq<usize>) -> Seq<u8>
    decreases cells.len(),
{
    if cells.len() == 0 {
        p
    } else {
        emptied(p, cells.drop_last()).update(cells.last() as int, EMPTIED)
    }
}

/// `p` with the digits of the solution in the cells of `cells`.
pub open spec fn shown(p: Seq<u8>, sol: Seq<u8>, cells: Seq<usize>) -> Seq<u8>
    decreases cells.len(),
{
    if cells.len() == 0 {
        p
    } else {
        shown(p, sol, cells.drop_last()).update(cells.last() as int, sol[cells.last() as int])
    }
}

/// `q` is `p` with the clues of `out` emptied and the open cells of `inn` shown.
pub open spec fn exchanges(
    p: Seq<u8>,
    sol: Seq<u8>,
    out: Seq<usize>,
    inn: Seq<usize>,
    q: Seq<u8>,
) -> bool {
    &&& out.no_duplicates()
    &&& inn.no_duplicates()
    &&& forall|k: int|
        0 <= k < out.len() ==> (#[trigger] out[k]) < p.len() && !puzzle_text::is_open(
            p[out[k] as int],
        )
    &&& forall|k: int|
        0 <= k < inn.len() ==> (#[trigger] inn[k]) < p.len() && puzzle_text::is_open(
            p[inn[k] as int],
        ) && puzzle_text::is_digit(sol[inn[k] as int])
    &&& q == shown(emptied(p, out), sol, inn)
}

/// `q` is `p` with `gone` clues emptied and `new` open cells shown.
pub open spec fn goes(p: Seq<u8>, sol: Seq<u8>, gone: nat, new: nat, q: Seq<u8>) -> bool {
    exists|out: Seq<usize>, inn: Seq<usize>|
        #[trigger] exchanges(p, sol, out, inn, q) && out.len() == gone && inn.len() == new
}

/// What emptying cells leaves.
proof fn lemma_emptied(p: Seq<u8>, cells: Seq<usize>)
    requires
        cells.no_duplicates(),
        forall|k: int|
            0 <= k < cells.len() ==> (#[trigger] cells[k]) < p.len() && !puzzle_text::is_open(
                p[cells[k] as int],
            ),
    ensures
        emptied(p, cells).len() == p.len(),
        forall|i: int|
            0 <= i < p.len() ==> #[trigger] emptied(p, cells)[i] == if cells.contains(i as usize) && i
                <= usize::MAX {
                EMPTIED
            } else {
                p[i]
            },
        puzzle_text::clue_total(emptied(p, cells)) == puzzle_text::clue_total(p) - cells.len(),
    decreases cells.len(),
{
    if cells.len() > 0 {
        let rest = cells.drop_last();
        assert forall|k: int| 0 <= k < rest.len() implies (#[trigger] rest[k]) < p.len()
            && !puzzle_text::is_open(p[rest[k] as int]) by {
            assert(rest[k] == cells[k]);
        }
        lemma_emptied(p, rest);
        let c = cells.last();
        assert(c == cells[cells.len() - 1]);
        assert(!rest.contains(c)) by {
            if rest.contains(c) {
                let j = choose|j: int| 0 <= j < rest.len() && rest[j] == c;
                assert(cells[j] == cells[cells.len() - 1]);
            }
        }
        assert(emptied(p, rest)[c as int] == p[c as int]);
        puzzle_text::lemma_changed_total(emptied(p, rest), c as int, EMPTIED);
        assert forall|i: int| 0 <= i < p.len() implies #[trigger] emptied(p, cells)[i]
            == if cells.contains(i as usize) && i <= usize::MAX {
            EMPTIED
        } else {
            p[i]
        } by {
            assert(emptied(p, rest)[i] == if rest.contains(i as usize) && i <= usize::MAX {
                EMPTIED
            } else {
                p[i]
            });
            if rest.contains(i as usize) {
                let j = choose|j: int| 0 <= j < rest.len() && rest[j] == i as usize;
                assert(cells[j] == i as usize);
            }
            if cells.contains(i as usize) && i != c {
                let j = choose|j: int| 0 <= j < cells.len() && cells[j] == i as usize;
                if i <= usize::MAX {
                    assert(rest[j] == i as usize);
                }
            }
        }
    }
}

/// What showing cells leaves.
proof fn lemma_shown(p: Seq<u8>, sol: Seq<u8>, cells: Seq<usize>)
    requires
        cells.no_duplicates(),
        forall|k: int|
            0 <= k < cells.len() ==> (#[trigger] cells[k]) < p.len() && puzzle_text::is_open(
                p[cells[k] as int],
            ) && puzzle_text::is_digit(sol[cells[k] as int]),
    ensures
        shown(p, sol, cells).len() == p.len(),
        forall|i: int|
            0 <= i < p.len() ==> #[trigger] shown(p, sol, cells)[i] == if cells.contains(i as usize)
                && i <= usize::MAX {
                sol[i]
            } else {
                p[i]
            },
        puzzle_text::clue_total(shown(p, sol, cells)) == puzzle_text::clue_total(p) + cells.len(),
    decreases cells.len(),
{
    if cells.len() > 0 {
        let rest = cells.drop_last();
        assert forall|k: int| 0 <= k < rest.len() implies (#[trigger] rest[k]) < p.len()
            && puzzle_text::is_open(p[rest[k] as int]) && puzzle_text::is_digit(
            sol[rest[k] as int],
        ) by {
            assert(rest[k] == cells[k]);
        }
        lemma_shown(p, sol, rest);
        let c = cells.last();
        assert(c == cells[cells.len() - 1]);
        assert(!rest.contains(c)) by {
            if rest.contains(c) {
                let j = choose|j: int| 0 <= j < rest.len() && rest[j] == c;
                assert(cells[j] == cells[cells.len() - 1]);
            }
        }
        assert(shown(p, sol, rest)[c as int] == p[c as int]);
        puzzle_text::lemma_changed_total(shown(p, sol, rest), c as int, sol[c as int]);
        assert forall|i: int| 0 <= i < p.len() implies #[trigger] shown(p, sol, cells)[i]
            == if cells.contains(i as usize) && i <= usize::MAX {
            sol[i]
        } else {
            p[i]
        } by {
            assert(shown(p, sol, rest)[i] == if rest.contains(i as usize) && i <= usize::MAX {
                sol[i]
            } else {
                p[i]
            });
            if rest.contains(i as usize) {
                let j = choose|j: int| 0 <= j < rest.len() && rest[j] == i as usize;
                assert(cells[j] == i as usize);
            }
            if cells.contains(i as usize) && i != c {
                let j = choose|j: int| 0 <= j < cells.len() && cells[j] == i as usize;
                if i <= usize::MAX {
                    assert(rest[j] == i as usize);
                }
            }
        }
    }
}

/// Exchanging clues changes their number by what was taken and given, and keeps a puzzle in
/// agreement with the solution.
pub proof fn law_exchange(p: Seq<u8>, sol: Seq<u8>, gone: nat, new: nat, q: Seq<u8>)
    requires
        goes(p, sol, gone, new, q),
    ensures
        q.len() == p.len(),
        puzzle_text::clue_total(q) == puzzle_text::clue_total(p) - gone + new,
        puzzle_text::agrees(p, sol) ==> puzzle_text::agrees(q, sol),
{
    let (out, inn) = choose|out: Seq<usize>, inn: Seq<usize>|
        #[trigger] exchanges(p, sol, out, inn, q) && out.len() == gone && inn.len() == new;
    let m = emptied(p, out);
    lemma_emptied(p, out);
    assert forall|k: int| 0 <= k < inn.len() implies (#[trigger] inn[k]) < m.len()
        && puzzle_text::is_open(m[inn[k] as int]) && puzzle_text::is_digit(sol[inn[k] as int]) by {
        assert(m[inn[k] as int] == EMPTIED || m[inn[k] as int] == p[inn[k] as int]);
    }
    lemma_shown(m, sol, inn);
    if puzzle_text::agrees(p, sol) {
        assert forall|i: int| 0 <= i < q.len() && !puzzle_text::is_open(#[trigger] q[i]) implies q[i]
            == sol[i] by {
            assert(q[i] == sol[i] || q[i] == m[i]);
            assert(m[i] == EMPTIED || m[i] == p[i]);
        }
    }
}

/// What becomes of `p` with a generator that holds the words `words`: the first `gone` clues
/// of a shuffle are emptied and the first `new` open cells of another are shown. The words
/// that the generator holds afterwards.
pub open spec fn drawn_exchange(p: Seq<u8>, sol: Seq<u8>, gone: int, new: int, words: Seq<u64>) -> (
    Option<Seq<u8>>,
    Seq<u64>,
) {
    let clues = puzzle_text::cells_below(p, false, p.len() as int);
    let opens = puzzle_text::cells_below(p, true, p.len() as int);
    if p.len() != CELLS || sol.len() != CELLS || clues.len() < gone || opens.len() < new {
        (None, words)
    } else {
        let a = rng::shuffle_of(clues.len(), words);
        let b = rng::shuffle_of(opens.len(), a.1);
        let out = rng::picked(clues, a.0).take(gone);
        let inn = rng::picked(opens, b.0).take(new);
        if forall|k: int| 0 <= k < new ==> puzzle_text::is_digit(sol[(#[trigger] inn[k]) as int]) {
            (Some(shown(emptied(p, out), sol, inn)), b.1)
        } else {
            (None, b.1)
        }
    }
}

/// Empties `gone` random clues and shows `new` random open cells. There is a result if there
/// are as many of each and the solution has digits in the cells that are shown.
pub fn go_p_q(
    puzzle: &Vec<u8>,
    solution: &Vec<u8>,
    gone: usize,
    new: usize,
    rng: &mut Xoshiro256PlusPlus,
) -> (r: Option<Vec<u8>>)
    ensures
        (
            match r {
                Some(q) => Some(q@),
                None => None,
            },
            rng::state(*final(rng)),
        ) == drawn_exchange(
            puzzle@,
            solution@,
            gone as int,
            new as int,
            rng::state(*old(rng)),
        ),
        r matches Some(q) ==> puzzle@.len() == CELLS && solution@.len() == CELLS && goes(
            puzzle@,
            solution@,
            gone as nat,
            new as nat,
            q@,
        ),
        puzzle@.len() == CELLS && solution@.len() == CELLS && puzzle_text::all_digits(solution@)
            ==> r is Some == (gone <= puzzle_text::clue_total(puzzle@) && new <= CELLS
            - puzzle_text::clue_total(puzzle@)),
{
    if puzzle.len() != CELLS || solution.len() != CELLS {
        return None;
    }
    let mut clues: Vec<usize> = cells_of(puzzle, false);
    let mut opens: Vec<usize> = cells_of(puzzle, true);
    if clues.len() < gone || opens.len() < new {
        return None;
    }
    let ghost clues0 = clues@;
    let ghost opens0 = opens@;
    let mut q: Vec<u8> = puzzle.clone();
    assert(q@ =~= puzzle@);
    rng::shuffle(&mut clues, rng);
    proof {
        puzzle_text::lemma_reordered(puzzle@, false, clues0, clues@);
    }
    let mut k: usize = 0;
    while k < gone
        invariant
            k <= gone <= clues@.len(),
            puzzle@.len() == CELLS,
            q@.len() == CELLS,
            forall|j: int| 0 <= j < clues@.len() ==> (#[trigger] clues@[j]) < CELLS,
            q@ == emptied(puzzle@, clues@.take(k as int)),
        decreases gone - k,
    {
        q.set(clues[k], EMPTIED);
        assert(clues@.take(k + 1).drop_last() =~= clues@.take(k as int));
        k += 1;
    }
    let ghost m = q@;
    rng::shuffle(&mut opens, rng);
    proof {
        puzzle_text::lemma_reordered(puzzle@, true, opens0, opens@);
    }
    let ghost drawn = drawn_exchange(
        puzzle@,
        solution@,
        gone as int,
        new as int,
        rng::state(*old(rng)),
    );
    let ghost inn = opens@.take(new as int);
    proof {
        assert(drawn == if forall|k: int|
            0 <= k < new ==> puzzle_text::is_digit(solution@[(#[trigger] inn[k]) as int]) {
            (Some(shown(m, solution@, inn)), rng::state(*rng))
        } else {
            (None::<Seq<u8>>, rng::state(*rng))
        });
    }
    let mut l: usize = 0;
    while l < new
        invariant
            drawn == drawn_exchange(
                puzzle@,
                solution@,
                gone as int,
                new as int,
                rng::state(*old(rng)),
            ),
            inn == opens@.take(new as int),
            drawn == if forall|k: int|
                0 <= k < new ==> puzzle_text::is_digit(solution@[(#[trigger] inn[k]) as int]) {
                (Some(shown(m, solution@, inn)), rng::state(*rng))
            } else {
                (None::<Seq<u8>>, rng::state(*rng))
            },
            l <= new <= opens@.len(),
            solution@.len() == CELLS,
            q@.len() == CELLS,
            forall|j: int| 0 <= j < opens@.len() ==> (#[trigger] opens@[j]) < CELLS,
            forall|j: int|
                0 <= j < l ==> puzzle_text::is_digit(solution@[(#[trigger] opens@[j]) as int]),
            q@ == shown(m, solution@, opens@.take(l as int)),
        decreases new - l,
    {
        let c: usize = opens[l];
        let v: u8 = solution[c];
        if !shows_digit(v) {
            assert(inn[l as int] == c);
            return None;
        }
        q.set(c, v);
        assert(opens@.take(l + 1).drop_last() =~= opens@.take(l as int));
        l += 1;
    }
    proof {
        let out = clues@.take(gone as int);
        assert forall|j: int| 0 <= j < out.len() implies (#[trigger] out[j]) < puzzle@.len()
            && !puzzle_text::is_open(puzzle@[out[j] as int]) by {
            assert(out[j] == clues@[j]);
        }
        assert forall|j: int| 0 <= j < inn.len() implies (#[trigger] inn[j]) < puzzle@.len()
            && puzzle_text::is_open(puzzle@[inn[j] as int]) && puzzle_text::is_digit(
            solution@[inn[j] as int],
        ) by {
            assert(inn[j] == opens@[j]);
        }
        assert(exchanges(puzzle@, solution@, out, inn, q@));
    }
    Some(q)
}

/// `m` is a puzzle from which taking away clues leads to `q`, and it is `gone` clues and
/// `new` open cells from an expansion of `p`.
pub open spec fn is_next_by(
    p: Seq<u8>,
    sol: Seq<u8>,
    gone: nat,
    new: nat,
    q: Seq<u8>,
    e: Seq<u8>,
    m: Seq<u8>,
) -> bool {
    &&& expand::only_adds(p, sol, e)
    &&& (expand::is_puzzle(p) && exists|x: Seq<int>| #[trigger] expand::solved_by(p).contains(x))
        ==> expand::is_expanded(p, sol, e)
    &&& goes(e, sol, gone, new, m)
    &&& is_part(q, m)
    &&& is_minimal(q)
    &&& expand::solved_by(q) == expand::solved_by(m)
}

/// `q` is what is left of `p` once it was expanded, exchanged and reduced.
pub open spec fn is_next(p: Seq<u8>, sol: Seq<u8>, gone: nat, new: nat, q: Seq<u8>) -> bool {
    exists|e: Seq<u8>, m: Seq<u8>| #[trigger] is_next_by(p, sol, gone, new, q, e, m)
}

/// An expansion of a puzzle with one solution has one solution.
proof fn lemma_expansion_unique(p: Seq<u8>, sol: Seq<u8>, e: Seq<u8>)
    requires
        p.len() == CELLS,
        sol.len() == CELLS,
        puzzle_text::all_digits(sol),
        is_unique(p),
        expand::solved_by(p).contains(expand::digits_shown(sol)),
        expand::is_expanded(p, sol, e),
    ensures
        is_unique(e),
{
    let a = expand::solved_by(p);
    let b = expand::solved_by(e);
    expand::law_one_expansion(p, sol, e, e);
    assert(b.subset_of(a)) by {
        assert forall|s: Seq<int>| b.contains(s) implies a.contains(s) by {
            let v = expand::digits_shown(p);
            let w = expand::digits_shown(e);
            assert forall|i: int| 0 <= i < s.len() && #[trigger] v[i] != 0 implies s[i] == v[i] by {
                assert(!puzzle_text::is_open(p[i]));
                assert(e[i] == p[i]);
                assert(w[i] != 0);
            }
        }
    }
    lemma_solved_by_finite(p);
    lemma_solved_by_finite(e);
    vstd::set_lib::lemma_len_subset(b, a);
    if b.len() == 0 {
        b.lemma_len0_is_empty();
    }
}

/// What becomes of `p`, whose expansion is `e`, with a generator that holds the words `words`:
/// the expansion is exchanged and reduced, if that leaves another puzzle with one solution.
/// The words that the generator holds afterwards.
pub open spec fn drawn_next(
    p: Seq<u8>,
    sol: Seq<u8>,
    e: Seq<u8>,
    gone: int,
    new: int,
    words: Seq<u64>,
) -> (Option<Seq<u8>>, Seq<u64>) {
    let x = drawn_exchange(e, sol, gone, new, words);
    match x.0 {
        None => x,
        Some(m) => if is_unique(m) {
            let q = reduced(m, x.1, puzzle_text::clue_total(m));
            if q.0 == p {
                (None, q.1)
            } else {
                (Some(q.0), q.1)
            }
        } else {
            (None, x.1)
        },
    }
}

/// `e` is what the exchange starts from: the puzzle with the digits of the solution that singles
/// decide, and that means all of them where the puzzle has a solution.
pub open spec fn is_start(p: Seq<u8>, sol: Seq<u8>, e: Seq<u8>) -> bool {
    &&& expand::only_adds(p, sol, e)
    &&& if p.len() == CELLS && sol.len() == CELLS && expand::is_puzzle(p) {
        expand::is_played(p, sol, e)
    } else {
        e == p
    }
    &&& (p.len() == CELLS && sol.len() == CELLS && expand::is_puzzle(p) && exists|x: Seq<int>|
        #[trigger] expand::solved_by(p).contains(x)) ==> expand::is_expanded(p, sol, e)
}

/// A step between minimal puzzles: expands the puzzle by its singles, exchanges clues, and
/// takes away what is to spare. There is no result where the exchange cannot be made, where
/// it leaves more than one solution, or where the step leads back to the puzzle.
pub fn bxb_mutate_once_v3(
    puzzle: &Vec<u8>,
    solution: &Vec<u8>,
    gone: usize,
    new: usize,
    rng: &mut Xoshiro256PlusPlus,
) -> (r: Option<Vec<u8>>)
    ensures
        puzzle@.len() != CELLS || solution@.len() != CELLS ==> r is None,
        r matches Some(q) ==> q@ != puzzle@ && is_next(
            puzzle@,
            solution@,
            gone as nat,
            new as nat,
            q@,
        ),
        gone == 0 && new == 0 && puzzle@.len() == CELLS && solution@.len() == CELLS
            && puzzle_text::all_digits(solution@) && is_unique(puzzle@) && !is_minimal(puzzle@)
            && expand::solved_by(puzzle@).contains(expand::digits_shown(solution@)) ==> r is Some,
        exists|e: Seq<u8>| #[trigger]
            is_start(puzzle@, solution@, e) && (
                match r {
                    Some(q) => Some(q@),
                    None => None,
                },
                rng::state(*final(rng)),
            ) == drawn_next(
                puzzle@,
                solution@,
                e,
                gone as int,
                new as int,
                rng::state(*old(rng)),
            ),
{
    let e: Vec<u8> = brt_expand(puzzle, solution);
    assert(is_start(puzzle@, solution@, e@));
    proof {
        if puzzle@.len() == CELLS && solution@.len() == CELLS && puzzle_text::all_digits(solution@)
            && is_unique(puzzle@) && expand::solved_by(puzzle@).contains(
            expand::digits_shown(solution@),
        ) {
            lemma_expansion_unique(puzzle@, solution@, e@);
        }
        puzzle_text::lemma_total_bound(e@);
    }
    let m: Vec<u8> = match go_p_q(&e, solution, gone, new, rng) {
        Some(m) => m,
        None => {
            return None;
        },
    };
    proof {
        if gone == 0 && new == 0 {
            let (out, inn) = choose|out: Seq<usize>, inn: Seq<usize>|
                #[trigger] exchanges(e@, solution@, out, inn, m@) && out.len() == 0 && inn.len() == 0;
            assert(m@ == e@);
        }
    }
    proof {
        law_exchange(e@, solution@, gone as nat, new as nat, m@);
    }
    let q: Vec<u8> = match reminimize(&m, rng) {
        Some(q) => q,
        None => {
            return None;
        },
    };
    if same_bytes(&q, puzzle) {
        return None;
    }
    assert(is_next_by(puzzle@, solution@, gone as nat, new as nat, q@, e@, m@));
    Some(q)
}

/// The next puzzle has one solution and no clue to spare, and if the puzzle agrees with the
/// solution then so does the next one.
pub proof fn law_next_is_minimal(p: Seq<u8>, sol: Seq<u8>, gone: nat, new: nat, q: Seq<u8>)
    requires
        p.len() == sol.len(),
        is_next(p, sol, gone, new, q),
    ensures
        is_minimal(q),
        puzzle_text::agrees(p, sol) ==> puzzle_text::agrees(q, sol),
{
    let (e, m) = choose|e: Seq<u8>, m: Seq<u8>| #[trigger] is_next_by(p, sol, gone, new, q, e, m);
    if puzzle_text::agrees(p, sol) {
        assert forall|i: int| 0 <= i < e.len() && !puzzle_text::is_open(#[trigger] e[i]) implies e[i]
            == sol[i] by {
            assert(e[i] == p[i] || e[i] == sol[i]);
        }
        law_exchange(e, sol, gone, new, m);
        assert forall|i: int| 0 <= i < q.len() && !puzzle_text::is_open(#[trigger] q[i]) implies q[i]
            == sol[i] by {
            assert(q[i] == m[i] || q[i] == EMPTIED);
        }
        law_exchange(e, sol, gone, new, m);
    }
}

} // verus!
