//! Random steps from one puzzle to another.

use super::puzzle_text;
use super::puzzle_text::{cells_of, shows_digit, CELLS, EMPTIED};
use crate::generic::mutation;
use crate::generic::mutation::same_bytes;
use crate::generic::rng;
use rand_xoshiro::Xoshiro256PlusPlus;
use vstd::prelude::*;

verus! {

/// `q` is `p` with another digit for each clue of `cells`.
pub open spec fn replaces_at(p: Seq<u8>, q: Seq<u8>, cells: Seq<usize>) -> bool {
    &&& q.len() == p.len()
    &&& cells.no_duplicates()
    &&& forall|k: int|
        0 <= k < cells.len() ==> {
            &&& (#[trigger] cells[k]) < p.len()
            &&& !puzzle_text::is_open(p[cells[k] as int])
            &&& puzzle_text::is_digit(q[cells[k] as int])
            &&& q[cells[k] as int] != p[cells[k] as int]
        }
    &&& forall|i: int|
        0 <= i < p.len() && !cells.contains(i as usize) ==> #[trigger] q[i] == p[i]
}

/// `q` is `p` with another digit for each of `n` clues.
pub open spec fn replaces_n(p: Seq<u8>, q: Seq<u8>, n: nat) -> bool {
    exists|cells: Seq<usize>| #[trigger] replaces_at(p, q, cells) && cells.len() == n
}

/// Replacing digits keeps every clue in its cell, and gives another puzzle.
pub proof fn law_replacing_keeps_the_pattern(p: Seq<u8>, q: Seq<u8>, n: nat)
    requires
        replaces_n(p, q, n),
        p.len() <= usize::MAX,
    ensures
        q.len() == p.len(),
        forall|i: int|
            0 <= i < p.len() ==> puzzle_text::is_open(#[trigger] p[i]) == puzzle_text::is_open(q[i]),
        puzzle_text::clue_total(q) == puzzle_text::clue_total(p),
        0 < n ==> q != p,
{
    let cells = choose|cells: Seq<usize>| #[trigger] replaces_at(p, q, cells) && cells.len() == n;
    assert forall|i: int| 0 <= i < p.len() implies puzzle_text::is_open(#[trigger] p[i])
        == puzzle_text::is_open(q[i]) by {
        if cells.contains(i as usize) {
            let k = choose|k: int| 0 <= k < cells.len() && cells[k] == i as usize;
            assert(!puzzle_text::is_open(p[cells[k] as int]));
            assert(puzzle_text::is_digit(q[cells[k] as int]));
        } else {
            assert(q[i] == p[i]);
        }
    }
    puzzle_text::lemma_same_pattern(p, q);
    if 0 < n {
        assert(q[cells[0] as int] != p[cells[0] as int]);
    }
}

/// `p` with other digits in the first `k` of the cells, each drawn by a generator that holds
/// the words `words` before; the words that it holds afterwards.
pub open spec fn drawn_digits(p: Seq<u8>, cells: Seq<usize>, k: int, words: Seq<u64>) -> (
    Seq<u8>,
    Seq<u64>,
)
    decreases k,
{
    if k <= 0 {
        (p, words)
    } else {
        let b = drawn_digits(p, cells, k - 1, words);
        let c = cells[k - 1] as int;
        let ds = mutation::drawn_others(b.0[c], b.1);
        (b.0.update(c, ds.0[0]), ds.1)
    }
}

/// `p` with another digit for each of `n` clues, drawn by a generator that holds the words
/// `words`; the words that it holds afterwards.
pub open spec fn drawn_replacement(p: Seq<u8>, n: int, words: Seq<u64>) -> (Seq<u8>, Seq<u64>) {
    let cells = puzzle_text::cells_below(p, false, p.len() as int);
    let shuffled = rng::shuffle_of(cells.len(), words);
    drawn_digits(p, rng::picked(cells, shuffled.0), n, shuffled.1)
}

/// Gives `n` clues, drawn at random, another digit each. There is a result if there are `n`
/// clues, and `n` is not 0. The clues are shuffled if there are `n`, also where that is 0.
pub fn bxb_mutate_once(puzzle: &Vec<u8>, n: usize, rng: &mut Xoshiro256PlusPlus) -> (r: Option<
    Vec<u8>,
>)
    ensures
        r is Some == (0 < n <= puzzle_text::clue_total(puzzle@)),
        r matches Some(q) ==> replaces_n(puzzle@, q@, n as nat) && q@ == drawn_replacement(
            puzzle@,
            n as int,
            rng::state(*old(rng)),
        ).0,
        rng::state(*final(rng)) == if n <= puzzle_text::clue_total(puzzle@) {
            drawn_replacement(puzzle@, n as int, rng::state(*old(rng))).1
        } else {
            rng::state(*old(rng))
        },
{
    let mut cells: Vec<usize> = cells_of(puzzle, false);
    if cells.len() < n {
        return None;
    }
    let ghost before = cells@;
    rng::shuffle(&mut cells, rng);
    proof {
        puzzle_text::lemma_reordered(puzzle@, false, before, cells@);
    }
    let mut q: Vec<u8> = puzzle.clone();
    assert(q@ =~= puzzle@);
    let ghost words = rng::state(*rng);
    let mut k: usize = 0;
    while k < n
        invariant
            (q@, rng::state(*rng)) == drawn_digits(puzzle@, cells@, k as int, words),
            k <= n <= cells@.len(),
            cells@.no_duplicates(),
            forall|k: int|
                0 <= k < cells@.len() ==> (#[trigger] cells@[k]) < puzzle@.len()
                    && !puzzle_text::is_open(puzzle@[cells@[k] as int]),
            replaces_at(puzzle@, q@, cells@.take(k as int)),
        decreases n - k,
    {
        let cell: usize = cells[k];
        let ghost was = q@;
        assert(!cells@.take(k as int).contains(cell)) by {
            if cells@.take(k as int).contains(cell) {
                let j = choose|j: int| 0 <= j < k && cells@.take(k as int)[j] == cell;
                assert(cells@[j] == cells@[k as int]);
            }
        }
        assert(q@[cell as int] == puzzle@[cell as int]);
        let d: u8 = another_digit(q[cell], rng);
        q.set(cell, d);
        proof {
            let t = cells@.take(k as int);
            let u = cells@.take(k + 1);
            assert forall|j: int| 0 <= j < u.len() implies {
                &&& (#[trigger] u[j]) < puzzle@.len()
                &&& !puzzle_text::is_open(puzzle@[u[j] as int])
                &&& puzzle_text::is_digit(q@[u[j] as int])
                &&& q@[u[j] as int] != puzzle@[u[j] as int]
            } by {
                assert(u[j] == cells@[j]);
                if j < k {
                    assert(t[j] == cells@[j]);
                    assert(cells@[j] != cells@[k as int]);
                }
            }
            assert forall|i: int| 0 <= i < puzzle@.len() && !u.contains(i as usize) implies
                #[trigger] q@[i] == puzzle@[i] by {
                assert(u[k as int] == cell);
                if t.contains(i as usize) {
                    let j = choose|j: int| 0 <= j < t.len() && t[j] == i as usize;
                    assert(u[j] == i as usize);
                }
                assert(was[i] == puzzle@[i]);
            }
        }
        k += 1;
    }
    if n == 0 {
        return None;
    }
    assert(replaces_at(puzzle@, q@, cells@.take(n as int)));
    proof {
        law_replacing_keeps_the_pattern(puzzle@, q@, n as nat);
    }
    Some(q)
}

/// A digit other than `cur`, drawn at random.
fn another_digit(cur: u8, rng: &mut Xoshiro256PlusPlus) -> (d: u8)
    ensures
        puzzle_text::is_digit(d),
        d != cur,
        ({
            let ds = mutation::drawn_others(cur, rng::state(*old(rng)));
            d == ds.0[0] && rng::state(*final(rng)) == ds.1
        }),
{
    let v: Vec<u8> = mutation::other_digits(cur, rng);
    assert(mutation::is_clue_byte(v@[0]) && v@[0] != cur);
    v[0]
}

/// A kind of step between a puzzle and its solution.
#[derive(Debug, Clone, Copy, PartialEq, Eq, Structural)]
pub enum Move {
    /// Shows one open cell and empties one clue.
    Swap,
    /// Empties one clue.
    Remove,
    /// Shows one open cell.
    Add,
}

/// The kind that a random word asks for: half of the words a swap, a quarter a removal, a
/// quarter an addition.
pub open spec fn wanted(word: u64) -> Move {
    if word < 0x8000_0000_0000_0000 {
        Move::Swap
    } else if word < 0xc000_0000_0000_0000 {
        Move::Remove
    } else {
        Move::Add
    }
}

/// The kind that is played where `wanted` cannot be: a swap becomes a removal or else an
/// addition, and each of these becomes the other.
pub open spec fn playable(wanted: Move, clues: int, opens: int) -> Option<Move> {
    let swap = clues > 0 && opens > 0;
    if wanted == Move::Swap && swap {
        Some(Move::Swap)
    } else if wanted == Move::Add && opens > 0 {
        Some(Move::Add)
    } else if clues > 0 {
        Some(Move::Remove)
    } else if opens > 0 {
        Some(Move::Add)
    } else {
        None
    }
}

/// The kind of step for a random word.
pub fn choose_move(word: u64, clues: usize, opens: usize) -> (r: Option<Move>)
    ensures
        r == playable(wanted(word), clues as int, opens as int),
{
    let want: Move = if word < 0x8000_0000_0000_0000 {
        Move::Swap
    } else if word < 0xc000_0000_0000_0000 {
        Move::Remove
    } else {
        Move::Add
    };
    match want {
        Move::Swap => if clues > 0 && opens > 0 {
            Some(Move::Swap)
        } else if clues > 0 {
            Some(Move::Remove)
        } else if opens > 0 {
            Some(Move::Add)
        } else {
            None
        },
        Move::Remove => if clues > 0 {
            Some(Move::Remove)
        } else if opens > 0 {
            Some(Move::Add)
        } else {
            None
        },
        Move::Add => if opens > 0 {
            Some(Move::Add)
        } else if clues > 0 {
            Some(Move::Remove)
        } else {
            None
        },
    }
}

/// `p` after a step of kind `mv` that shows cell `a` and empties cell `c`.
pub open spec fn played(p: Seq<u8>, sol: Seq<u8>, mv: Move, a: int, c: int) -> Seq<u8> {
    match mv {
        Move::Swap => p.update(a, sol[a]).update(c, EMPTIED),
        Move::Remove => p.update(c, EMPTIED),
        Move::Add => p.update(a, sol[a]),
    }
}

/// `q` is one step of kind `mv` from `p`.
pub open spec fn is_step_by(p: Seq<u8>, sol: Seq<u8>, q: Seq<u8>, mv: Move, a: int, c: int) -> bool {
    &&& mv != Move::Remove ==> {
        &&& 0 <= a < p.len()
        &&& puzzle_text::is_open(p[a])
        &&& puzzle_text::is_digit(sol[a])
    }
    &&& mv != Move::Add ==> {
        &&& 0 <= c < p.len()
        &&& !puzzle_text::is_open(p[c])
    }
    &&& q == played(p, sol, mv, a, c)
}

/// `q` is one step from `p`.
pub open spec fn is_step(p: Seq<u8>, sol: Seq<u8>, q: Seq<u8>) -> bool {
    exists|mv: Move, a: int, c: int| #[trigger] is_step_by(p, sol, q, mv, a, c)
}

/// `q` is `n` steps from `p`.
pub open spec fn is_reached(p: Seq<u8>, sol: Seq<u8>, n: nat, q: Seq<u8>) -> bool
    decreases n,
{
    if n == 0 {
        q == p
    } else {
        exists|m: Seq<u8>| is_reached(p, sol, (n - 1) as nat, m) && #[trigger] is_step(m, sol, q)
    }
}

/// Steps keep the length, and each cell shows what it showed, nothing, or the digit of the
/// solution. So a puzzle that agrees with the solution leads to such puzzles only.
pub proof fn law_steps_follow_the_solution(p: Seq<u8>, sol: Seq<u8>, n: nat, q: Seq<u8>)
    requires
        p.len() == sol.len(),
        is_reached(p, sol, n, q),
    ensures
        q.len() == p.len(),
        forall|i: int|
            0 <= i < p.len() ==> #[trigger] q[i] == p[i] || q[i] == EMPTIED || (q[i] == sol[i]
                && puzzle_text::is_digit(sol[i])),
        puzzle_text::agrees(p, sol) ==> puzzle_text::agrees(q, sol),
    decreases n,
{
    if n > 0 {
        let m = choose|m: Seq<u8>|
            is_reached(p, sol, (n - 1) as nat, m) && #[trigger] is_step(m, sol, q);
        law_steps_follow_the_solution(p, sol, (n - 1) as nat, m);
        let (mv, a, c) = choose|mv: Move, a: int, c: int| #[trigger] is_step_by(m, sol, q, mv, a, c);
        assert forall|i: int| 0 <= i < p.len() implies #[trigger] q[i] == p[i] || q[i] == EMPTIED
            || (q[i] == sol[i] && puzzle_text::is_digit(sol[i])) by {
            assert(m[i] == p[i] || m[i] == EMPTIED || (m[i] == sol[i] && puzzle_text::is_digit(
                sol[i],
            )));
        }
    }
}

/// One step changes the number of clues by at most one: a swap keeps it, a removal takes one
/// away and an addition gives one. It always leads to another puzzle.
pub proof fn law_one_step(p: Seq<u8>, sol: Seq<u8>, q: Seq<u8>, mv: Move, a: int, c: int)
    requires
        is_step_by(p, sol, q, mv, a, c),
    ensures
        q != p,
        puzzle_text::clue_total(q) == puzzle_text::clue_total(p) + match mv {
            Move::Swap => 0int,
            Move::Remove => -1int,
            Move::Add => 1int,
        },
{
    match mv {
        Move::Swap => {
            puzzle_text::lemma_changed_total(p, a, sol[a]);
            puzzle_text::lemma_changed_total(p.update(a, sol[a]), c, EMPTIED);
            assert(q[c] != p[c]);
        },
        Move::Remove => {
            puzzle_text::lemma_changed_total(p, c, EMPTIED);
            assert(q[c] != p[c]);
        },
        Move::Add => {
            puzzle_text::lemma_changed_total(p, a, sol[a]);
            assert(q[a] != p[a]);
        },
    }
}

/// A cell of a list, drawn by a generator that holds the words `words`; the words that it
/// holds afterwards.
pub open spec fn drawn_cell(cells: Seq<usize>, words: Seq<u64>) -> (int, Seq<u64>) {
    let pick = rng::below_of(cells.len(), usize::BITS as nat, words);
    (cells[pick.0 as int] as int, pick.1)
}

/// `q` after one step drawn by a generator that holds the words `words`, if it can be played;
/// the words that it holds afterwards.
pub open spec fn drawn_step(q: Seq<u8>, sol: Seq<u8>, words: Seq<u64>) -> (
    Option<Seq<u8>>,
    Seq<u64>,
) {
    let clues = puzzle_text::cells_below(q, false, q.len() as int);
    let opens = puzzle_text::cells_below(q, true, q.len() as int);
    let word = rng::word_of(words);
    match playable(wanted(word.0), clues.len() as int, opens.len() as int) {
        None => (None, word.1),
        Some(Move::Remove) => {
            let c = drawn_cell(clues, word.1);
            (Some(played(q, sol, Move::Remove, 0, c.0)), c.1)
        },
        Some(Move::Add) => {
            let a = drawn_cell(opens, word.1);
            if puzzle_text::is_digit(sol[a.0]) {
                (Some(played(q, sol, Move::Add, a.0, 0)), a.1)
            } else {
                (None, a.1)
            }
        },
        Some(Move::Swap) => {
            let a = drawn_cell(opens, word.1);
            let c = drawn_cell(clues, a.1);
            if puzzle_text::is_digit(sol[a.0]) {
                (Some(played(q, sol, Move::Swap, a.0, c.0)), c.1)
            } else {
                (None, c.1)
            }
        },
    }
}

/// `p` after `n` steps, up to the first that cannot be played.
pub open spec fn drawn_steps(p: Seq<u8>, sol: Seq<u8>, words: Seq<u64>, n: nat) -> (
    Option<Seq<u8>>,
    Seq<u64>,
)
    decreases n,
{
    if n == 0 {
        (Some(p), words)
    } else {
        let b = drawn_steps(p, sol, words, (n - 1) as nat);
        match b.0 {
            Some(q) => drawn_step(q, sol, b.1),
            None => b,
        }
    }
}

/// A step that cannot be played is the last.
proof fn lemma_steps_end(p: Seq<u8>, sol: Seq<u8>, words: Seq<u64>, k: nat, n: nat)
    requires
        k <= n,
        drawn_steps(p, sol, words, k).0 is None,
    ensures
        drawn_steps(p, sol, words, n) == drawn_steps(p, sol, words, k),
    decreases n - k,
{
    if k < n {
        lemma_steps_end(p, sol, words, k, (n - 1) as nat);
    }
}

/// Plays `n` random steps. There is no result where a string has not 81 bytes, where a step
/// would show a byte of the solution that is no digit, or where the steps lead back to the
/// puzzle.
pub fn bxb_mutate_once_v2(
    puzzle: &Vec<u8>,
    solution: &Vec<u8>,
    n: usize,
    rng: &mut Xoshiro256PlusPlus,
) -> (r: Option<Vec<u8>>)
    ensures
        puzzle@.len() != CELLS || solution@.len() != CELLS ==> r is None && rng::state(*final(rng))
            == rng::state(*old(rng)),
        r matches Some(q) ==> q@ != puzzle@ && is_reached(puzzle@, solution@, n as nat, q@),
        r is None && puzzle@.len() == CELLS && solution@.len() == CELLS && puzzle_text::all_digits(
            solution@,
        ) ==> is_reached(puzzle@, solution@, n as nat, puzzle@),
        n == 1 && puzzle@.len() == CELLS && solution@.len() == CELLS && puzzle_text::all_digits(
            solution@,
        ) ==> r is Some,
        puzzle@.len() == CELLS && solution@.len() == CELLS ==> ({
            let drawn = drawn_steps(puzzle@, solution@, rng::state(*old(rng)), n as nat);
            &&& rng::state(*final(rng)) == drawn.1
            &&& match r {
                Some(q) => drawn.0 == Some(q@) && q@ != puzzle@,
                None => drawn.0 is None || drawn.0 == Some(puzzle@),
            }
        }),
{
    if puzzle.len() != CELLS || solution.len() != CELLS {
        return None;
    }
    let mut q: Vec<u8> = puzzle.clone();
    assert(q@ =~= puzzle@);
    let ghost words = rng::state(*rng);
    let mut k: usize = 0;
    while k < n
        invariant
            words == rng::state(*old(rng)),
            drawn_steps(puzzle@, solution@, words, k as nat) == (Some(q@), rng::state(*rng)),
            k <= n,
            puzzle@.len() == CELLS,
            solution@.len() == CELLS,
            q@.len() == CELLS,
            is_reached(puzzle@, solution@, k as nat, q@),
        decreases n - k,
    {
        let ghost before = rng::state(*rng);
        let clues: Vec<usize> = cells_of(&q, false);
        let opens: Vec<usize> = cells_of(&q, true);
        let word: u64 = rng::next_word(rng);
        let mv: Option<Move> = choose_move(word, clues.len(), opens.len());
        let ghost was = q@;
        match mv {
            Some(Move::Swap) => {
                let add: usize = opens[rng::below(opens.len(), rng)];
                let rem: usize = clues[rng::below(clues.len(), rng)];
                assert(puzzle_text::is_open(was[add as int]) && !puzzle_text::is_open(
                    was[rem as int],
                ));
                let v: u8 = solution[add];
                if !shows_digit(v) {
                    proof {
                        assert(drawn_steps(puzzle@, solution@, words, (k + 1) as nat)
                            == drawn_step(was, solution@, before));
                        lemma_steps_end(puzzle@, solution@, words, (k + 1) as nat, n as nat);
                    }
                    return None;
                }
                q.set(add, v);
                q.set(rem, EMPTIED);
                assert(is_step_by(was, solution@, q@, Move::Swap, add as int, rem as int));
            },
            Some(Move::Remove) => {
                let rem: usize = clues[rng::below(clues.len(), rng)];
                assert(!puzzle_text::is_open(was[rem as int]));
                q.set(rem, EMPTIED);
                assert(is_step_by(was, solution@, q@, Move::Remove, 0, rem as int));
            },
            Some(Move::Add) => {
                let add: usize = opens[rng::below(opens.len(), rng)];
                assert(puzzle_text::is_open(was[add as int]));
                let v: u8 = solution[add];
                if !shows_digit(v) {
                    proof {
                        assert(drawn_steps(puzzle@, solution@, words, (k + 1) as nat)
                            == drawn_step(was, solution@, before));
                        lemma_steps_end(puzzle@, solution@, words, (k + 1) as nat, n as nat);
                    }
                    return None;
                }
                q.set(add, v);
                assert(is_step_by(was, solution@, q@, Move::Add, add as int, 0));
            },
            None => {
                assert(false);
                return None;
            },
        }
        k += 1;
        assert(is_step(was, solution@, q@));
        assert(is_reached(puzzle@, solution@, (k - 1) as nat, was));
    }
    if same_bytes(&q, puzzle) {
        proof {
            if n == 1 {
                let m = choose|m: Seq<u8>|
                    is_reached(puzzle@, solution@, 0, m) && #[trigger] is_step(m, solution@, q@);
                let (mv, a, c) = choose|mv: Move, a: int, c: int|
                    #[trigger] is_step_by(m, solution@, q@, mv, a, c);
                law_one_step(m, solution@, q@, mv, a, c);
            }
        }
        return None;
    }
    Some(q)
}

} // verus!
