//! What steps are made, and what comes of them.

use super::climb::{
    is_mismatch, is_screened, is_taken, rated_verdict, stalled, step_size, BxbMutator, ClimbRules,
    Screened, Verdict,
};
use super::entries;
use super::entries::BxbEntry;
use super::expand;
use super::minimal;
use super::moves::{playable, played, wanted, Move};
use super::puzzle_text;
use super::stream::picked;
use super::tridagon::{others_upto, worth_keeping};
use crate::generic::grid;
use vstd::prelude::*;

verus! {

/// Half of the words ask for a swap, a quarter for a removal and a quarter for an addition.
pub proof fn law_moves_in_their_shares(word: u64)
    ensures
        wanted(word) == Move::Swap <==> word < 0x8000_0000_0000_0000,
        wanted(word) == Move::Remove <==> 0x8000_0000_0000_0000 <= word
            < 0xc000_0000_0000_0000,
        wanted(word) == Move::Add <==> 0xc000_0000_0000_0000 <= word,
{
}

/// A move can always be played where there is a clue or an open cell, and it is the one that is
/// wanted wherever that can be. A swap needs both, a removal a clue, an addition an open cell; a
/// swap that cannot be played becomes a removal if there is a clue.
pub proof fn law_moves_that_can_be_played(want: Move, clues: int, opens: int)
    requires
        clues >= 0,
        opens >= 0,
    ensures
        playable(want, clues, opens) is None <==> clues == 0 && opens == 0,
        want == Move::Swap && clues > 0 && opens > 0 ==> playable(want, clues, opens) == Some(want),
        want == Move::Remove && clues > 0 ==> playable(want, clues, opens) == Some(want),
        want == Move::Add && opens > 0 ==> playable(want, clues, opens) == Some(want),
        want != Move::Add && clues == 0 && opens > 0 ==> playable(want, clues, opens) == Some(
            Move::Add,
        ),
        want != Move::Remove && clues > 0 && opens == 0 ==> playable(want, clues, opens) == Some(
            Move::Remove,
        ),
{
}

/// A move shows the digit of the solution in one open cell, empties one clue, or both, and
/// changes no other cell.
pub proof fn law_moves_change_their_cells(
    p: Seq<u8>,
    sol: Seq<u8>,
    mv: Move,
    a: int,
    c: int,
    i: int,
)
    requires
        0 <= a < p.len(),
        0 <= c < p.len(),
        a != c,
        0 <= i < p.len(),
    ensures
        played(p, sol, mv, a, c).len() == p.len(),
        mv != Move::Remove ==> played(p, sol, mv, a, c)[a] == sol[a],
        mv != Move::Add ==> puzzle_text::is_open(played(p, sol, mv, a, c)[c]),
        i != a && i != c ==> played(p, sol, mv, a, c)[i] == p[i],
        mv == Move::Remove ==> played(p, sol, mv, a, c)[a] == p[a],
        mv == Move::Add ==> played(p, sol, mv, a, c)[c] == p[c],
{
}

/// A rating above the best so far is better, the same is level, below is worse; the climb goes to
/// what is better or level, and to nothing else.
pub proof fn law_verdicts(rating: Option<u16>, best: u16)
    ensures
        rating is None <==> rated_verdict(rating, best) == Verdict::Unrated,
        (rating matches Some(x) && x > best) <==> rated_verdict(rating, best) == Verdict::Better,
        (rating matches Some(x) && x == best) <==> rated_verdict(rating, best) == Verdict::Level,
        (rating matches Some(x) && x < best) <==> rated_verdict(rating, best) == Verdict::Worse,
        is_taken(rated_verdict(rating, best)) <==> (rating matches Some(x) && x >= best),
{
}

/// Only a better rating ends a stall, only a puzzle that was looked at before leaves it as it is,
/// and all else makes it longer.
pub proof fn law_stalls(v: Verdict, stall: int)
    requires
        stall >= 0,
    ensures
        stalled(v, stall) == 0 <==> v == Verdict::Better || (v == Verdict::Seen && stall == 0),
        v == Verdict::Seen ==> stalled(v, stall) == stall,
        v != Verdict::Seen && v != Verdict::Better ==> stalled(v, stall) == stall + 1,
{
}

/// With two sizes the first is used for the first ten steps of a stall, and then the second; with
/// one it is used always.
pub proof fn law_step_sizes(small: u8, large: u8, stall: int)
    ensures
        step_size(seq![small], stall) == small,
        stall < 10 ==> step_size(seq![small, large], stall) == small,
        stall >= 10 ==> step_size(seq![small, large], stall) == large,
{
}

/// The number of clues keeps a proposal out just if it has to stay what it was and does not, and
/// never where puzzles are reduced.
pub proof fn law_clue_counts(rules: ClimbRules, seed_clues: int, q: Seq<u8>)
    ensures
        is_mismatch(rules, seed_clues, q) ==> puzzle_text::clue_total(q) != seed_clues,
        rules.mutator == BxbMutator::V3 || rules.allow_clue_count_change ==> !is_mismatch(
            rules,
            seed_clues,
            q,
        ),
        rules.mutator != BxbMutator::V3 && !rules.allow_clue_count_change ==> is_mismatch(
            rules,
            seed_clues,
            q,
        ) == (puzzle_text::clue_total(q) != seed_clues),
{
}

/// A proposal is rated just if its number of clues does not keep it out, it is a puzzle, its hash
/// is neither that of a seed nor one that was seen, and it has one solution.
pub proof fn law_what_is_rated(
    rules: ClimbRules,
    seed_clues: int,
    before: Set<u128>,
    seen: Set<u128>,
    q: Seq<u8>,
    r: Screened,
)
    requires
        is_screened(rules, seed_clues, before, seen, q, r),
    ensures
        r is Fresh <==> !is_mismatch(rules, seed_clues, q) && expand::is_puzzle(q)
            && !before.contains(entries::hash_text(q)) && !seen.contains(entries::hash_text(q))
            && expand::solved_by(q).len() == 1,
        r matches Screened::Fresh(_, s) ==> expand::solved_by(q) == set![
            expand::digits_shown(s@),
        ],
        before.contains(entries::hash_text(q)) ==> !(r is Fresh),
        seen.contains(entries::hash_text(q)) ==> !(r is Fresh),
{
}

/// A puzzle with a new hash is not dropped while there is room: of each hash that was not seen
/// some puzzle is put out.
pub proof fn law_nothing_new_is_dropped(es: Seq<BxbEntry>, seen: Set<u128>, room: int, i: int) -> (j:
    int)
    requires
        room >= es.len(),
        0 <= i < es.len(),
        expand::is_puzzle(es[i].puzzle@),
        !seen.contains(entries::hash_text(es[i].puzzle@)),
    ensures
        0 <= j < picked(es, seen, room).len(),
        entries::hash_text(picked(es, seen, room)[j].puzzle@) == entries::hash_text(
            es[i].puzzle@,
        ),
    decreases es.len(),
{
    let h = entries::hash_text(es[0].puzzle@);
    let rest = es.drop_first();
    if expand::is_puzzle(es[0].puzzle@) && !seen.contains(h) {
        let t = picked(rest, seen.insert(h), room - 1);
        assert(picked(es, seen, room) == seq![es[0]] + t);
        if entries::hash_text(es[i].puzzle@) == h {
            0
        } else {
            assert(rest[i - 1] == es[i]);
            let k = law_nothing_new_is_dropped(rest, seen.insert(h), room - 1, i - 1);
            assert((seq![es[0]] + t)[k + 1] == t[k]);
            k + 1
        }
    } else {
        assert(i > 0);
        assert(rest[i - 1] == es[i]);
        law_nothing_new_is_dropped(rest, seen, room, i - 1)
    }
}

/// A renamed puzzle is kept just if it is another one and has one solution.
pub proof fn law_renamed_puzzles(puzzle: Seq<u8>, q: Vec<u8>, s: Vec<u8>)
    ensures
        worth_keeping(puzzle, None) is None,
        worth_keeping(puzzle, Some((q, s))) is Some <==> q@ != puzzle && expand::is_puzzle(q@)
            && expand::solved_by(q@).len() == 1,
        worth_keeping(puzzle, Some((q, s))) matches Some(x) ==> x == (q, s),
{
    assert(minimal::is_unique(q@) == (expand::is_puzzle(q@) && expand::solved_by(q@).len() == 1));
}

/// The digits that a tridagon does not have are all of the nine but its own, each once.
pub proof fn law_other_digits(t: Seq<u8>, d: int, x: u8)
    requires
        t.len() == 3,
        0 <= d <= 9,
    ensures
        others_upto(t, d).contains(x) <==> 1 <= x <= d && x != t[0] && x != t[1] && x != t[2],
        others_upto(t, d).no_duplicates(),
    decreases d,
{
    if d > 0 {
        law_other_digits(t, d - 1, x);
        let a = others_upto(t, d - 1);
        let b = others_upto(t, d);
        if d != t[0] && d != t[1] && d != t[2] {
            law_other_digits(t, d - 1, d as u8);
            assert(b == a.push(d as u8));
            assert(b[a.len() as int] == d);
            if a.contains(x) {
                let i = choose|i: int| 0 <= i < a.len() && a[i] == x;
                assert(b[i] == x);
            }
            if b.contains(x) && x != d {
                let i = choose|i: int| 0 <= i < b.len() && b[i] == x;
                assert(a[i] == x);
            }
            assert(b.no_duplicates()) by {
                assert(!a.contains(d as u8));
                assert forall|i: int, j: int| 0 <= i < j < b.len() implies b[i] != b[j] by {
                    if j == a.len() {
                        assert(a[i] == b[i]);
                        assert(a.contains(a[i]));
                    }
                }
            }
        }
    }
}

/// The clues of two parts add up, and every character but a point and a nought is one.
pub proof fn law_clues_add_up(a: Seq<u8>, b: Seq<u8>, x: u8)
    ensures
        puzzle_text::clue_total(a + b) == puzzle_text::clue_total(a) + puzzle_text::clue_total(b),
        puzzle_text::clue_total(seq![x]) == if x == 0x2e || x == 0x30 {
            0int
        } else {
            1
        },
    decreases b.len(),
{
    if b.len() == 0 {
        assert(a + b =~= a);
    } else {
        law_clues_add_up(a, b.drop_last(), x);
        assert((a + b).drop_last() =~= a + b.drop_last());
    }
    assert(seq![x].drop_last() =~= Seq::<u8>::empty());
    assert(puzzle_text::clue_total(seq![x].drop_last()) == 0);
    assert(seq![x].last() == x);
}

/// The open cells, or those with a clue, are listed in ascending order, each of them and no
/// other.
pub proof fn law_cells_are_listed(p: Seq<u8>, open: bool, n: int, c: usize)
    requires
        0 <= n <= p.len(),
        p.len() <= usize::MAX,
    ensures
        puzzle_text::cells_below(p, open, n).contains(c) <==> c < n && (p[c as int] == 0x2e
            || p[c as int] == 0x30) == open,
        forall|i: int, j: int|
            0 <= i < j < puzzle_text::cells_below(p, open, n).len() ==> puzzle_text::cells_below(
                p,
                open,
                n,
            )[i] < puzzle_text::cells_below(p, open, n)[j],
        forall|i: int|
            0 <= i < puzzle_text::cells_below(p, open, n).len()
                ==> #[trigger] puzzle_text::cells_below(p, open, n)[i] < n,
    decreases n,
{
    if n > 0 {
        law_cells_are_listed(p, open, n - 1, c);
        let a = puzzle_text::cells_below(p, open, n - 1);
        let b = puzzle_text::cells_below(p, open, n);
        if puzzle_text::is_open(p[n - 1]) == open {
            assert(b == a.push((n - 1) as usize));
            assert(b[a.len() as int] == n - 1);
            if a.contains(c) {
                let i = choose|i: int| 0 <= i < a.len() && a[i] == c;
                assert(b[i] == c);
            }
            if b.contains(c) && c != n - 1 {
                let i = choose|i: int| 0 <= i < b.len() && b[i] == c;
                assert(a[i] == c);
            }
            assert forall|i: int| 0 <= i < b.len() implies #[trigger] b[i] < n by {
                if i < a.len() {
                    assert(b[i] == a[i]);
                }
            }
        }
    }
}

/// A minimal puzzle has one solution, and whichever clue is taken from it, it has another as
/// well.
pub proof fn law_minimal_puzzles(p: Seq<u8>, i: int)
    requires
        p.len() == 81,
        minimal::is_minimal(p),
        0 <= i < p.len(),
        p[i] != 0x2e,
        p[i] != 0x30,
    ensures
        expand::solved_by(p).len() == 1,
        exists|s: Seq<int>| #[trigger]
            expand::solved_by(p.update(i, 0x2e)).contains(s) && !expand::solved_by(p).contains(s),
{
    let q = p.update(i, 0x2e);
    assert(!puzzle_text::is_open(p[i]));
    assert(!minimal::is_unique(p.update(i, puzzle_text::EMPTIED)));
    let v = expand::digits_shown(p);
    let w = expand::digits_shown(q);
    let (a, b) = (expand::solved_by(p), expand::solved_by(q));
    assert forall|j: int| 0 <= j < 81 implies #[trigger] w[j] == if j == i {
        0
    } else {
        v[j]
    } by {}
    assert(a.subset_of(b)) by {
        assert forall|s: Seq<int>| a.contains(s) implies b.contains(s) by {
            assert forall|j: int| 0 <= j < s.len() && #[trigger] w[j] != 0 implies s[j] == w[j] by {
                assert(v[j] == w[j]);
            }
        }
    }
    if b.subset_of(a) {
        assert(a =~= b);
        assert(grid::readable(expand::shape(), q)) by {
            assert forall|j: int| 0 <= j < 81 implies grid::cell_value(#[trigger] q[j]) is Some
                && grid::cell_value(q[j])->0 <= 9 by {
                assert(grid::cell_value(p[j]) is Some);
            }
        }
        assert(a.len() == 1);
        let s = a.choose();
        assert(a.contains(s));
        grid::lemma_held_clues_agree(expand::shape(), w, s);
        assert(minimal::is_unique(q));
    }
}

} // verus!
