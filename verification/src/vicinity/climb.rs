//! The climb from a seed: each step proposes a puzzle, and goes there if it rates no lower.

use super::entries;
use super::entries::{hash_shown, solution_of, BxbEntry};
use super::expand;
use super::minimal;
use super::minimal::bxb_mutate_once_v3;
use super::moves;
use super::moves::{bxb_mutate_once, bxb_mutate_once_v2};
use super::puzzle_text;
use super::puzzle_text::{clue_count, CELLS};
use super::tridagon;
use super::tridagon::{bxb_mutate_once_v4, Tridagons};
use crate::generic::grid;
use crate::generic::grid::Grid;
use crate::generic::rng;
use crate::generic::search::count_solutions_up_to;
use rand_xoshiro::Xoshiro256PlusPlus;
use std::collections::HashSet;
use vstd::prelude::*;

verus! {

broadcast use vstd::std_specs::hash::group_hash_axioms;

/// Rates a puzzle by the braids that solve it.
pub trait BxbRater {
    /// The rating of a puzzle by braids of at most `max_length`, where there is one.
    fn rate_bxb(&mut self, puzzle: &Vec<u8>, max_length: u16, buffer_size: usize) -> Option<u16>;
}

/// `r` is a rating that a rater can give for a puzzle.
pub open spec fn may_rate_bxb<R: BxbRater>(
    q: Seq<u8>,
    max_length: u16,
    buffer_size: usize,
    r: Option<u16>,
) -> bool {
    exists|m: &mut R, p: &Vec<u8>|
        p@ == q && #[trigger] call_ensures(R::rate_bxb, (m, p, max_length, buffer_size), r)
}

/// How the next puzzle is proposed.
#[derive(Debug, Clone, Copy, PartialEq, Eq, Structural)]
pub enum BxbMutator {
    /// Other digits for some clues.
    V1,
    /// Clues exchanged for others of the solution.
    V2,
    /// Expanded by singles, exchanged and reduced.
    V3,
    /// The digits of a tridagon renamed.
    V4,
}

/// What a climb goes by.
pub struct ClimbRules {
    /// The rating from which on a puzzle is put out.
    pub target_bxb: u16,
    pub max_length: u16,
    pub buffer_size: usize,
    /// The sizes of a step: the first one, and the one for when the climb stalls.
    pub mute: Vec<u8>,
    pub mutator: BxbMutator,
    /// Puzzles with more or fewer clues than the seed are taken too.
    pub allow_clue_count_change: bool,
}

/// What happened to the proposals.
#[derive(Debug, Clone, Copy, PartialEq, Eq, Structural)]
pub struct BxbDiagnostics {
    pub n_mutations_proposed: usize,
    pub n_clue_mismatch: usize,
    pub n_canonical_dup: usize,
    pub n_uniqueness_fail: usize,
    pub n_rated: usize,
    pub n_above_target: usize,
    pub n_clue_count_changed: usize,
    pub n_tridagon_found: usize,
    pub n_v4_emit: usize,
}

/// The number of fruitless steps after which the step gets larger.
pub const STALL_THRESHOLD: usize = 10;

/// The number of waiting puzzles at which they are put out.
pub const BATCH_FLUSH: usize = 64;

/// A climb under way.
pub struct Climb {
    pub seed_clues: usize,
    pub current: BxbEntry,
    pub best_bxb: u16,
    /// The number of steps so far.
    pub iters: usize,
    /// The number of steps since the rating rose.
    pub stall: usize,
    /// The puzzles that wait to be put out.
    pub outputs: Vec<BxbEntry>,
    /// The hashes of the puzzles that were looked at.
    pub seen: HashSet<u128>,
    pub diag: BxbDiagnostics,
}

/// What came of a proposal.
#[derive(Debug, Clone, Copy, PartialEq, Eq, Structural)]
pub enum Verdict {
    /// Nothing could be proposed.
    NoCandidate,
    /// It has more or fewer clues than the seed.
    ClueMismatch,
    /// It is no puzzle.
    Unreadable,
    /// It was looked at before.
    Seen,
    /// It has no solution, or more than one.
    NotUnique,
    /// It could not be rated.
    Unrated,
    /// It rates lower.
    Worse,
    /// It rates the same, and the climb goes there.
    Level,
    /// It rates higher, and the climb goes there.
    Better,
}

impl BxbDiagnostics {
    /// Nothing happened yet.
    pub fn new() -> (r: Self)
        ensures
            r == (BxbDiagnostics {
                n_mutations_proposed: 0,
                n_clue_mismatch: 0,
                n_canonical_dup: 0,
                n_uniqueness_fail: 0,
                n_rated: 0,
                n_above_target: 0,
                n_clue_count_changed: 0,
                n_tridagon_found: 0,
                n_v4_emit: 0,
            }),
    {
        BxbDiagnostics {
            n_mutations_proposed: 0,
            n_clue_mismatch: 0,
            n_canonical_dup: 0,
            n_uniqueness_fail: 0,
            n_rated: 0,
            n_above_target: 0,
            n_clue_count_changed: 0,
            n_tridagon_found: 0,
            n_v4_emit: 0,
        }
    }

    /// No count is above `n`.
    pub open spec fn within(self, n: int) -> bool {
        &&& self.n_mutations_proposed <= n
        &&& self.n_clue_mismatch <= n
        &&& self.n_canonical_dup <= n
        &&& self.n_uniqueness_fail <= n
        &&& self.n_rated <= n
        &&& self.n_above_target <= n
        &&& self.n_clue_count_changed <= n
        &&& self.n_tridagon_found <= n
        &&& self.n_v4_emit <= n
    }

    /// The counts of two climbs together, which wrap around at the end of the range.
    pub fn merge(self, other: Self) -> (r: Self)
        ensures
            r.n_mutations_proposed == wrapped(self.n_mutations_proposed + other.n_mutations_proposed),
            r.n_clue_mismatch == wrapped(self.n_clue_mismatch + other.n_clue_mismatch),
            r.n_canonical_dup == wrapped(self.n_canonical_dup + other.n_canonical_dup),
            r.n_uniqueness_fail == wrapped(self.n_uniqueness_fail + other.n_uniqueness_fail),
            r.n_rated == wrapped(self.n_rated + other.n_rated),
            r.n_above_target == wrapped(self.n_above_target + other.n_above_target),
            r.n_clue_count_changed == wrapped(self.n_clue_count_changed + other.n_clue_count_changed),
            r.n_tridagon_found == wrapped(self.n_tridagon_found + other.n_tridagon_found),
            r.n_v4_emit == wrapped(self.n_v4_emit + other.n_v4_emit),
    {
        BxbDiagnostics {
            n_mutations_proposed: self.n_mutations_proposed.wrapping_add(other.n_mutations_proposed),
            n_clue_mismatch: self.n_clue_mismatch.wrapping_add(other.n_clue_mismatch),
            n_canonical_dup: self.n_canonical_dup.wrapping_add(other.n_canonical_dup),
            n_uniqueness_fail: self.n_uniqueness_fail.wrapping_add(other.n_uniqueness_fail),
            n_rated: self.n_rated.wrapping_add(other.n_rated),
            n_above_target: self.n_above_target.wrapping_add(other.n_above_target),
            n_clue_count_changed: self.n_clue_count_changed.wrapping_add(other.n_clue_count_changed),
            n_tridagon_found: self.n_tridagon_found.wrapping_add(other.n_tridagon_found),
            n_v4_emit: self.n_v4_emit.wrapping_add(other.n_v4_emit),
        }
    }
}

/// The number as it wraps around at the end of the range.
pub open spec fn wrapped(n: int) -> int {
    if n > usize::MAX {
        n - (usize::MAX + 1)
    } else {
        n
    }
}

/// The size of the next step.
pub open spec fn step_size(mute: Seq<u8>, stall: int) -> u8 {
    if mute.len() == 1 || stall < STALL_THRESHOLD {
        mute[0]
    } else {
        mute[1]
    }
}

/// `q` can be proposed from `p` with its solution by steps of size `n`.
pub open spec fn is_proposal(m: BxbMutator, p: Seq<u8>, sol: Seq<u8>, n: nat, q: Seq<u8>) -> bool {
    match m {
        BxbMutator::V1 => moves::replaces_n(p, q, n),
        BxbMutator::V2 => moves::is_reached(p, sol, n, q),
        BxbMutator::V3 => minimal::is_next(p, sol, n, n, q),
        BxbMutator::V4 => minimal::is_unique(q),
    }
}

/// A proposal, with its solution where the step renames that too.
pub struct Candidate {
    pub puzzle: Seq<u8>,
    pub given: Option<Seq<u8>>,
}

/// What a step that leaves the solution alone proposes.
pub open spec fn plain(q: Option<Seq<u8>>) -> Option<Candidate> {
    match q {
        Some(q) => Some(Candidate { puzzle: q, given: None }),
        None => None,
    }
}

/// What a step proposes.
pub open spec fn candidate_of(x: Option<(Vec<u8>, Option<Vec<u8>>)>) -> Option<Candidate> {
    match x {
        Some((q, given)) => Some(
            Candidate {
                puzzle: q@,
                given: match given {
                    Some(s) => Some(s@),
                    None => None,
                },
            },
        ),
        None => None,
    }
}

/// What a step that renames the digits of a tridagon proposes.
pub open spec fn renamed(x: Option<(Vec<u8>, Vec<u8>)>) -> Option<Candidate> {
    match x {
        Some((q, s)) => Some(Candidate { puzzle: q@, given: Some(s@) }),
        None => None,
    }
}

/// `c` is what a generator with the words `words` can propose from the puzzle `from` by steps of
/// size `n`, and `after` are its words afterwards.
pub open spec fn is_drawn<T: Tridagons>(
    m: BxbMutator,
    from: BxbEntry,
    n: nat,
    words: Seq<u64>,
    c: Option<Candidate>,
    after: Seq<u64>,
) -> bool {
    let p = from.puzzle@;
    let sol = from.solution@;
    match m {
        BxbMutator::V1 => if n <= puzzle_text::clue_total(p) {
            let drawn = moves::drawn_replacement(p, n as int, words);
            &&& after == drawn.1
            &&& c == if n == 0 {
                None
            } else {
                plain(Some(drawn.0))
            }
        } else {
            c is None && after == words
        },
        BxbMutator::V2 => if p.len() == CELLS && sol.len() == CELLS {
            let drawn = moves::drawn_steps(p, sol, words, n);
            &&& after == drawn.1
            &&& c == if drawn.0 == Some(p) {
                None
            } else {
                plain(drawn.0)
            }
        } else {
            c is None && after == words
        },
        BxbMutator::V3 => {
            &&& p.len() != CELLS || sol.len() != CELLS ==> c is None
            &&& exists|e: Seq<u8>| #[trigger]
                minimal::is_start(p, sol, e) && ({
                    let drawn = minimal::drawn_next(p, sol, e, n as int, n as int, words);
                    c == plain(drawn.0) && after == drawn.1
                })
        },
        BxbMutator::V4 => exists|x: Option<(Vec<u8>, Vec<u8>)>| #[trigger]
            tridagon::may_mutate::<T>(from.puzzle, from.solution, words, x, after) && c == renamed(
                x,
            ),
    }
}

/// The number of clues keeps a proposal out.
pub open spec fn is_mismatch(rules: ClimbRules, seed_clues: int, q: Seq<u8>) -> bool {
    rules.mutator != BxbMutator::V3 && !rules.allow_clue_count_change && puzzle_text::clue_total(q)
        != seed_clues
}

/// A proposal that was screened.
pub enum Screened {
    /// It is out.
    Out(Verdict),
    /// It has this hash, and was looked at before.
    Known(u128),
    /// It is new, has this hash, and has no solution or more than one.
    Ambiguous(u128),
    /// It is new, has this hash, and has one solution.
    Fresh(u128, Vec<u8>),
}

/// What a proposal is screened to.
pub open spec fn is_screened(
    rules: ClimbRules,
    seed_clues: int,
    before: Set<u128>,
    seen: Set<u128>,
    q: Seq<u8>,
    r: Screened,
) -> bool {
    let h = entries::hash_text(q);
    if is_mismatch(rules, seed_clues, q) {
        r == Screened::Out(Verdict::ClueMismatch)
    } else if !expand::is_puzzle(q) {
        r == Screened::Out(Verdict::Unreadable)
    } else if before.contains(h) || seen.contains(h) {
        r == Screened::Known(h)
    } else if expand::solved_by(q).len() != 1 {
        r == Screened::Ambiguous(h)
    } else {
        r matches Screened::Fresh(k, s) && k == h && s@.len() == 81 && puzzle_text::all_digits(s@)
            && expand::solved_by(q) == set![expand::digits_shown(s@)]
    }
}

/// Screens a proposal before it is rated.
pub fn screen(
    rules: &ClimbRules,
    seed_clues: usize,
    before: &HashSet<u128>,
    seen: &HashSet<u128>,
    q: &Vec<u8>,
) -> (r: Screened)
    ensures
        is_screened(*rules, seed_clues as int, before@, seen@, q@, r),
{
    let clues: usize = clue_count(q);
    if rules.mutator != BxbMutator::V3 && !rules.allow_clue_count_change && clues != seed_clues {
        return Screened::Out(Verdict::ClueMismatch);
    }
    let g: Grid<9, 3, 3> = match Grid::<9, 3, 3>::from_bytes(q.as_slice()) {
        Some(g) => g,
        None => {
            return Screened::Out(Verdict::Unreadable);
        },
    };
    let h: u128 = hash_shown(&g, Ghost(q@));
    if before.contains(&h) || seen.contains(&h) {
        return Screened::Known(h);
    }
    proof {
        grid::lemma_shows_solutions(g, expand::digits_shown(q@));
    }
    if count_solutions_up_to(&g, 2) != 1 {
        return Screened::Ambiguous(h);
    }
    Screened::Fresh(h, solution_of(&g, Ghost(q@)))
}

/// What a rating makes of a proposal.
pub open spec fn rated_verdict(rating: Option<u16>, best: u16) -> Verdict {
    match rating {
        None => Verdict::Unrated,
        Some(x) => if x > best {
            Verdict::Better
        } else if x == best {
            Verdict::Level
        } else {
            Verdict::Worse
        },
    }
}

/// The climb goes where the verdict was given.
pub open spec fn is_taken(v: Verdict) -> bool {
    v == Verdict::Level || v == Verdict::Better
}

/// The steps without a rise, after a verdict.
pub open spec fn stalled(v: Verdict, stall: int) -> int {
    match v {
        Verdict::Seen => stall,
        Verdict::Better => 0,
        _ => stall + 1,
    }
}

/// 1 if it holds, else 0.
pub open spec fn one_if(b: bool) -> int {
    if b {
        1
    } else {
        0
    }
}

/// The counts `d` become `e` with a verdict.
pub open spec fn is_counted(
    d: BxbDiagnostics,
    e: BxbDiagnostics,
    v: Verdict,
    m: BxbMutator,
    above: bool,
    changed: bool,
) -> bool {
    &&& e.n_mutations_proposed == d.n_mutations_proposed + 1
    &&& e.n_clue_mismatch == d.n_clue_mismatch + one_if(v == Verdict::ClueMismatch)
    &&& e.n_canonical_dup == d.n_canonical_dup + one_if(v == Verdict::Seen)
    &&& e.n_uniqueness_fail == d.n_uniqueness_fail + one_if(
        v == Verdict::NotUnique || (v == Verdict::NoCandidate && m == BxbMutator::V3),
    )
    &&& e.n_rated == d.n_rated + one_if(v == Verdict::Unrated || v == Verdict::Worse || is_taken(v))
    &&& e.n_above_target == d.n_above_target + one_if(above)
    &&& e.n_clue_count_changed == d.n_clue_count_changed + one_if(changed)
    &&& m != BxbMutator::V4 ==> e.n_tridagon_found == d.n_tridagon_found && e.n_v4_emit
        == d.n_v4_emit
    &&& d.n_tridagon_found <= e.n_tridagon_found <= d.n_tridagon_found + 1
    &&& m == BxbMutator::V4 ==> e.n_v4_emit == d.n_v4_emit + one_if(v != Verdict::NoCandidate)
}

impl Climb {
    /// The climb stands on a puzzle of the best rating so far, and counts no more than its
    /// steps.
    pub open spec fn wf(&self) -> bool {
        &&& self.current.bxb == self.best_bxb
        &&& self.stall <= self.iters
        &&& self.diag.within(self.iters as int)
    }

    /// The climb at its seed, which is put out if it rates high enough.
    pub fn new(seed: &BxbEntry, rules: &ClimbRules) -> (r: Self)
        ensures
            r.wf(),
            r.seed_clues == puzzle_text::clue_total(seed.puzzle@),
            r.current.same(seed),
            r.best_bxb == seed.bxb,
            r.iters == 0,
            r.stall == 0,
            r.seen@ == Set::<u128>::empty(),
            r.diag == (BxbDiagnostics {
                n_mutations_proposed: 0,
                n_clue_mismatch: 0,
                n_canonical_dup: 0,
                n_uniqueness_fail: 0,
                n_rated: 0,
                n_above_target: 0,
                n_clue_count_changed: 0,
                n_tridagon_found: 0,
                n_v4_emit: 0,
            }),
            if seed.bxb >= rules.target_bxb {
                r.outputs@.len() == 1 && r.outputs@[0].same(seed)
            } else {
                r.outputs@.len() == 0
            },
    {
        let mut outputs: Vec<BxbEntry> = Vec::new();
        if seed.bxb >= rules.target_bxb {
            outputs.push(seed.clone());
        }
        Climb {
            seed_clues: clue_count(&seed.puzzle),
            current: seed.clone(),
            best_bxb: seed.bxb,
            iters: 0,
            stall: 0,
            outputs,
            seen: HashSet::new(),
            diag: BxbDiagnostics::new(),
        }
    }

    /// What a step leads to: the next state after a verdict.
    pub open spec fn follows(
        &self,
        next: &Self,
        rules: ClimbRules,
        before: Set<u128>,
        v: Verdict,
    ) -> bool {
        &&& next.wf()
        &&& next.iters == self.iters + 1
        &&& next.seed_clues == self.seed_clues
        &&& next.stall == stalled(v, self.stall as int)
        &&& exists|above: bool, changed: bool|
            #[trigger] is_counted(self.diag, next.diag, v, rules.mutator, above, changed)
                && (is_taken(v) ==> above == (next.best_bxb >= rules.target_bxb))
                && (rules.mutator != BxbMutator::V3 ==> !changed)
                && (v == Verdict::Worse || is_taken(v) || !above)
        &&& if is_taken(v) {
            self.moved(next, rules, before, v)
        } else {
            &&& next.current == self.current
            &&& next.best_bxb == self.best_bxb
            &&& next.outputs@ == self.outputs@
        }
        &&& match v {
            Verdict::NoCandidate | Verdict::ClueMismatch | Verdict::Unreadable | Verdict::Seen =>
                next.seen@ == self.seen@,
            _ => exists|h: u128|
                !before.contains(h) && !self.seen@.contains(h) && next.seen@
                    == #[trigger] self.seen@.insert(h),
        }
    }

    /// The proposal `c` gets as far as being rated: it is new and has one solution.
    pub open spec fn is_rated(
        &self,
        rules: ClimbRules,
        before: Set<u128>,
        c: Option<Candidate>,
    ) -> bool {
        c matches Some(x) && ({
            let h = entries::hash_text(x.puzzle);
            &&& !is_mismatch(rules, self.seed_clues as int, x.puzzle)
            &&& expand::is_puzzle(x.puzzle)
            &&& !before.contains(h)
            &&& !self.seen@.contains(h)
            &&& expand::solved_by(x.puzzle).len() == 1
        })
    }

    /// The verdict and the next state are what the proposal `c` leads to. Only where it is new
    /// and has one solution does its rating decide.
    pub open spec fn answers(
        &self,
        next: &Self,
        rules: ClimbRules,
        before: Set<u128>,
        v: Verdict,
        c: Option<Candidate>,
        rating: Option<u16>,
    ) -> bool {
        &&& next.diag.n_clue_count_changed == self.diag.n_clue_count_changed + one_if(
            rules.mutator == BxbMutator::V3 && c is Some && puzzle_text::clue_total((c->0).puzzle)
                != self.seed_clues,
        )
        &&& next.diag.n_above_target == self.diag.n_above_target + one_if(
            self.is_rated(rules, before, c) && rating is Some && rating->0 >= rules.target_bxb,
        )
        &&& match c {
            None => v == Verdict::NoCandidate,
            Some(x) => {
                let q = x.puzzle;
                let h = entries::hash_text(q);
                if is_mismatch(rules, self.seed_clues as int, q) {
                    v == Verdict::ClueMismatch
                } else if !expand::is_puzzle(q) {
                    v == Verdict::Unreadable
                } else if before.contains(h) || self.seen@.contains(h) {
                    v == Verdict::Seen
                } else {
                    &&& next.seen@ == self.seen@.insert(h)
                    &&& if expand::solved_by(q).len() != 1 {
                        v == Verdict::NotUnique
                    } else {
                        &&& v == rated_verdict(rating, self.best_bxb)
                        &&& is_taken(v) ==> {
                            &&& next.best_bxb == rating->0
                            &&& next.current.bxb == rating->0
                            &&& next.current.puzzle@ == q
                            &&& x.given matches Some(s) ==> next.current.solution@ == s
                        }
                    }
                }
            },
        }
    }

    /// A generator with the words `words`, a rater and the tridagons found can lead to the
    /// verdict and the next state, with the words `after`: the proposal is what is drawn, its
    /// rating is an answer that the rater can give, and a solution counts as one with tridagons
    /// if some can be found in it.
    pub open spec fn comes_about<R: BxbRater, T: Tridagons>(
        &self,
        next: &Self,
        rules: ClimbRules,
        before: Set<u128>,
        v: Verdict,
        words: Seq<u64>,
        after: Seq<u64>,
    ) -> bool {
        &&& exists|c: Option<Candidate>, rating: Option<u16>|
            {
                &&& is_drawn::<T>(
                    rules.mutator,
                    self.current,
                    step_size(rules.mute@, self.stall as int) as nat,
                    words,
                    c,
                    after,
                )
                &&& #[trigger] self.answers(next, rules, before, v, c, rating)
                &&& self.is_rated(rules, before, c) ==> may_rate_bxb::<R>(
                    (c->0).puzzle,
                    rules.max_length,
                    rules.buffer_size,
                    rating,
                )
            }
        &&& rules.mutator == BxbMutator::V4 ==> exists|n: usize| #[trigger]
            tridagon::may_count::<T>(self.current.solution, n) && next.diag.n_tridagon_found
                == self.diag.n_tridagon_found + one_if(n > 0)
    }

    /// Where a climb went: to a new puzzle with one solution, proposed from where it was.
    pub open spec fn moved(
        &self,
        next: &Self,
        rules: ClimbRules,
        before: Set<u128>,
        v: Verdict,
    ) -> bool {
        let q = next.current.puzzle@;
        &&& is_proposal(
            rules.mutator,
            self.current.puzzle@,
            self.current.solution@,
            step_size(rules.mute@, self.stall as int) as nat,
            q,
        )
        &&& minimal::is_unique(q)
        &&& rules.mutator != BxbMutator::V4 ==> expand::solved_by(q) == set![
            expand::digits_shown(next.current.solution@),
        ]
        &&& !is_mismatch(rules, self.seed_clues as int, q)
        &&& !before.contains(entries::hash_text(q))
        &&& !self.seen@.contains(entries::hash_text(q))
        &&& next.seen@ == self.seen@.insert(entries::hash_text(q))
        &&& next.current.generation == self.current.generation + 1
        &&& if v == Verdict::Better {
            next.best_bxb > self.best_bxb
        } else {
            next.best_bxb == self.best_bxb
        }
        &&& if next.best_bxb >= rules.target_bxb {
            &&& next.outputs@.len() == self.outputs@.len() + 1
            &&& next.outputs@.drop_last() == self.outputs@
            &&& next.outputs@.last().same(&next.current)
        } else {
            next.outputs@ == self.outputs@
        }
    }

    /// Goes on with a rated proposal: to it if it rates no lower than the best so far. It is
    /// put out if it rates high enough.
    pub fn settle(
        &mut self,
        rules: &ClimbRules,
        puzzle: Vec<u8>,
        solution: Vec<u8>,
        rating: Option<u16>,
    ) -> (v: Verdict)
        requires
            old(self).current.generation < u32::MAX,
            old(self).stall < usize::MAX,
            old(self).diag.n_above_target < usize::MAX,
        ensures
            v == rated_verdict(rating, old(self).best_bxb),
            final(self).seed_clues == old(self).seed_clues,
            final(self).iters == old(self).iters,
            final(self).seen == old(self).seen,
            final(self).stall == stalled(v, old(self).stall as int),
            final(self).diag == (BxbDiagnostics {
                n_above_target: (old(self).diag.n_above_target + one_if(
                    rating is Some && rating->0 >= rules.target_bxb,
                )) as usize,
                ..old(self).diag
            }),
            if is_taken(v) {
                &&& final(self).current.puzzle@ == puzzle@
                &&& final(self).current.solution@ == solution@
                &&& final(self).current.bxb == rating->0
                &&& final(self).current.generation == old(self).current.generation + 1
                &&& final(self).best_bxb == rating->0
                &&& if rating->0 >= rules.target_bxb {
                    &&& final(self).outputs@.len() == old(self).outputs@.len() + 1
                    &&& final(self).outputs@.drop_last() == old(self).outputs@
                    &&& final(self).outputs@.last().same(&final(self).current)
                } else {
                    final(self).outputs@ == old(self).outputs@
                }
            } else {
                &&& final(self).current == old(self).current
                &&& final(self).best_bxb == old(self).best_bxb
                &&& final(self).outputs@ == old(self).outputs@
            },
    {
        let bxb: u16 = match rating {
            Some(x) => x,
            None => {
                self.stall += 1;
                return Verdict::Unrated;
            },
        };
        if bxb >= rules.target_bxb {
            self.diag.n_above_target += 1;
        }
        if bxb < self.best_bxb {
            self.stall += 1;
            return Verdict::Worse;
        }
        let v: Verdict = if bxb > self.best_bxb {
            self.stall = 0;
            Verdict::Better
        } else {
            self.stall += 1;
            Verdict::Level
        };
        let generation: u32 = self.current.generation + 1;
        self.best_bxb = bxb;
        self.current = BxbEntry { puzzle, solution, bxb, generation };
        if bxb >= rules.target_bxb {
            let ghost was = self.outputs@;
            let out: BxbEntry = self.current.clone();
            self.outputs.push(out);
            assert(self.outputs@.drop_last() =~= was);
        }
        v
    }

    /// Proposes a puzzle, with its solution where the step renames that too.
    fn propose<T: Tridagons>(
        &mut self,
        rules: &ClimbRules,
        tools: &mut T,
        rng: &mut Xoshiro256PlusPlus,
    ) -> (r: Option<(Vec<u8>, Option<Vec<u8>>)>)
        requires
            old(self).diag.n_tridagon_found < usize::MAX,
            old(self).diag.n_v4_emit < usize::MAX,
            rules.mute@.len() > 0,
        ensures
            final(self).seed_clues == old(self).seed_clues,
            final(self).current == old(self).current,
            final(self).best_bxb == old(self).best_bxb,
            final(self).iters == old(self).iters,
            final(self).stall == old(self).stall,
            final(self).outputs == old(self).outputs,
            final(self).seen == old(self).seen,
            final(self).diag == (BxbDiagnostics {
                n_tridagon_found: final(self).diag.n_tridagon_found,
                n_v4_emit: (old(self).diag.n_v4_emit + one_if(
                    rules.mutator == BxbMutator::V4 && r is Some,
                )) as usize,
                ..old(self).diag
            }),
            if rules.mutator == BxbMutator::V4 {
                exists|n: usize| #[trigger]
                    tridagon::may_count::<T>(old(self).current.solution, n)
                        && final(self).diag.n_tridagon_found == old(self).diag.n_tridagon_found
                        + one_if(n > 0)
            } else {
                final(self).diag.n_tridagon_found == old(self).diag.n_tridagon_found
            },
            r matches Some(x) ==> is_proposal(
                rules.mutator,
                old(self).current.puzzle@,
                old(self).current.solution@,
                step_size(rules.mute@, old(self).stall as int) as nat,
                x.0@,
            ) && (x.1 is Some == (rules.mutator == BxbMutator::V4)),
            is_drawn::<T>(
                rules.mutator,
                old(self).current,
                step_size(rules.mute@, old(self).stall as int) as nat,
                rng::state(*old(rng)),
                candidate_of(r),
                rng::state(*final(rng)),
            ),
    {
        let n: usize = if rules.mute.len() == 1 || self.stall < STALL_THRESHOLD {
            rules.mute[0] as usize
        } else {
            rules.mute[1] as usize
        };
        match rules.mutator {
            BxbMutator::V1 => match bxb_mutate_once(&self.current.puzzle, n, rng) {
                Some(q) => Some((q, None)),
                None => None,
            },
            BxbMutator::V2 => match bxb_mutate_once_v2(
                &self.current.puzzle,
                &self.current.solution,
                n,
                rng,
            ) {
                Some(q) => Some((q, None)),
                None => None,
            },
            BxbMutator::V3 => match bxb_mutate_once_v3(
                &self.current.puzzle,
                &self.current.solution,
                n,
                n,
                rng,
            ) {
                Some(q) => Some((q, None)),
                None => None,
            },
            BxbMutator::V4 => {
                let count: usize = tools.count(&self.current.solution);
                assert(tridagon::may_count::<T>(self.current.solution, count));
                if count > 0 {
                    self.diag.n_tridagon_found += 1;
                }
                let x = bxb_mutate_once_v4(
                    &self.current.puzzle,
                    &self.current.solution,
                    tools,
                    rng,
                );
                assert(tridagon::may_mutate::<T>(
                    self.current.puzzle,
                    self.current.solution,
                    rng::state(*old(rng)),
                    x,
                    rng::state(*rng),
                ));
                match x {
                    Some(x) => {
                        self.diag.n_v4_emit += 1;
                        Some((x.0, Some(x.1)))
                    },
                    None => None,
                }
            },
        }
    }

    /// One step of the climb.
    pub fn step<R: BxbRater, T: Tridagons>(
        &mut self,
        rules: &ClimbRules,
        before: &HashSet<u128>,
        rater: &mut R,
        tools: &mut T,
        rng: &mut Xoshiro256PlusPlus,
    ) -> (v: Verdict)
        requires
            old(self).wf(),
            old(self).iters < usize::MAX,
            old(self).current.generation < u32::MAX,
            rules.mute@.len() > 0,
        ensures
            old(self).follows(final(self), *rules, before@, v),
            old(self).comes_about::<R, T>(
                final(self),
                *rules,
                before@,
                v,
                rng::state(*old(rng)),
                rng::state(*final(rng)),
            ),
    {
        let ghost start = *self;
        self.iters += 1;
        self.diag.n_mutations_proposed += 1;
        let (cand, given): (Vec<u8>, Option<Vec<u8>>) = match self.propose(rules, tools, rng) {
            Some(x) => x,
            None => {
                if rules.mutator == BxbMutator::V3 {
                    self.diag.n_uniqueness_fail += 1;
                }
                self.stall += 1;
                assert(is_counted(
                    start.diag,
                    self.diag,
                    Verdict::NoCandidate,
                    rules.mutator,
                    false,
                    false,
                ));
                assert(start.answers(self, *rules, before@, Verdict::NoCandidate, None, None));
                return Verdict::NoCandidate;
            },
        };
        let ghost c: Option<Candidate> = candidate_of(Some((cand, given)));
        let changed: bool = rules.mutator == BxbMutator::V3 && clue_count(&cand) != self.seed_clues;
        if changed {
            self.diag.n_clue_count_changed += 1;
        }
        let screened: Screened = screen(rules, self.seed_clues, before, &self.seen, &cand);
        let (h, found): (u128, Vec<u8>) = match screened {
            Screened::Out(v) => {
                if v == Verdict::ClueMismatch {
                    self.diag.n_clue_mismatch += 1;
                }
                self.stall += 1;
                assert(is_counted(start.diag, self.diag, v, rules.mutator, false, changed));
                assert(start.answers(self, *rules, before@, v, c, None));
                return v;
            },
            Screened::Known(_) => {
                self.diag.n_canonical_dup += 1;
                assert(is_counted(
                    start.diag,
                    self.diag,
                    Verdict::Seen,
                    rules.mutator,
                    false,
                    changed,
                ));
                assert(start.answers(self, *rules, before@, Verdict::Seen, c, None));
                return Verdict::Seen;
            },
            Screened::Ambiguous(h) => {
                self.seen.insert(h);
                self.diag.n_uniqueness_fail += 1;
                self.stall += 1;
                assert(is_counted(
                    start.diag,
                    self.diag,
                    Verdict::NotUnique,
                    rules.mutator,
                    false,
                    changed,
                ));
                assert(self.seen@ == start.seen@.insert(h));
                assert(start.answers(self, *rules, before@, Verdict::NotUnique, c, None));
                return Verdict::NotUnique;
            },
            Screened::Fresh(h, s) => (h, s),
        };
        self.seen.insert(h);
        let solution: Vec<u8> = match given {
            Some(s) => s,
            None => found,
        };
        self.diag.n_rated += 1;
        let rating: Option<u16> = rater.rate_bxb(&cand, rules.max_length, rules.buffer_size);
        assert(may_rate_bxb::<R>(cand@, rules.max_length, rules.buffer_size, rating));
        let v: Verdict = self.settle(rules, cand, solution, rating);
        let ghost above = rating is Some && rating->0 >= rules.target_bxb;
        assert(is_counted(start.diag, self.diag, v, rules.mutator, above, changed));
        assert(self.seen@ == start.seen@.insert(h));
        assert(start.answers(self, *rules, before@, v, c, rating));
        v
    }

    /// Climbs on until its budget of steps is used up or enough puzzles wait to be put out.
    pub fn go_on<R: BxbRater, T: Tridagons>(
        &mut self,
        rules: &ClimbRules,
        budget_iters: usize,
        before: &HashSet<u128>,
        rater: &mut R,
        tools: &mut T,
        rng: &mut Xoshiro256PlusPlus,
    )
        requires
            old(self).wf(),
        ensures
            final(self).wf(),
            final(self).is_at_rest(*rules, budget_iters as int),
            exists|trace: Seq<Climb>, words: Seq<Seq<u64>>| #[trigger]
                is_climb::<R, T>(trace, words, *rules, before@) && trace[0] == *old(self)
                    && trace.last() == *final(self) && words[0] == rng::state(*old(rng))
                    && words.last() == rng::state(*final(rng)) && forall|i: int|
                    0 <= i < trace.len() - 1 ==> !(#[trigger] trace[i]).is_at_rest(
                        *rules,
                        budget_iters as int,
                    ),
    {
        let ghost mut trace: Seq<Climb> = seq![*self];
        let ghost mut words: Seq<Seq<u64>> = seq![rng::state(*rng)];
        while rules.mute.len() > 0 && self.iters < budget_iters && self.outputs.len() < BATCH_FLUSH
            && self.current.generation < u32::MAX
            invariant
                self.wf(),
                is_climb::<R, T>(trace, words, *rules, before@),
                trace[0] == *old(self),
                trace.last() == *self,
                words[0] == rng::state(*old(rng)),
                words.last() == rng::state(*rng),
                forall|i: int|
                    0 <= i < trace.len() - 1 ==> !(#[trigger] trace[i]).is_at_rest(
                        *rules,
                        budget_iters as int,
                    ),
            decreases budget_iters - self.iters,
        {
            let v: Verdict = self.step(rules, before, rater, tools, rng);
            proof {
                lemma_climb_goes_on::<R, T>(
                    trace,
                    words,
                    *rules,
                    before@,
                    v,
                    *self,
                    rng::state(*rng),
                );
                trace = trace.push(*self);
                words = words.push(rng::state(*rng));
            }
        }
    }

    /// The climb takes no further step: its budget is used up, enough puzzles wait to be put
    /// out, no size of a step is given, or the steps can be counted no further.
    pub open spec fn is_at_rest(&self, rules: ClimbRules, budget_iters: int) -> bool {
        ||| rules.mute@.len() == 0
        ||| self.iters >= budget_iters
        ||| self.outputs@.len() >= BATCH_FLUSH
        ||| self.current.generation == u32::MAX
    }

    /// Whether the climb takes no further step with this budget, even once nothing waits.
    pub fn is_over(&self, rules: &ClimbRules, budget_iters: usize) -> (r: bool)
        ensures
            r == (rules.mute@.len() == 0 || self.iters >= budget_iters || self.current.generation
                == u32::MAX),
    {
        rules.mute.len() == 0 || self.iters >= budget_iters || self.current.generation == u32::MAX
    }
}

/// `b` can come out of `a` by one step, in which the words of the generator go from `words` to
/// `after`.
pub open spec fn is_next<R: BxbRater, T: Tridagons>(
    a: Climb,
    b: Climb,
    rules: ClimbRules,
    before: Set<u128>,
    words: Seq<u64>,
    after: Seq<u64>,
) -> bool {
    exists|v: Verdict| #[trigger]
        a.follows(&b, rules, before, v) && a.comes_about::<R, T>(
            &b,
            rules,
            before,
            v,
            words,
            after,
        )
}

/// The states of a climb and the words that the generator held at each, each one step from the
/// one before.
pub open spec fn is_climb<R: BxbRater, T: Tridagons>(
    trace: Seq<Climb>,
    words: Seq<Seq<u64>>,
    rules: ClimbRules,
    before: Set<u128>,
) -> bool {
    &&& trace.len() > 0
    &&& words.len() == trace.len()
    &&& forall|i: int|
        0 <= i < trace.len() - 1 ==> is_next::<R, T>(
            #[trigger] trace[i],
            trace[i + 1],
            rules,
            before,
            words[i],
            words[i + 1],
        )
}

/// One more step makes a longer climb.
proof fn lemma_climb_goes_on<R: BxbRater, T: Tridagons>(
    trace: Seq<Climb>,
    words: Seq<Seq<u64>>,
    rules: ClimbRules,
    before: Set<u128>,
    v: Verdict,
    next: Climb,
    after: Seq<u64>,
)
    requires
        is_climb::<R, T>(trace, words, rules, before),
        trace.last().follows(&next, rules, before, v),
        trace.last().comes_about::<R, T>(&next, rules, before, v, words.last(), after),
    ensures
        is_climb::<R, T>(trace.push(next), words.push(after), rules, before),
{
    let t = trace.push(next);
    let w = words.push(after);
    assert(is_next::<R, T>(trace.last(), next, rules, before, words.last(), after));
    assert forall|i: int| 0 <= i < t.len() - 1 implies is_next::<R, T>(
        #[trigger] t[i],
        t[i + 1],
        rules,
        before,
        w[i],
        w[i + 1],
    ) by {
        if i < trace.len() - 1 {
            assert(is_next::<R, T>(
                trace[i],
                trace[i + 1],
                rules,
                before,
                words[i],
                words[i + 1],
            ));
        }
    }
}

/// Over a whole climb the best rating never falls, what waits to be put out stays, what is added
/// rates at the target or above and has one solution, and no puzzle is added that is a seed or
/// was looked at before the climb.
pub proof fn law_whole_climb<R: BxbRater, T: Tridagons>(
    trace: Seq<Climb>,
    words: Seq<Seq<u64>>,
    rules: ClimbRules,
    before: Set<u128>,
)
    requires
        is_climb::<R, T>(trace, words, rules, before),
        trace[0].wf(),
    ensures
        ({
            let (a, b) = (trace[0], trace.last());
            &&& b.wf()
            &&& a.best_bxb <= b.best_bxb
            &&& b.iters == a.iters + trace.len() - 1
            &&& a.outputs@.is_prefix_of(b.outputs@)
            &&& a.seen@.subset_of(b.seen@)
            &&& forall|i: int|
                a.outputs@.len() <= i < b.outputs@.len() ==> {
                    let x = #[trigger] b.outputs@[i];
                    &&& x.bxb >= rules.target_bxb
                    &&& minimal::is_unique(x.puzzle@)
                    &&& !before.contains(entries::hash_text(x.puzzle@))
                    &&& !a.seen@.contains(entries::hash_text(x.puzzle@))
                    &&& b.seen@.contains(entries::hash_text(x.puzzle@))
                }
            &&& forall|i: int, j: int|
                a.outputs@.len() <= i < j < b.outputs@.len() ==> entries::hash_text(
                    (#[trigger] b.outputs@[i]).puzzle@,
                ) != entries::hash_text((#[trigger] b.outputs@[j]).puzzle@)
        }),
    decreases trace.len(),
{
    if trace.len() > 1 {
        let t = trace.drop_last();
        let w = words.drop_last();
        assert forall|i: int| 0 <= i < t.len() - 1 implies is_next::<R, T>(
            #[trigger] t[i],
            t[i + 1],
            rules,
            before,
            w[i],
            w[i + 1],
        ) by {
            assert(is_next::<R, T>(
                trace[i],
                trace[i + 1],
                rules,
                before,
                words[i],
                words[i + 1],
            ));
        }
        law_whole_climb::<R, T>(t, w, rules, before);
        let (a, m, b) = (trace[0], t.last(), trace.last());
        let k: int = trace.len() - 2;
        assert(is_next::<R, T>(trace[k], trace[k + 1], rules, before, words[k], words[k + 1]));
        let v = choose|v: Verdict| #[trigger] m.follows(&b, rules, before, v);
        law_climb_goes_up(m, b, rules, before, v);
        law_climb_repeats_nothing(m, b, rules, before, v);
        assert forall|i: int| 0 <= i < m.outputs@.len() implies #[trigger] b.outputs@[i]
            == m.outputs@[i] by {
            assert(m.outputs@.is_prefix_of(b.outputs@));
        }
        assert forall|i: int| a.outputs@.len() <= i < b.outputs@.len() implies {
            let x = #[trigger] b.outputs@[i];
            &&& x.bxb >= rules.target_bxb
            &&& minimal::is_unique(x.puzzle@)
            &&& !before.contains(entries::hash_text(x.puzzle@))
            &&& !a.seen@.contains(entries::hash_text(x.puzzle@))
            &&& b.seen@.contains(entries::hash_text(x.puzzle@))
        } by {
            if i < m.outputs@.len() {
                assert(b.outputs@[i] == m.outputs@[i]);
            }
        }
    }
}

/// The best rating never falls, and whatever a step puts out rates at the target or above
/// and has one solution.
pub proof fn law_climb_goes_up(a: Climb, b: Climb, rules: ClimbRules, before: Set<u128>, v: Verdict)
    requires
        a.wf(),
        a.follows(&b, rules, before, v),
    ensures
        a.best_bxb <= b.best_bxb,
        a.outputs@.len() <= b.outputs@.len() <= a.outputs@.len() + 1,
        a.outputs@.is_prefix_of(b.outputs@),
        b.outputs@.len() > a.outputs@.len() ==> {
            &&& b.outputs@.last().bxb >= rules.target_bxb
            &&& minimal::is_unique(b.outputs@.last().puzzle@)
        },
{
}

/// No step puts out a puzzle that is a seed or was looked at before, and what it puts out
/// counts as looked at afterwards. Of the seed that a climb starts from this says nothing.
pub proof fn law_climb_repeats_nothing(
    a: Climb,
    b: Climb,
    rules: ClimbRules,
    before: Set<u128>,
    v: Verdict,
)
    requires
        a.follows(&b, rules, before, v),
    ensures
        a.seen@.subset_of(b.seen@),
        b.outputs@.len() > a.outputs@.len() ==> {
            let h = entries::hash_text(b.outputs@.last().puzzle@);
            !before.contains(h) && !a.seen@.contains(h) && b.seen@.contains(h)
        },
{
}

} // verus!
