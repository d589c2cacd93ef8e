//! Rated puzzles, and what goes into the output.

use super::expand;
use super::puzzle_text;
use super::puzzle_text::CELLS;
use crate::generic::canonical;
use crate::generic::canonical::canonical_hash;
use crate::generic::grid;
use crate::generic::grid::Grid;
use crate::generic::search;
use crate::generic::search::{count_solutions_up_to, solve_unique};
use crate::generic::solutions;
use std::collections::HashSet;
use vstd::prelude::*;

verus! {

broadcast use vstd::std_specs::hash::group_hash_axioms;

/// A rated puzzle.
#[derive(Debug)]
pub struct BxbEntry {
    pub puzzle: Vec<u8>,
    pub solution: Vec<u8>,
    /// The rating.
    pub bxb: u16,
    /// The number of steps that led to it.
    pub generation: u32,
}

impl BxbEntry {
    /// The two show the same.
    pub open spec fn same(&self, other: &Self) -> bool {
        &&& self.puzzle@ == other.puzzle@
        &&& self.solution@ == other.solution@
        &&& self.bxb == other.bxb
        &&& self.generation == other.generation
    }
}

impl Clone for BxbEntry {
    fn clone(&self) -> (r: Self)
        ensures
            r.same(self),
    {
        let puzzle: Vec<u8> = self.puzzle.clone();
        let solution: Vec<u8> = self.solution.clone();
        assert(puzzle@ =~= self.puzzle@);
        assert(solution@ =~= self.solution@);
        BxbEntry { puzzle, solution, bxb: self.bxb, generation: self.generation }
    }
}

/// The hash of a puzzle, which its transpose and its renamed forms share.
pub open spec fn hash_text(p: Seq<u8>) -> u128 {
    canonical::hash_of(canonical::canonical(expand::digits_shown(p), 9)) as u128
}

/// The hash of the puzzle that a grid shows.
pub(crate) fn hash_shown(g: &Grid<9, 3, 3>, Ghost(p): Ghost<Seq<u8>>) -> (h: u128)
    requires
        g.shows(expand::digits_shown(p)),
    ensures
        h == hash_text(p),
{
    assert(canonical::byte_ints(g.solved@) =~= solutions::digits_of(g.solved@));
    canonical_hash(g)
}

/// The hash of a puzzle, where the string is one.
pub fn puzzle_hash(p: &Vec<u8>) -> (r: Option<u128>)
    ensures
        r == if expand::is_puzzle(p@) {
            Some(hash_text(p@))
        } else {
            None
        },
{
    match Grid::<9, 3, 3>::from_bytes(p.as_slice()) {
        Some(g) => Some(hash_shown(&g, Ghost(p@))),
        None => None,
    }
}

/// The digits of a solution as bytes.
pub open spec fn solution_text(s: Seq<int>) -> Seq<u8> {
    Seq::new(s.len(), |i: int| (0x30 + s[i]) as u8)
}

/// The digits of a full grid as bytes.
fn solution_bytes(g: &Grid<9, 3, 3>) -> (r: Vec<u8>)
    requires
        g.sound(),
        g.solved_count == 81,
    ensures
        r@ == solution_text(solutions::digits_of(g.solved@)),
{
    let mut r: Vec<u8> = Vec::new();
    let mut i: usize = 0;
    while i < CELLS
        invariant
            i <= CELLS,
            g.sound(),
            r@.len() == i,
            forall|j: int|
                0 <= j < i ==> #[trigger] r@[j] == solution_text(solutions::digits_of(g.solved@))[j],
        decreases CELLS - i,
    {
        assert(g.solved@[i as int] <= 9);
        r.push(0x30 + g.solved[i]);
        i += 1;
    }
    assert(r@ =~= solution_text(solutions::digits_of(g.solved@)));
    r
}

/// Why a seed is left out.
#[derive(Debug, Clone, Copy, PartialEq, Eq, Structural)]
pub enum SeedFault {
    /// The string is no puzzle.
    Unreadable,
    /// The puzzle has no solution, or at least two.
    Solutions(usize),
    /// The puzzle could not be rated.
    Unrated,
}

/// The solution of a seed. One that was given is taken as it is if it has 81 bytes.
pub fn seed_solution(puzzle: &Vec<u8>, given: Option<Vec<u8>>) -> (r: Result<Vec<u8>, SeedFault>)
    ensures
        r is Err && r->Err_0 == SeedFault::Unreadable <==> !expand::is_puzzle(puzzle@),
        expand::is_puzzle(puzzle@) ==> match given {
            Some(s) if s@.len() == CELLS => r is Ok && r->Ok_0@ == s@,
            _ => if expand::solved_by(puzzle@).len() == 1 {
                r is Ok && expand::solved_by(puzzle@).contains(
                    expand::digits_shown(r->Ok_0@),
                ) && r->Ok_0@.len() == CELLS && puzzle_text::all_digits(r->Ok_0@)
            } else {
                r is Err && r->Err_0 == SeedFault::Solutions(
                    search::min(2, expand::solved_by(puzzle@).len() as int) as usize,
                )
            },
        },
{
    let g: Grid<9, 3, 3> = match Grid::<9, 3, 3>::from_bytes(puzzle.as_slice()) {
        Some(g) => g,
        None => {
            return Err(SeedFault::Unreadable);
        },
    };
    match given {
        Some(s) => {
            if s.len() == CELLS {
                return Ok(s);
            }
        },
        None => {},
    }
    proof {
        grid::lemma_shows_solutions(g, expand::digits_shown(puzzle@));
    }
    let n: usize = count_solutions_up_to(&g, 2);
    if n != 1 {
        return Err(SeedFault::Solutions(n));
    }
    Ok(solution_of(&g, Ghost(puzzle@)))
}

/// The solution of a puzzle that has one.
pub(crate) fn solution_of(g: &Grid<9, 3, 3>, Ghost(p): Ghost<Seq<u8>>) -> (r: Vec<u8>)
    requires
        g.shows(expand::digits_shown(p)),
        expand::solved_by(p).len() == 1,
    ensures
        r@.len() == CELLS,
        puzzle_text::all_digits(r@),
        expand::solved_by(p) == set![expand::digits_shown(r@)],
{
    proof {
        grid::lemma_shows_solutions(*g, expand::digits_shown(p));
    }
    match solve_unique(g) {
        Some(x) => {
            let r: Vec<u8> = solution_bytes(&x);
            proof {
                let s = solutions::digits_of(x.solved@);
                assert(expand::solved_by(p) == set![s]);
                assert(expand::solved_by(p).contains(s));
                assert forall|i: int| 0 <= i < 81 implies puzzle_text::is_digit(#[trigger] r@[i])
                    && expand::digits_shown(r@)[i] == s[i] by {
                    assert(expand::shape().is_digit(s[i]));
                    assert(r@[i] == 0x30 + s[i]);
                }
                assert(expand::digits_shown(r@) =~= s);
            }
            r
        },
        None => {
            assert(false);
            Vec::new()
        },
    }
}

/// A seed with its rating.
pub fn rated_seed(puzzle: Vec<u8>, solution: Vec<u8>, rating: Option<u16>) -> (r: Result<
    BxbEntry,
    SeedFault,
>)
    ensures
        r == match rating {
            Some(bxb) => Ok(BxbEntry { puzzle, solution, bxb, generation: 0 }),
            None => Err(SeedFault::Unrated),
        },
{
    match rating {
        Some(bxb) => Ok(BxbEntry { puzzle, solution, bxb, generation: 0 }),
        None => Err(SeedFault::Unrated),
    }
}

/// `h` is the hash of one of the first `n` puzzles.
pub open spec fn is_hash_of(seeds: Seq<BxbEntry>, n: int, h: u128) -> bool {
    exists|i: int|
        0 <= i < n && expand::is_puzzle((#[trigger] seeds[i]).puzzle@) && hash_text(
            seeds[i].puzzle@,
        ) == h
}

/// The hashes of the seeds.
pub fn seed_hashes(seeds: &Vec<BxbEntry>) -> (r: HashSet<u128>)
    ensures
        forall|h: u128| #[trigger] r@.contains(h) == is_hash_of(seeds@, seeds@.len() as int, h),
{
    let mut r: HashSet<u128> = HashSet::new();
    let mut i: usize = 0;
    while i < seeds.len()
        invariant
            i <= seeds@.len(),
            forall|h: u128| #[trigger] r@.contains(h) == is_hash_of(seeds@, i as int, h),
        decreases seeds@.len() - i,
    {
        let ghost before = r@;
        let found: Option<u128> = puzzle_hash(&seeds[i].puzzle);
        match found {
            Some(h) => {
                r.insert(h);
            },
            None => {},
        }
        proof {
            assert forall|h: u128| #[trigger] r@.contains(h) == is_hash_of(seeds@, i + 1, h) by {
                assert(before.contains(h) == is_hash_of(seeds@, i as int, h));
                if is_hash_of(seeds@, i as int, h) {
                    let j = choose|j: int|
                        0 <= j < i && expand::is_puzzle((#[trigger] seeds@[j]).puzzle@) && hash_text(
                            seeds@[j].puzzle@,
                        ) == h;
                    assert(seeds@[j].puzzle@ == seeds@[j].puzzle@);
                }
                if is_hash_of(seeds@, i + 1, h) && !is_hash_of(seeds@, i as int, h) {
                    let j = choose|j: int|
                        0 <= j < i + 1 && expand::is_puzzle((#[trigger] seeds@[j]).puzzle@)
                            && hash_text(seeds@[j].puzzle@) == h;
                    assert(j == i);
                }
                if found == Some(h) {
                    assert(expand::is_puzzle(seeds@[i as int].puzzle@));
                }
            }
        }
        i += 1;
    }
    r
}

} // verus!
