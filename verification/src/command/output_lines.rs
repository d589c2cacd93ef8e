//! What a search found, as lines and as records.

use crate::generic::dfc_reverse::ConstructedPuzzle;
use crate::generic::grid;
use crate::generic::reverse_construct::ReverseResult;
use crate::generic::techniques::{TechniqueId, Tier};
use vstd::prelude::*;
use vstd::string::StringExecFns;

verus! {

/// The characters of the cells of a grid.
pub open spec fn grid_text(solved: Seq<u8>) -> Seq<char> {
    Seq::new(solved.len(), |i: int| grid::cell_char(solved[i] as int))
}

/// A line: the puzzle, and after a blank its solution if that is asked for.
pub open spec fn line_text(puzzle: Seq<char>, solution: Seq<char>, with_solution: bool) -> Seq<char> {
    if with_solution {
        puzzle + " "@ + solution
    } else {
        puzzle
    }
}

/// A line: the puzzle, and after a blank its solution if that is asked for.
pub fn puzzle_line(puzzle: &str, solution: &str, with_solution: bool) -> (r: String)
    ensures
        r@ == line_text(puzzle@, solution@, with_solution),
{
    let mut s = String::new();
    s.append(puzzle);
    if with_solution {
        s.append(" ");
        s.append(solution);
    }
    assert(s@ =~= line_text(puzzle@, solution@, with_solution));
    s
}

/// The line of a result.
pub open spec fn result_line<const N: usize, const BR: usize, const BC: usize>(
    r: ReverseResult<N, BR, BC>,
    with_solution: bool,
) -> Seq<char> {
    line_text(grid_text(r.puzzle.solved@), grid_text(r.solution.solved@), with_solution)
}

/// The lines of results.
pub fn result_lines<const N: usize, const BR: usize, const BC: usize>(
    results: &Vec<ReverseResult<N, BR, BC>>,
    with_solution: bool,
) -> (v: Vec<String>)
    requires
        forall|i: int| 0 <= i < results@.len() ==> (#[trigger] results@[i]).wf(),
    ensures
        v@.len() == results@.len(),
        forall|i: int|
            0 <= i < v@.len() ==> (#[trigger] v@[i])@ == result_line(results@[i], with_solution),
{
    let mut v: Vec<String> = Vec::new();
    let mut i: usize = 0;
    while i < results.len()
        invariant
            i <= results@.len(),
            v@.len() == i,
            forall|j: int| 0 <= j < results@.len() ==> (#[trigger] results@[j]).wf(),
            forall|j: int|
                0 <= j < i ==> (#[trigger] v@[j])@ == result_line(results@[j], with_solution),
        decreases results@.len() - i,
    {
        let r: &ReverseResult<N, BR, BC> = &results[i];
        assert(results@[i as int].wf());
        let p: String = r.puzzle.to_string_grid();
        let s: String = r.solution.to_string_grid();
        assert(p@ =~= grid_text(r.puzzle.solved@));
        assert(s@ =~= grid_text(r.solution.solved@));
        v.push(puzzle_line(p.as_str(), s.as_str(), with_solution));
        i += 1;
    }
    v
}

/// The lines of puzzles with dynamic forcing chains.
pub fn constructed_lines(results: &Vec<ConstructedPuzzle>, with_solution: bool) -> (v: Vec<String>)
    ensures
        v@.len() == results@.len(),
        forall|i: int|
            0 <= i < v@.len() ==> (#[trigger] v@[i])@ == line_text(
                results@[i].puzzle@,
                results@[i].solution@,
                with_solution,
            ),
{
    let mut v: Vec<String> = Vec::new();
    let mut i: usize = 0;
    while i < results.len()
        invariant
            i <= results@.len(),
            v@.len() == i,
            forall|j: int|
                0 <= j < i ==> (#[trigger] v@[j])@ == line_text(
                    results@[j].puzzle@,
                    results@[j].solution@,
                    with_solution,
                ),
        decreases results@.len() - i,
    {
        let r: &ConstructedPuzzle = &results[i];
        v.push(puzzle_line(r.puzzle.as_str(), r.solution.as_str(), with_solution));
        i += 1;
    }
    v
}

/// A record of the output.
#[derive(Debug)]
pub struct Record {
    pub puzzle: String,
    pub solution: String,
    pub clue_count: u32,
    pub tier: Tier,
    /// The techniques that were needed.
    pub frontier: Vec<TechniqueId>,
    /// The score in thousandths.
    pub se_milli: u32,
}

/// The record says what the result is.
pub open spec fn is_record_of<const N: usize, const BR: usize, const BC: usize>(
    x: Record,
    r: ReverseResult<N, BR, BC>,
) -> bool {
    &&& x.puzzle@ == grid_text(r.puzzle.solved@)
    &&& x.solution@ == grid_text(r.solution.solved@)
    &&& x.clue_count == r.clue_count
    &&& x.tier == r.rate.tier
    &&& x.frontier@ == r.rate.frontier@
    &&& x.se_milli == r.rate.se_milli
}

/// The records of results.
pub fn build_records<const N: usize, const BR: usize, const BC: usize>(
    results: &Vec<ReverseResult<N, BR, BC>>,
) -> (v: Vec<Record>)
    requires
        forall|i: int| 0 <= i < results@.len() ==> (#[trigger] results@[i]).wf(),
    ensures
        v@.len() == results@.len(),
        forall|i: int| 0 <= i < v@.len() ==> is_record_of(#[trigger] v@[i], results@[i]),
{
    let mut v: Vec<Record> = Vec::new();
    let mut i: usize = 0;
    while i < results.len()
        invariant
            i <= results@.len(),
            v@.len() == i,
            forall|j: int| 0 <= j < results@.len() ==> (#[trigger] results@[j]).wf(),
            forall|j: int| 0 <= j < i ==> is_record_of(#[trigger] v@[j], results@[j]),
        decreases results@.len() - i,
    {
        let r: &ReverseResult<N, BR, BC> = &results[i];
        assert(results@[i as int].wf());
        let puzzle: String = r.puzzle.to_string_grid();
        let solution: String = r.solution.to_string_grid();
        assert(puzzle@ =~= grid_text(r.puzzle.solved@));
        assert(solution@ =~= grid_text(r.solution.solved@));
        let frontier: Vec<TechniqueId> = r.rate.frontier.clone();
        assert(frontier@ =~= r.rate.frontier@);
        v.push(
            Record {
                puzzle,
                solution,
                clue_count: r.clue_count,
                tier: r.rate.tier,
                frontier,
                se_milli: r.rate.se_milli,
            },
        );
        i += 1;
    }
    v
}

} // verus!
