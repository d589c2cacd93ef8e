//! What is known of a puzzle once it was rated.

use super::grid::Grid;
use super::techniques::{TechniqueId, Tier};
use vstd::prelude::*;

verus! {

/// The rating of a puzzle.
#[derive(Debug)]
pub struct RateResult {
    pub tier: Tier,
    /// The techniques that were needed.
    pub frontier: Vec<TechniqueId>,
    pub solved: bool,
    pub rater_error: bool,
    pub wave_depth: u32,
    pub backtrack_steps: u32,
    pub unique_solution: bool,
    /// The Sudoku Explainer score in thousandths.
    pub se_milli: u32,
}

impl Clone for RateResult {
    fn clone(&self) -> (r: Self)
        ensures
            r.same(self),
    {
        let frontier = self.frontier.clone();
        assert(frontier@ =~= self.frontier@);
        RateResult {
            tier: self.tier,
            frontier,
            solved: self.solved,
            rater_error: self.rater_error,
            wave_depth: self.wave_depth,
            backtrack_steps: self.backtrack_steps,
            unique_solution: self.unique_solution,
            se_milli: self.se_milli,
        }
    }
}

impl RateResult {
    /// `other` says the same.
    pub open spec fn same(&self, other: &Self) -> bool {
        &&& self.tier == other.tier
        &&& self.frontier@ == other.frontier@
        &&& self.solved == other.solved
        &&& self.rater_error == other.rater_error
        &&& self.wave_depth == other.wave_depth
        &&& self.backtrack_steps == other.backtrack_steps
        &&& self.unique_solution == other.unique_solution
        &&& self.se_milli == other.se_milli
    }

    /// The rating of a line that is no puzzle.
    pub fn of_unreadable() -> (r: Self)
        ensures
            r.rater_error,
            r.tier == Tier::T4Plus,
            r.frontier@.len() == 0,
            !r.solved,
            !r.unique_solution,
            r.wave_depth == 0,
            r.backtrack_steps == 0,
            r.se_milli == 0,
    {
        RateResult {
            tier: Tier::T4Plus,
            frontier: Vec::new(),
            solved: false,
            rater_error: true,
            wave_depth: 0,
            backtrack_steps: 0,
            unique_solution: false,
            se_milli: 0,
        }
    }
}

/// Rates puzzles. Nothing is taken for granted of its answers.
pub trait Rater<const N: usize, const BR: usize, const BC: usize> {
    /// Rates with all techniques.
    fn rate(&mut self, puzzle: &Grid<N, BR, BC>) -> RateResult;

    /// Rates without the techniques of `excluded`.
    fn rate_excluding(&mut self, puzzle: &Grid<N, BR, BC>, excluded: &Vec<TechniqueId>) -> RateResult;
}

/// `r` is an answer that a rater can give when it is asked for the puzzle.
pub open spec fn may_say<const N: usize, const BR: usize, const BC: usize, R: Rater<N, BR, BC>>(
    puzzle: Grid<N, BR, BC>,
    r: RateResult,
) -> bool {
    exists|m: &mut R| #[trigger] call_ensures(R::rate, (m, &puzzle), r)
}

/// `r` is an answer that a rater can give when it is asked for the puzzle without the techniques
/// of `excluded`.
pub open spec fn may_say_without<
    const N: usize,
    const BR: usize,
    const BC: usize,
    R: Rater<N, BR, BC>,
>(puzzle: Grid<N, BR, BC>, excluded: Seq<TechniqueId>, r: RateResult) -> bool {
    exists|m: &mut R, v: &Vec<TechniqueId>|
        v@ == excluded && #[trigger] call_ensures(R::rate_excluding, (m, &puzzle, v), r)
}

} // verus!
