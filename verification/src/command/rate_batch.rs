//! Rating a list of puzzles, one row for each line.

use super::seed_lines;
use crate::generic::grid;
use crate::generic::grid::Grid;
use crate::generic::rater;
use crate::generic::rater::{RateResult, Rater};
use crate::generic::techniques::{TechniqueId, Tier};
use crate::lexing;
use vstd::prelude::*;

verus! {

/// The number of lines that are read before they are rated.
pub const CHUNK: usize = 1024;

/// A line that was read.
pub enum Line {
    /// A puzzle.
    Puzzle(Vec<u8>),
    /// Something that is no puzzle.
    Bad,
}

/// The line shows something besides white space.
pub open spec fn is_filled(text: Seq<char>) -> bool {
    lexing::trimmed(text).len() > 0
}

/// The line shows one plain character for each cell.
pub open spec fn shows_cells(text: Seq<char>, cells: int) -> bool {
    let t = lexing::trimmed(text);
    t.len() == cells && forall|i: int| 0 <= i < t.len() ==> (#[trigger] t[i] as int) < 0x80
}

/// `r` is what a line holds: the characters of a puzzle, or something else.
pub open spec fn is_read(text: Seq<char>, cells: int, r: Line) -> bool {
    match r {
        Line::Puzzle(p) => shows_cells(text, cells) && p@ == Seq::new(
            cells as nat,
            |i: int| lexing::trimmed(text)[i] as u8,
        ),
        Line::Bad => !shows_cells(text, cells),
    }
}

/// The byte of a character that takes only one.
fn plain_byte(c: char) -> (r: Option<u8>)
    ensures
        r == if (c as int) < 0x80 {
            Some(c as u8)
        } else {
            None
        },
{
    let n: u32 = c as u32;
    if n < 0x80 {
        Some(n as u8)
    } else {
        None
    }
}

/// What a line holds.
pub fn read_line(text: &str, cells: usize) -> (r: Line)
    ensures
        is_read(text@, cells as int, r),
{
    let t: Vec<char> = lexing::trim(&lexing::chars_in(text));
    if t.len() != cells {
        return Line::Bad;
    }
    let mut p: Vec<u8> = Vec::new();
    let mut i: usize = 0;
    while i < t.len()
        invariant
            i <= t@.len(),
            t@.len() == cells,
            t@ == lexing::trimmed(text@),
            p@.len() == i,
            forall|j: int| 0 <= j < i ==> (#[trigger] t@[j] as int) < 0x80 && p@[j] == t@[j] as u8,
        decreases t@.len() - i,
    {
        match plain_byte(t[i]) {
            Some(b) => {
                p.push(b);
            },
            None => {
                assert(t@[i as int] as int >= 0x80);
                return Line::Bad;
            },
        }
        i += 1;
    }
    assert(p@ =~= Seq::new(cells as nat, |i: int| lexing::trimmed(text@)[i] as u8));
    Line::Puzzle(p)
}

/// The lines that show something, in their order.
pub open spec fn filled_lines(lines: Seq<Seq<char>>) -> Seq<Seq<char>> {
    lines.filter(|l: Seq<char>| is_filled(l))
}

/// What the lines hold. Lines without anything are passed over.
pub fn read_lines(lines: &Vec<String>, cells: usize) -> (r: Vec<Line>)
    ensures
        r@.len() == filled_lines(seed_lines::line_texts(lines@)).len(),
        forall|i: int|
            0 <= i < r@.len() ==> is_read(
                filled_lines(seed_lines::line_texts(lines@))[i],
                cells as int,
                #[trigger] r@[i],
            ),
{
    let ghost texts = seed_lines::line_texts(lines@);
    let mut out: Vec<Line> = Vec::new();
    let mut i: usize = 0;
    assert(filled_lines(texts.take(0)) =~= Seq::<Seq<char>>::empty()) by {
        reveal(Seq::filter);
    }
    while i < lines.len()
        invariant
            i <= lines@.len(),
            texts == seed_lines::line_texts(lines@),
            out@.len() == filled_lines(texts.take(i as int)).len(),
            forall|j: int|
                0 <= j < out@.len() ==> is_read(
                    filled_lines(texts.take(i as int))[j],
                    cells as int,
                    #[trigger] out@[j],
                ),
        decreases lines@.len() - i,
    {
        let ghost before = filled_lines(texts.take(i as int));
        let ghost seen = out@;
        let text: &str = lines[i].as_str();
        assert(texts.take(i + 1).drop_last() =~= texts.take(i as int));
        assert(texts.take(i + 1).last() == text@);
        assert(filled_lines(texts.take(i + 1)) == if is_filled(text@) {
            before.push(text@)
        } else {
            before
        }) by {
            reveal(Seq::filter);
        }
        if lexing::trim(&lexing::chars_in(text)).len() > 0 {
            out.push(read_line(text, cells));
            assert forall|j: int| 0 <= j < out@.len() implies is_read(
                filled_lines(texts.take(i + 1))[j],
                cells as int,
                #[trigger] out@[j],
            ) by {
                if j < seen.len() {
                    assert(out@[j] == seen[j]);
                }
            }
        }
        i += 1;
    }
    assert(texts.take(i as int) =~= texts);
    out
}

/// A row of the output.
pub struct Row {
    /// The number of the line.
    pub index: u64,
    /// The puzzle, or points where the line held none.
    pub text: Vec<u8>,
    pub rate: RateResult,
}

/// How many rows there are, and how many of them could not be rated.
#[derive(Debug, Clone, Copy, PartialEq, Eq, Structural)]
pub struct Tally {
    pub total: u64,
    pub errors: u64,
}

/// The rating of what cannot be rated.
pub open spec fn is_unrated(r: RateResult) -> bool {
    &&& r.rater_error
    &&& r.tier == Tier::T4Plus
    &&& r.frontier@.len() == 0
    &&& !r.solved
    &&& !r.unique_solution
    &&& r.wave_depth == 0
    &&& r.backtrack_steps == 0
    &&& r.se_milli == 0
}

/// The string can be read as a puzzle of the shape.
pub open spec fn is_rateable<const N: usize, const BR: usize, const BC: usize>(s: Seq<u8>) -> bool {
    let g = Grid::<N, BR, BC>::shape();
    grid::readable(g, s) && grid::clues_agree(g, grid::clues(g, s))
}

/// `r` is a rating that a rater can lead to for a string: an answer that it can give for the
/// puzzle, without the techniques of `excluded` if there are any; for what cannot be read, the
/// rating of what cannot be rated.
pub open spec fn may_rate<const N: usize, const BR: usize, const BC: usize, R: Rater<N, BR, BC>>(
    s: Seq<u8>,
    excluded: Seq<TechniqueId>,
    r: RateResult,
) -> bool {
    if is_rateable::<N, BR, BC>(s) {
        exists|g: Grid<N, BR, BC>|
            #[trigger] g.shows(grid::clues(Grid::<N, BR, BC>::shape(), s)) && if excluded.len()
                == 0 {
                rater::may_say::<N, BR, BC, R>(g, r)
            } else {
                rater::may_say_without::<N, BR, BC, R>(g, excluded, r)
            }
    } else {
        is_unrated(r)
    }
}

/// Rates a puzzle, without the techniques of `excluded` if there are any.
pub fn rate_text<const N: usize, const BR: usize, const BC: usize, R: Rater<N, BR, BC>>(
    rater: &mut R,
    text: &Vec<u8>,
    excluded: &Vec<TechniqueId>,
) -> (r: RateResult)
    requires
        Grid::<N, BR, BC>::shape().ok(),
    ensures
        may_rate::<N, BR, BC, R>(text@, excluded@, r),
{
    match Grid::<N, BR, BC>::from_bytes(text.as_slice()) {
        Some(g) => if excluded.len() == 0 {
            let r = rater.rate(&g);
            assert(rater::may_say::<N, BR, BC, R>(g, r));
            r
        } else {
            let r = rater.rate_excluding(&g, excluded);
            assert(rater::may_say_without::<N, BR, BC, R>(g, excluded@, r));
            r
        },
        None => RateResult::of_unreadable(),
    }
}

/// One point for each cell.
pub fn blank_text(cells: usize) -> (r: Vec<u8>)
    ensures
        r@ == Seq::new(cells as nat, |i: int| 0x2eu8),
{
    let mut r: Vec<u8> = Vec::new();
    let mut i: usize = 0;
    while i < cells
        invariant
            i <= cells,
            r@ == Seq::new(i as nat, |j: int| 0x2eu8),
        decreases cells - i,
    {
        r.push(0x2e);
        assert(r@ =~= Seq::new((i + 1) as nat, |j: int| 0x2eu8));
        i += 1;
    }
    r
}

/// The row stands for the line, with a rating that a rater can lead to.
pub open spec fn is_row_of<const N: usize, const BR: usize, const BC: usize, R: Rater<N, BR, BC>>(
    row: Row,
    line: Line,
    index: int,
    excluded: Seq<TechniqueId>,
) -> bool {
    &&& row.index == index
    &&& match line {
        Line::Puzzle(p) => {
            &&& row.text@ == p@
            &&& may_rate::<N, BR, BC, R>(p@, excluded, row.rate)
        },
        Line::Bad => {
            &&& row.text@ == Seq::new((N * N) as nat, |i: int| 0x2eu8)
            &&& is_unrated(row.rate)
        },
    }
}

/// The number of rows that could not be rated.
pub open spec fn error_count(rows: Seq<Row>) -> nat
    decreases rows.len(),
{
    if rows.len() == 0 {
        0
    } else {
        error_count(rows.drop_last()) + if rows.last().rate.rater_error {
            1nat
        } else {
            0nat
        }
    }
}

impl Tally {
    /// Nothing was rated yet.
    pub fn new() -> (r: Self)
        ensures
            r.total == 0,
            r.errors == 0,
    {
        Tally { total: 0, errors: 0 }
    }

    /// No more rows failed than there are.
    pub open spec fn wf(&self) -> bool {
        self.errors <= self.total
    }
}

/// Rates the lines of a chunk. There is one row for each of them, in their order, also for
/// those that hold no puzzle, so that row and line numbers agree.
pub fn rate_chunk<const N: usize, const BR: usize, const BC: usize, R: Rater<N, BR, BC>>(
    rater: &mut R,
    lines: &Vec<Line>,
    excluded: &Vec<TechniqueId>,
    tally: &mut Tally,
) -> (rows: Vec<Row>)
    requires
        Grid::<N, BR, BC>::shape().ok(),
        old(tally).wf(),
        old(tally).total + lines@.len() <= u64::MAX,
    ensures
        rows@.len() == lines@.len(),
        forall|i: int|
            0 <= i < rows@.len() ==> is_row_of::<N, BR, BC, R>(
                #[trigger] rows@[i],
                lines@[i],
                old(tally).total + i,
                excluded@,
            ),
        final(tally).wf(),
        final(tally).total == old(tally).total + lines@.len(),
        final(tally).errors == old(tally).errors + error_count(rows@),
{
    let mut rows: Vec<Row> = Vec::new();
    let mut i: usize = 0;
    let first: u64 = tally.total;
    while i < lines.len()
        invariant
            Grid::<N, BR, BC>::shape().ok(),
            i <= lines@.len(),
            rows@.len() == i,
            first == old(tally).total,
            first + lines@.len() <= u64::MAX,
            tally.wf(),
            tally.total == first + i,
            tally.errors == old(tally).errors + error_count(rows@),
            forall|j: int|
                0 <= j < i ==> is_row_of::<N, BR, BC, R>(
                    #[trigger] rows@[j],
                    lines@[j],
                    first + j,
                    excluded@,
                ),
        decreases lines@.len() - i,
    {
        let index: u64 = first + i as u64;
        assert(N * N <= 31 * 31) by (nonlinear_arith)
            requires
                N <= 31,
        ;
        let row: Row = match &lines[i] {
            Line::Puzzle(p) => {
                let rate: RateResult = rate_text(rater, p, excluded);
                let text: Vec<u8> = p.clone();
                assert(text@ =~= p@);
                Row { index, text, rate }
            },
            Line::Bad => Row { index, text: blank_text(N * N), rate: RateResult::of_unreadable() },
        };
        let failed: bool = row.rate.rater_error;
        let ghost before = rows@;
        rows.push(row);
        assert(rows@.drop_last() =~= before);
        tally.total = tally.total + 1;
        if failed {
            tally.errors = tally.errors + 1;
        }
        i += 1;
    }
    rows
}

} // verus!
