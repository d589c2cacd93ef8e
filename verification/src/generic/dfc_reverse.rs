//! Puzzles whose hardest technique is a dynamic forcing chain, found next to given seeds.
//!
//! Nested forcing chains do whatever a dynamic forcing chain does. They are left out of the
//! rating, so that the dynamic forcing chain shows.

use super::carving;
use super::grid;
use super::grid::Grid;
use super::mutation;
use super::mutation::{count_clues, mutate_1, mutate_2, text_of};
use super::rater;
use super::rater::{RateResult, Rater};
use super::reverse_construct;
use super::rng;
use super::search::solve_unique;
use super::solutions;
use super::techniques::{contains_technique, TechniqueId};
use crate::lexing;
use crate::lexing::{chars_in, trim};
use rand_xoshiro::Xoshiro256PlusPlus;
use vstd::hash_set::StringHashSet;
use vstd::prelude::*;

verus! {

/// What a puzzle has to be like. Scores are Sudoku Explainer scores in thousandths.
#[derive(Clone, Copy, Debug)]
pub struct DfcReverseSpec {
    /// The lowest score.
    pub target_se: i64,
    /// The score below which a puzzle has to stay, if there is one.
    pub target_se_upper: Option<i64>,
    /// Nested forcing chains are left out of the rating.
    pub excluded_nested_fc: bool,
    /// The number of puzzles that are tried next to each seed.
    pub attempts_per_seed: u32,
    pub rng_seed: u64,
    pub clue_min: u32,
    pub clue_max: u32,
    /// The number of seeds that are tried.
    pub max_total_attempts: u32,
    pub threads: usize,
}

impl Default for DfcReverseSpec {
    fn default() -> (r: Self)
        ensures
            r.target_se == 9000,
            r.target_se_upper == Some(9500i64),
            r.excluded_nested_fc,
            r.attempts_per_seed == 200,
            r.rng_seed == 0,
            r.clue_min == 20,
            r.clue_max == 28,
            r.max_total_attempts == 50_000,
            r.threads == 0,
    {
        DfcReverseSpec {
            target_se: 9000,
            target_se_upper: Some(9500),
            excluded_nested_fc: true,
            attempts_per_seed: 200,
            rng_seed: 0,
            clue_min: 20,
            clue_max: 28,
            max_total_attempts: 50_000,
            threads: 0,
        }
    }
}

/// A puzzle that was found.
#[derive(Debug)]
pub struct ConstructedPuzzle {
    /// One character per cell, `.` for an open one.
    pub puzzle: String,
    pub solution: String,
    /// The score in thousandths.
    pub se_milli: u32,
    /// The techniques that were needed.
    pub frontier: Vec<TechniqueId>,
    pub clue_count: u32,
}

/// The rating is one that is sought: the puzzle was solved with a dynamic forcing chain, and
/// the score is within the limits.
pub open spec fn accepted(r: RateResult, spec: DfcReverseSpec) -> bool {
    &&& !r.rater_error
    &&& r.solved
    &&& r.frontier@.contains(TechniqueId::DynamicForcingChain)
    &&& r.se_milli >= spec.target_se
    &&& spec.target_se_upper matches Some(x) ==> r.se_milli < x
}

/// Whether a rating is one that is sought.
pub fn is_dfc_top(r: &RateResult, spec: &DfcReverseSpec) -> (b: bool)
    ensures
        b == accepted(*r, *spec),
{
    if r.rater_error || !r.solved {
        return false;
    }
    if !contains_technique(&r.frontier, TechniqueId::DynamicForcingChain) {
        return false;
    }
    let se: i64 = r.se_milli as i64;
    if se < spec.target_se {
        return false;
    }
    match spec.target_se_upper {
        Some(upper) => se < upper,
        None => true,
    }
}

/// The nested forcing chains.
pub open spec fn nested_fcs() -> Seq<TechniqueId> {
    seq![
        TechniqueId::NestedForcingChain,
        TechniqueId::NestedForcingChainL3,
        TechniqueId::NestedForcingChainL4,
    ]
}

/// The nested forcing chains.
pub fn nested_fc_all() -> (v: Vec<TechniqueId>)
    ensures
        v@ == nested_fcs(),
{
    let v: Vec<TechniqueId> = vec![
        TechniqueId::NestedForcingChain,
        TechniqueId::NestedForcingChainL3,
        TechniqueId::NestedForcingChainL4,
    ];
    assert(v@ =~= seq![
        TechniqueId::NestedForcingChain,
        TechniqueId::NestedForcingChainL3,
        TechniqueId::NestedForcingChainL4,
    ]);
    v
}

/// The score and the techniques of a rating, if it is one that is sought.
pub open spec fn taken(rate: RateResult, spec: DfcReverseSpec) -> Option<(u32, Vec<TechniqueId>)> {
    if accepted(rate, spec) {
        Some((rate.se_milli, rate.frontier))
    } else {
        None
    }
}

/// `rate` is an answer that a rater can give to what it is asked about a puzzle: its rating,
/// without nested forcing chains if so specified.
pub open spec fn may_rate<const N: usize, const BR: usize, const BC: usize, R: Rater<N, BR, BC>>(
    spec: DfcReverseSpec,
    g: Grid<N, BR, BC>,
    rate: RateResult,
) -> bool {
    if spec.excluded_nested_fc {
        rater::may_say_without::<N, BR, BC, R>(g, nested_fcs(), rate)
    } else {
        rater::may_say::<N, BR, BC, R>(g, rate)
    }
}

/// The score and the techniques of a rating, if it is one that is sought.
pub fn taken_from(rate: RateResult, spec: &DfcReverseSpec) -> (r: Option<(u32, Vec<TechniqueId>)>)
    ensures
        r == taken(rate, *spec),
{
    if is_dfc_top(&rate, spec) {
        Some((rate.se_milli, rate.frontier))
    } else {
        None
    }
}

/// Rates a puzzle, without nested forcing chains if so specified: its score and the
/// techniques that were needed, if the rating is one that is sought.
pub fn try_accept<const N: usize, const BR: usize, const BC: usize, R: Rater<N, BR, BC>>(
    rater: &mut R,
    grid: &Grid<N, BR, BC>,
    spec: &DfcReverseSpec,
) -> (r: Option<(u32, Vec<TechniqueId>)>)
    ensures
        exists|rate: RateResult| #[trigger]
            may_rate::<N, BR, BC, R>(*spec, *grid, rate) && r == taken(rate, *spec),
{
    let rate: RateResult = if spec.excluded_nested_fc {
        rater.rate_excluding(grid, &nested_fc_all())
    } else {
        rater.rate(grid)
    };
    assert(may_rate::<N, BR, BC, R>(*spec, *grid, rate));
    taken_from(rate, spec)
}

/// The character may stand in a seed.
pub open spec fn is_seed_char(c: char) -> bool {
    c == '.' || ('0' <= c && c <= '9')
}

/// The line, without white space at its ends, begins with a puzzle.
pub open spec fn is_seed_line(line: Seq<char>) -> bool {
    let t = lexing::trimmed(line);
    t.len() >= 81 && forall|i: int| 0 <= i < 81 ==> is_seed_char(#[trigger] t[i])
}

/// The puzzle that a line begins with, with `.` for every open cell.
pub open spec fn seed_of(line: Seq<char>) -> Seq<u8> {
    let t = lexing::trimmed(line);
    Seq::new(
        81,
        |i: int|
            if t[i] == '0' {
                mutation::OPEN
            } else {
                t[i] as u8
            },
    )
}

/// The puzzles that the lines begin with, in order. Other lines are skipped.
pub open spec fn seeds_of(lines: Seq<Seq<char>>) -> Seq<Seq<u8>>
    decreases lines.len(),
{
    if lines.len() == 0 {
        Seq::empty()
    } else if is_seed_line(lines.last()) {
        seeds_of(lines.drop_last()).push(seed_of(lines.last()))
    } else {
        seeds_of(lines.drop_last())
    }
}

/// The texts of lines.
pub open spec fn line_texts(l: Seq<String>) -> Seq<Seq<char>> {
    Seq::new(l.len(), |i: int| l[i]@)
}

/// The puzzle that a line begins with, if it does. Comments and short lines do not.
pub fn parse_seed(line: &str) -> (r: Option<Vec<u8>>)
    ensures
        r is Some == is_seed_line(line@),
        r matches Some(p) ==> p@ == seed_of(line@) && mutation::is_puzzle_text(p@),
{
    let s: Vec<char> = trim(&chars_in(line));
    if s.len() < 81 {
        return None;
    }
    let mut p: Vec<u8> = Vec::new();
    let mut i: usize = 0;
    while i < 81
        invariant
            s@ == lexing::trimmed(line@),
            s@.len() >= 81,
            i <= 81,
            p@.len() == i,
            forall|j: int|
                0 <= j < i ==> is_seed_char(#[trigger] s@[j]) && p@[j] == seed_of(line@)[j],
        decreases 81 - i,
    {
        let c: char = s[i];
        if c == '0' {
            p.push(mutation::OPEN);
        } else if c == '.' || ('1' <= c && c <= '9') {
            p.push(c as u8);
        } else {
            assert(!is_seed_char(s@[i as int]));
            return None;
        }
        i += 1;
    }
    proof {
        assert(p@ =~= seed_of(line@));
        assert forall|j: int| 0 <= j < 81 implies #[trigger] p@[j] == mutation::OPEN
            || mutation::is_clue_byte(p@[j]) by {
            assert(is_seed_char(s@[j]));
        }
    }
    Some(p)
}

/// The puzzles that the lines begin with.
pub fn parse_seeds(lines: &Vec<String>) -> (r: Vec<Vec<u8>>)
    ensures
        mutation::contents(r@) == seeds_of(line_texts(lines@)),
        forall|i: int| 0 <= i < r@.len() ==> mutation::is_puzzle_text((#[trigger] r@[i])@),
{
    let mut r: Vec<Vec<u8>> = Vec::new();
    let ghost all = line_texts(lines@);
    let mut i: usize = 0;
    while i < lines.len()
        invariant
            all == line_texts(lines@),
            i <= lines@.len(),
            mutation::contents(r@) == seeds_of(all.take(i as int)),
            forall|j: int| 0 <= j < r@.len() ==> mutation::is_puzzle_text((#[trigger] r@[j])@),
        decreases lines@.len() - i,
    {
        let ghost before = r@;
        proof {
            assert(all.take(i + 1).drop_last() =~= all.take(i as int));
            assert(all.take(i + 1).last() == lines@[i as int]@);
        }
        if let Some(p) = parse_seed(lines[i].as_str()) {
            r.push(p);
            assert(mutation::contents(r@) =~= mutation::contents(before).push(p@));
        }
        i += 1;
    }
    assert(all.take(i as int) =~= all);
    r
}

/// The characters of a filled grid.
pub open spec fn solution_text(cells: int, t: Seq<int>) -> Seq<char> {
    Seq::new(cells as nat, |i: int| grid::cell_char(t[i]))
}

/// `x` is the puzzle `p`, whose only solution is `t`, and its rating is one that is sought.
pub open spec fn describes<const N: usize, const BR: usize, const BC: usize>(
    x: ConstructedPuzzle,
    spec: DfcReverseSpec,
    p: Seq<u8>,
    t: Seq<int>,
) -> bool {
    let sh = Grid::<N, BR, BC>::shape();
    &&& x.puzzle@ == mutation::chars_of(p)
    &&& x.clue_count == mutation::clue_count(p)
    &&& grid::readable(sh, p)
    &&& carving::only_solution(sh, grid::clues(sh, p), t)
    &&& x.solution@ == solution_text(sh.cells(), t)
    &&& x.frontier@.contains(TechniqueId::DynamicForcingChain)
    &&& x.se_milli >= spec.target_se
    &&& spec.target_se_upper matches Some(u) ==> x.se_milli < u
}

/// `x` is the puzzle `p`, which has one solution, and its rating is one that is sought.
pub open spec fn is_sought<const N: usize, const BR: usize, const BC: usize>(
    x: ConstructedPuzzle,
    spec: DfcReverseSpec,
    p: Seq<u8>,
) -> bool {
    exists|t: Seq<int>| #[trigger] describes::<N, BR, BC>(x, spec, p, t)
}

/// `p` is one or two clues off one of the seeds of worker `w` of `n`.
pub open spec fn near_a_seed(seeds: Seq<Vec<u8>>, w: int, n: int, p: Seq<u8>) -> bool {
    exists|i: int|
        0 <= i < seeds.len() && i % n == w && (mutation::is_next_to((#[trigger] seeds[i])@, p)
            || mutation::is_two_off(seeds[i]@, p))
}

/// The numbers of candidates with one and with two replaced clues: half of the attempts each,
/// the first half rounded up, but at least four and two.
pub open spec fn budget(attempts_per_seed: u32) -> (nat, nat) {
    let n1 = (attempts_per_seed + 1) / 2;
    let n2 = attempts_per_seed as int / 2;
    (
        if n1 < 4 {
            4
        } else {
            n1 as nat
        },
        if n2 < 2 {
            2
        } else {
            n2 as nat
        },
    )
}

/// The candidates next to a seed that a generator with the words `words` leads to, and its
/// words afterwards.
pub open spec fn drawn_candidates(p: Seq<u8>, attempts_per_seed: u32, words: Seq<u64>) -> (
    Seq<Seq<u8>>,
    Seq<u64>,
) {
    let one = mutation::drawn_1(p, budget(attempts_per_seed).0, words);
    let two = mutation::drawn_2(p, budget(attempts_per_seed).1, one.1);
    (one.0 + two.0, two.1)
}

/// The seed of round `t` of worker `w` of `n`: it goes through its share of the `len` seeds
/// from the first to the last, and begins again.
pub open spec fn seed_at(len: int, w: int, n: int, t: nat) -> int
    decreases t,
{
    if t == 0 {
        w
    } else {
        let before = seed_at(len, w, n, (t - 1) as nat);
        if before + n < len {
            before + n
        } else {
            w
        }
    }
}

/// The words of the generator before round `t` of worker `w` of `n`.
pub open spec fn words_at(
    seeds: Seq<Vec<u8>>,
    attempts_per_seed: u32,
    words: Seq<u64>,
    w: int,
    n: int,
    t: nat,
) -> Seq<u64>
    decreases t,
{
    if t == 0 {
        words
    } else {
        let before = (t - 1) as nat;
        drawn_candidates(
            seeds[seed_at(seeds.len() as int, w, n, before)]@,
            attempts_per_seed,
            words_at(seeds, attempts_per_seed, words, w, n, before),
        ).1
    }
}

/// The candidates of round `t` of worker `w` of `n`, whose generator has the seed `seed`.
pub open spec fn candidates_at(
    spec: DfcReverseSpec,
    seeds: Seq<Vec<u8>>,
    seed: u64,
    w: int,
    n: int,
    t: nat,
) -> Seq<Seq<u8>> {
    drawn_candidates(
        seeds[seed_at(seeds.len() as int, w, n, t)]@,
        spec.attempts_per_seed,
        words_at(seeds, spec.attempts_per_seed, rng::seed_state(seed), w, n, t),
    ).0
}

/// `p` is a candidate of some round of worker `w` of `n`.
pub open spec fn is_candidate(
    spec: DfcReverseSpec,
    seeds: Seq<Vec<u8>>,
    seed: u64,
    w: int,
    n: int,
    p: Seq<u8>,
) -> bool {
    exists|t: nat|
        t < spec.max_total_attempts && (#[trigger] candidates_at(spec, seeds, seed, w, n, t)).contains(
            p,
        )
}

/// `x` is one of the candidates of worker `w` of `n`, whose generator has the seed `seed`, and
/// is what is sought. It is next to one of the seeds of the worker.
pub open spec fn is_found<const N: usize, const BR: usize, const BC: usize>(
    x: ConstructedPuzzle,
    spec: DfcReverseSpec,
    seeds: Seq<Vec<u8>>,
    seed: u64,
    w: int,
    n: int,
) -> bool {
    exists|p: Seq<u8>| #[trigger]
        is_sought::<N, BR, BC>(x, spec, p) && near_a_seed(seeds, w, n, p) && is_candidate(
            spec,
            seeds,
            seed,
            w,
            n,
            p,
        )
}

/// `x` was found by one of `n` workers.
pub open spec fn is_found_by_some<const N: usize, const BR: usize, const BC: usize>(
    x: ConstructedPuzzle,
    spec: DfcReverseSpec,
    seeds: Seq<Vec<u8>>,
    n: int,
) -> bool {
    exists|w: int|
        0 <= w < n && #[trigger] is_found::<N, BR, BC>(
            x,
            spec,
            seeds,
            reverse_construct::seed_of_worker(spec.rng_seed, w),
            w,
            n,
        )
}

/// The number of workers for a number of threads.
pub open spec fn workers_for(threads: usize) -> int {
    if threads > 1 {
        threads as int
    } else {
        1
    }
}

/// Different results show different puzzles.
pub open spec fn puzzles_differ(l: Seq<ConstructedPuzzle>) -> bool {
    forall|i: int, j: int|
        0 <= i < j < l.len() ==> (#[trigger] l[i]).puzzle@ != (#[trigger] l[j]).puzzle@
}

/// `r` is what a candidate leads to: nothing if it is no puzzle with one solution; else the
/// rating decides, which is an answer that a rater can give.
pub open spec fn is_verdict<const N: usize, const BR: usize, const BC: usize, R: Rater<N, BR, BC>>(
    spec: DfcReverseSpec,
    p: Seq<u8>,
    r: Option<ConstructedPuzzle>,
) -> bool {
    let sh = Grid::<N, BR, BC>::shape();
    let v = grid::clues(sh, p);
    if !grid::readable(sh, p) || !grid::clues_agree(sh, v) || grid::completions(sh, v).len() != 1 {
        r is None
    } else {
        exists|g: Grid<N, BR, BC>, rate: RateResult|
            g.shows(v) && #[trigger] may_rate::<N, BR, BC, R>(spec, g, rate) && match r {
                Some(x) => accepted(rate, spec) && is_sought::<N, BR, BC>(x, spec, p)
                    && x.puzzle@ == mutation::chars_of(p) && x.se_milli == rate.se_milli
                    && x.frontier == rate.frontier,
                None => !accepted(rate, spec),
            }
    }
}

/// Judges one candidate.
fn judge<const N: usize, const BR: usize, const BC: usize, R: Rater<N, BR, BC>>(
    rater: &mut R,
    spec: &DfcReverseSpec,
    cand: &Vec<u8>,
) -> (r: Option<ConstructedPuzzle>)
    requires
        Grid::<N, BR, BC>::shape().ok(),
        cand@.len() == 81,
    ensures
        r matches Some(x) ==> x.puzzle@ == mutation::chars_of(cand@) && is_sought::<N, BR, BC>(
            x,
            *spec,
            cand@,
        ),
        is_verdict::<N, BR, BC, R>(*spec, cand@, r),
{
    let ghost sh = Grid::<N, BR, BC>::shape();
    let puzzle: Grid<N, BR, BC> = match Grid::from_bytes(cand.as_slice()) {
        Some(g) => g,
        None => {
            return None;
        },
    };
    proof {
        grid::lemma_shows_solutions(puzzle, grid::clues(sh, cand@));
    }
    let solution: Grid<N, BR, BC> = match solve_unique(&puzzle) {
        Some(s) => s,
        None => {
            return None;
        },
    };
    let ghost t = solutions::digits_of(solution.solved@);
    let taken_now = try_accept(rater, &puzzle, spec);
    let ghost rate = choose|rate: RateResult| #[trigger]
        may_rate::<N, BR, BC, R>(*spec, puzzle, rate) && taken_now == taken(rate, *spec);
    match taken_now {
        Some((se_milli, frontier)) => {
            let x = ConstructedPuzzle {
                puzzle: text_of(cand),
                solution: solution.to_string_grid(),
                se_milli,
                frontier,
                clue_count: count_clues(cand) as u32,
            };
            proof {
                assert(x.solution@ =~= solution_text(sh.cells(), t));
                assert(describes::<N, BR, BC>(x, *spec, cand@, t));
                assert(is_sought::<N, BR, BC>(x, *spec, cand@));
                assert(may_rate::<N, BR, BC, R>(*spec, puzzle, rate));
            }
            Some(x)
        },
        None => {
            assert(may_rate::<N, BR, BC, R>(*spec, puzzle, rate));
            None
        },
    }
}

/// The numbers of candidates with one and with two replaced clues.
pub fn candidate_budget(attempts_per_seed: u32) -> (r: (u32, u32))
    ensures
        r.0 == budget(attempts_per_seed).0,
        r.1 == budget(attempts_per_seed).1,
{
    let n1: u32 = attempts_per_seed / 2 + attempts_per_seed % 2;
    let n2: u32 = attempts_per_seed / 2;
    (
        if n1 < 4 {
            4
        } else {
            n1
        },
        if n2 < 2 {
            2
        } else {
            n2
        },
    )
}

/// What a search has so far: the candidates that were seen, and the results.
#[verifier::ext_equal]
pub struct Haul {
    pub seen: Set<Seq<char>>,
    pub out: Seq<ConstructedPuzzle>,
}

/// The results with what a candidate leads to.
pub open spec fn with_verdict(
    out: Seq<ConstructedPuzzle>,
    v: Option<ConstructedPuzzle>,
) -> Seq<ConstructedPuzzle> {
    match v {
        Some(x) => out.push(x),
        None => out,
    }
}

/// The candidate `p` leads from `a` to `b`. It is passed over if it was seen, or if there are
/// `num` results.
pub open spec fn judges_one<const N: usize, const BR: usize, const BC: usize, R: Rater<N, BR, BC>>(
    spec: DfcReverseSpec,
    num: int,
    p: Seq<u8>,
    a: Haul,
    b: Haul,
) -> bool {
    if a.out.len() >= num || a.seen.contains(mutation::chars_of(p)) {
        b == a
    } else {
        &&& b.seen == a.seen.insert(mutation::chars_of(p))
        &&& exists|v: Option<ConstructedPuzzle>| #[trigger]
            is_verdict::<N, BR, BC, R>(spec, p, v) && b.out == with_verdict(a.out, v)
    }
}

/// The candidates `ps`, one after another, lead from `a` to `b`.
pub open spec fn judges<const N: usize, const BR: usize, const BC: usize, R: Rater<N, BR, BC>>(
    spec: DfcReverseSpec,
    num: int,
    ps: Seq<Seq<u8>>,
    a: Haul,
    b: Haul,
) -> bool
    decreases ps.len(),
{
    if ps.len() == 0 {
        b == a
    } else {
        exists|m: Haul|
            judges::<N, BR, BC, R>(spec, num, ps.drop_last(), a, m) && #[trigger] judges_one::<
                N,
                BR,
                BC,
                R,
            >(spec, num, ps.last(), m, b)
    }
}

/// Once there are enough results, no candidate makes a difference.
proof fn lemma_enough<const N: usize, const BR: usize, const BC: usize, R: Rater<N, BR, BC>>(
    spec: DfcReverseSpec,
    num: int,
    ps: Seq<Seq<u8>>,
    k: int,
    a: Haul,
    b: Haul,
)
    requires
        0 <= k <= ps.len(),
        judges::<N, BR, BC, R>(spec, num, ps.take(k), a, b),
        k == ps.len() || b.out.len() >= num,
    ensures
        judges::<N, BR, BC, R>(spec, num, ps, a, b),
    decreases ps.len() - k,
{
    if k == ps.len() {
        assert(ps.take(k) =~= ps);
    } else {
        assert(ps.take(k + 1).drop_last() =~= ps.take(k));
        assert(judges_one::<N, BR, BC, R>(spec, num, ps.take(k + 1).last(), b, b));
        lemma_enough::<N, BR, BC, R>(spec, num, ps, k + 1, a, b);
    }
}

/// Judges the candidates that were not seen before, until there are enough results.
fn judge_all<const N: usize, const BR: usize, const BC: usize, R: Rater<N, BR, BC>>(
    rater: &mut R,
    spec: &DfcReverseSpec,
    cands: &Vec<Vec<u8>>,
    seeds: &Vec<Vec<u8>>,
    rng_seed: u64,
    w: usize,
    n: usize,
    seen: &mut StringHashSet,
    out: &mut Vec<ConstructedPuzzle>,
    num_puzzles: u32,
)
    requires
        Grid::<N, BR, BC>::shape().ok(),
        0 < n,
        forall|i: int|
            0 <= i < cands@.len() ==> (#[trigger] cands@[i])@.len() == 81 && near_a_seed(
                seeds@,
                w as int,
                n as int,
                cands@[i]@,
            ) && is_candidate(*spec, seeds@, rng_seed, w as int, n as int, cands@[i]@),
        old(out)@.len() <= num_puzzles,
        puzzles_differ(old(out)@),
        forall|i: int|
            0 <= i < old(out)@.len() ==> old(seen)@.contains((#[trigger] old(out)@[i]).puzzle@)
                && is_found::<N, BR, BC>(old(out)@[i], *spec, seeds@, rng_seed, w as int, n as int),
    ensures
        old(out)@.len() <= final(out)@.len() <= num_puzzles,
        puzzles_differ(final(out)@),
        forall|i: int|
            0 <= i < final(out)@.len() ==> final(seen)@.contains((#[trigger] final(out)@[i]).puzzle@)
                && is_found::<N, BR, BC>(final(out)@[i], *spec, seeds@, rng_seed, w as int, n as int),
        judges::<N, BR, BC, R>(
            *spec,
            num_puzzles as int,
            mutation::contents(cands@),
            (Haul { seen: old(seen)@, out: old(out)@ }),
            (Haul { seen: final(seen)@, out: final(out)@ }),
        ),
{
    let ghost ps = mutation::contents(cands@);
    let ghost start = Haul { seen: seen@, out: out@ };
    let mut i: usize = 0;
    assert(ps.take(0) =~= Seq::<Seq<u8>>::empty());
    while i < cands.len() && out.len() < num_puzzles as usize
        invariant
            Grid::<N, BR, BC>::shape().ok(),
            0 < n,
            forall|i: int|
                0 <= i < cands@.len() ==> (#[trigger] cands@[i])@.len() == 81 && near_a_seed(
                    seeds@,
                    w as int,
                    n as int,
                    cands@[i]@,
                ) && is_candidate(*spec, seeds@, rng_seed, w as int, n as int, cands@[i]@),
            i <= cands@.len(),
            ps == mutation::contents(cands@),
            judges::<N, BR, BC, R>(
                *spec,
                num_puzzles as int,
                ps.take(i as int),
                start,
                (Haul { seen: seen@, out: out@ }),
            ),
            old(out)@.len() <= out@.len() <= num_puzzles,
            puzzles_differ(out@),
            forall|i: int|
                0 <= i < out@.len() ==> seen@.contains((#[trigger] out@[i]).puzzle@) && is_found::<
                    N,
                    BR,
                    BC,
                >(out@[i], *spec, seeds@, rng_seed, w as int, n as int),
        decreases cands@.len() - i,
    {
        let cand = &cands[i];
        assert(cands@[i as int]@.len() == 81);
        let ghost a = Haul { seen: seen@, out: out@ };
        proof {
            assert(ps.take(i + 1).drop_last() =~= ps.take(i as int));
            assert(ps.take(i + 1).last() == cand@);
        }
        i += 1;
        let text = text_of(cand);
        if !seen.contains(text.as_str()) {
            let ghost seen0 = seen@;
            let _new = seen.insert(text);
            let verdict = judge::<N, BR, BC, R>(rater, spec, cand);
            let ghost v = verdict;
            if let Some(x) = verdict {
                let ghost out0 = out@;
                proof {
                    assert(is_sought::<N, BR, BC>(x, *spec, cand@) && near_a_seed(
                        seeds@,
                        w as int,
                        n as int,
                        cand@,
                    ) && is_candidate(*spec, seeds@, rng_seed, w as int, n as int, cand@));
                    assert(is_found::<N, BR, BC>(x, *spec, seeds@, rng_seed, w as int, n as int));
                }
                out.push(x);
                proof {
                    assert forall|a: int, b: int| 0 <= a < b < out@.len() implies (
                    #[trigger] out@[a]).puzzle@ != (#[trigger] out@[b]).puzzle@ by {
                        assert(out@[a] == out0[a]);
                        if b == out0.len() {
                            assert(seen0.contains(out0[a].puzzle@));
                        }
                    }
                }
            }
            assert(is_verdict::<N, BR, BC, R>(*spec, cand@, v));
            assert(out@ == with_verdict(a.out, v));
        }
        assert(judges_one::<N, BR, BC, R>(
            *spec,
            num_puzzles as int,
            ps.take(i as int).last(),
            a,
            (Haul { seen: seen@, out: out@ }),
        ));
    }
    proof {
        lemma_enough::<N, BR, BC, R>(
            *spec,
            num_puzzles as int,
            ps,
            i as int,
            start,
            Haul { seen: seen@, out: out@ },
        );
    }
}

/// The search of a worker: what it goes by, the seed of its generator, and which of how many
/// workers it is.
pub struct Share {
    pub spec: DfcReverseSpec,
    pub seed: u64,
    pub num: int,
    pub w: int,
    pub n: int,
}

/// Round `t` of a worker leads from `a` to `b`: its candidates are judged, unless there are enough
/// results.
pub open spec fn is_round<const N: usize, const BR: usize, const BC: usize, R: Rater<N, BR, BC>>(
    sh: Share,
    seeds: Seq<Vec<u8>>,
    t: nat,
    a: Haul,
    b: Haul,
) -> bool {
    if a.out.len() >= sh.num {
        b == a
    } else {
        judges::<N, BR, BC, R>(
            sh.spec,
            sh.num,
            candidates_at(sh.spec, seeds, sh.seed, sh.w, sh.n, t),
            a,
            b,
        )
    }
}

/// The first `t` rounds of a worker lead to `b`.
pub open spec fn rounds_lead_to<
    const N: usize,
    const BR: usize,
    const BC: usize,
    R: Rater<N, BR, BC>,
>(sh: Share, seeds: Seq<Vec<u8>>, t: nat, b: Haul) -> bool
    decreases t,
{
    if t == 0 {
        b == (Haul { seen: Set::empty(), out: Seq::empty() })
    } else {
        exists|m: Haul|
            rounds_lead_to::<N, BR, BC, R>(sh, seeds, (t - 1) as nat, m) && #[trigger] is_round::<
                N,
                BR,
                BC,
                R,
            >(sh, seeds, (t - 1) as nat, m, b)
    }
}

/// Once there are enough results, no round makes a difference.
proof fn lemma_rounds_enough<
    const N: usize,
    const BR: usize,
    const BC: usize,
    R: Rater<N, BR, BC>,
>(sh: Share, seeds: Seq<Vec<u8>>, t: nat, end: nat, b: Haul)
    requires
        t <= end,
        rounds_lead_to::<N, BR, BC, R>(sh, seeds, t, b),
        t == end || b.out.len() >= sh.num,
    ensures
        rounds_lead_to::<N, BR, BC, R>(sh, seeds, end, b),
    decreases end - t,
{
    if t < end {
        assert(is_round::<N, BR, BC, R>(sh, seeds, ((t + 1) - 1) as nat, b, b));
        lemma_rounds_enough::<N, BR, BC, R>(sh, seeds, t + 1, end, b);
    }
}

/// `out` is what a worker can find: nothing if there is no seed for it; else what its rounds lead
/// to.
pub open spec fn may_gather<const N: usize, const BR: usize, const BC: usize, R: Rater<N, BR, BC>>(
    sh: Share,
    seeds: Seq<Vec<u8>>,
    out: Seq<ConstructedPuzzle>,
) -> bool {
    if sh.w >= seeds.len() {
        out.len() == 0
    } else {
        exists|seen: Set<Seq<char>>| #[trigger]
            rounds_lead_to::<N, BR, BC, R>(
                sh,
                seeds,
                sh.spec.max_total_attempts as nat,
                Haul { seen, out },
            )
    }
}

/// Searches next to the seeds of worker `w` of `n`, one seed after another, round and round.
pub fn dfc_reverse_inner<const N: usize, const BR: usize, const BC: usize, R: Rater<N, BR, BC>>(
    rater: &mut R,
    spec: &DfcReverseSpec,
    rng_seed: u64,
    num_puzzles: u32,
    seeds: &Vec<Vec<u8>>,
    w: usize,
    n: usize,
) -> (out: Vec<ConstructedPuzzle>)
    requires
        Grid::<N, BR, BC>::shape().ok(),
        w < n,
        forall|i: int| 0 <= i < seeds@.len() ==> mutation::is_puzzle_text((#[trigger] seeds@[i])@),
    ensures
        out@.len() <= num_puzzles,
        w >= seeds@.len() || spec.max_total_attempts == 0 ==> out@.len() == 0,
        puzzles_differ(out@),
        forall|i: int|
            0 <= i < out@.len() ==> is_found::<N, BR, BC>(
                #[trigger] out@[i],
                *spec,
                seeds@,
                rng_seed,
                w as int,
                n as int,
            ),
        may_gather::<N, BR, BC, R>(
            (Share {
                spec: *spec,
                seed: rng_seed,
                num: num_puzzles as int,
                w: w as int,
                n: n as int,
            }),
            seeds@,
            out@,
        ),
{
    let mut out: Vec<ConstructedPuzzle> = Vec::new();
    if w >= seeds.len() {
        return out;
    }
    let ghost sh = Share {
        spec: *spec,
        seed: rng_seed,
        num: num_puzzles as int,
        w: w as int,
        n: n as int,
    };
    let mut rng: Xoshiro256PlusPlus = rng::seeded(rng_seed);
    let mut seen = StringHashSet::new();
    let (n1, n2) = candidate_budget(spec.attempts_per_seed);
    let mut cursor: usize = w;
    let mut total: u32 = 0;
    assert(rounds_lead_to::<N, BR, BC, R>(sh, seeds@, 0, Haul { seen: seen@, out: out@ }));
    assert(w % n == w) by {
        vstd::arithmetic::div_mod::lemma_small_mod(w as nat, n as nat);
    }
    while total < spec.max_total_attempts && out.len() < num_puzzles as usize
        invariant
            Grid::<N, BR, BC>::shape().ok(),
            w < n,
            w < seeds@.len(),
            w as int % n as int == w,
            forall|i: int|
                0 <= i < seeds@.len() ==> mutation::is_puzzle_text((#[trigger] seeds@[i])@),
            cursor < seeds@.len(),
            cursor as int % n as int == w,
            n1 == budget(spec.attempts_per_seed).0,
            n2 == budget(spec.attempts_per_seed).1,
            cursor == seed_at(seeds@.len() as int, w as int, n as int, total as nat),
            rng::state(rng) == words_at(
                seeds@,
                spec.attempts_per_seed,
                rng::seed_state(rng_seed),
                w as int,
                n as int,
                total as nat,
            ),
            total <= spec.max_total_attempts,
            total == 0 ==> out@.len() == 0,
            sh == (Share {
                spec: *spec,
                seed: rng_seed,
                num: num_puzzles as int,
                w: w as int,
                n: n as int,
            }),
            rounds_lead_to::<N, BR, BC, R>(
                sh,
                seeds@,
                total as nat,
                (Haul { seen: seen@, out: out@ }),
            ),
            out@.len() <= num_puzzles,
            puzzles_differ(out@),
            forall|i: int|
                0 <= i < out@.len() ==> seen@.contains((#[trigger] out@[i]).puzzle@) && is_found::<
                    N,
                    BR,
                    BC,
                >(out@[i], *spec, seeds@, rng_seed, w as int, n as int),
        decreases spec.max_total_attempts - total,
    {
        let ghost t = total as nat;
        let ghost before = Haul { seen: seen@, out: out@ };
        total += 1;
        let seed = &seeds[cursor];
        assert(mutation::is_puzzle_text(seeds@[cursor as int]@));
        let mut cands: Vec<Vec<u8>> = mutate_1(seed, n1, &mut rng);
        let mut more: Vec<Vec<u8>> = mutate_2(seed, n2, &mut rng);
        let ghost a = cands@;
        let ghost b = more@;
        cands.append(&mut more);
        proof {
            let drawn = candidates_at(*spec, seeds@, rng_seed, w as int, n as int, t);
            assert(drawn == mutation::contents(a) + mutation::contents(b));
            assert forall|i: int| 0 <= i < cands@.len() implies (#[trigger] cands@[i])@.len() == 81
                && near_a_seed(seeds@, w as int, n as int, cands@[i]@) && is_candidate(
                *spec,
                seeds@,
                rng_seed,
                w as int,
                n as int,
                cands@[i]@,
            ) by {
                assert(drawn[i] == cands@[i]@);
                assert(drawn.contains(cands@[i]@));
                if i < a.len() {
                    assert(cands@[i] == a[i]);
                } else {
                    assert(cands@[i] == b[i - a.len()]);
                }
                assert(mutation::is_next_to(seeds@[cursor as int]@, cands@[i]@)
                    || mutation::is_two_off(seeds@[cursor as int]@, cands@[i]@));
                mutation::law_mutations_keep_the_pattern(seed@, cands@[i]@);
            }
        }
        judge_all::<N, BR, BC, R>(
            rater,
            spec,
            &cands,
            seeds,
            rng_seed,
            w,
            n,
            &mut seen,
            &mut out,
            num_puzzles,
        );
        proof {
            let drawn = candidates_at(*spec, seeds@, rng_seed, w as int, n as int, t);
            assert(mutation::contents(cands@) =~= drawn);
            assert((total as nat - 1) as nat == t);
            assert(is_round::<N, BR, BC, R>(
                sh,
                seeds@,
                (total as nat - 1) as nat,
                before,
                Haul { seen: seen@, out: out@ },
            ));
        }
        if n < seeds.len() - cursor {
            proof {
                vstd::arithmetic::div_mod::lemma_mod_add_multiples_vanish(cursor as int, n as int);
                assert((n + cursor) as int % n as int == cursor as int % n as int);
            }
            cursor = cursor + n;
        } else {
            cursor = w;
        }
    }
    proof {
        lemma_rounds_enough::<N, BR, BC, R>(
            sh,
            seeds@,
            total as nat,
            spec.max_total_attempts as nat,
            Haul { seen: seen@, out: out@ },
        );
    }
    out
}

/// One of the results shows the puzzle `p`.
pub open spec fn has_puzzle(out: Seq<ConstructedPuzzle>, p: Seq<char>) -> bool {
    exists|i: int| 0 <= i < out.len() && (#[trigger] out[i]).puzzle@ == p
}

/// The results `out` with those of `local` whose puzzle is not among them yet, in order, up to
/// `num` in all.
pub open spec fn merged(
    out: Seq<ConstructedPuzzle>,
    local: Seq<ConstructedPuzzle>,
    num: int,
) -> Seq<ConstructedPuzzle>
    decreases local.len(),
{
    if local.len() == 0 {
        out
    } else {
        let m = merged(out, local.drop_last(), num);
        if m.len() >= num || has_puzzle(m, local.last().puzzle@) {
            m
        } else {
            m.push(local.last())
        }
    }
}

/// Once there are enough results, no more are added.
proof fn lemma_merged_enough(
    out: Seq<ConstructedPuzzle>,
    local: Seq<ConstructedPuzzle>,
    num: int,
    k: int,
)
    requires
        0 <= k <= local.len(),
        k == local.len() || merged(out, local.take(k), num).len() >= num,
    ensures
        merged(out, local, num) == merged(out, local.take(k), num),
    decreases local.len() - k,
{
    if k == local.len() {
        assert(local.take(k) =~= local);
    } else {
        assert(local.take(k + 1).drop_last() =~= local.take(k));
        lemma_merged_enough(out, local, num, k + 1);
    }
}

/// The results of one worker that are not among those of others.
pub fn merge(out: &mut Vec<ConstructedPuzzle>, local: Vec<ConstructedPuzzle>, num_puzzles: u32)
    requires
        old(out)@.len() <= num_puzzles,
        puzzles_differ(old(out)@),
    ensures
        final(out)@ == merged(old(out)@, local@, num_puzzles as int),
        old(out)@.len() <= final(out)@.len() <= num_puzzles,
        puzzles_differ(final(out)@),
        forall|i: int|
            0 <= i < final(out)@.len() ==> old(out)@.contains(#[trigger] final(out)@[i])
                || local@.contains(final(out)@[i]),
{
    let ghost all = local@;
    let mut rest = local;
    assert(all.take(0) =~= Seq::<ConstructedPuzzle>::empty());
    while rest.len() > 0 && out.len() < num_puzzles as usize
        invariant
            all == local@,
            rest@.len() <= all.len(),
            rest@ == all.skip(all.len() - rest@.len()),
            out@ == merged(
                old(out)@,
                all.take(all.len() - rest@.len()),
                num_puzzles as int,
            ),
            old(out)@.len() <= out@.len() <= num_puzzles,
            puzzles_differ(out@),
            forall|i: int|
                0 <= i < out@.len() ==> old(out)@.contains(#[trigger] out@[i]) || all.contains(
                    out@[i],
                ),
        decreases rest@.len(),
    {
        let ghost r0 = rest@;
        let x = rest.remove(0);
        proof {
            assert(x == all[all.len() - r0.len()]);
            assert(all.contains(x));
            assert(rest@ =~= all.skip(all.len() - rest@.len()));
            assert(all.take(all.len() - rest@.len()).drop_last() =~= all.take(
                all.len() - r0.len(),
            ));
            assert(all.take(all.len() - rest@.len()).last() == x);
        }
        if !shows_puzzle(out, &x) {
            let ghost out0 = out@;
            out.push(x);
            proof {
                assert forall|i: int| 0 <= i < out@.len() implies old(out)@.contains(
                    #[trigger] out@[i],
                ) || all.contains(out@[i]) by {
                    if i < out0.len() {
                        assert(out@[i] == out0[i]);
                    }
                }
                assert forall|a: int, b: int| 0 <= a < b < out@.len() implies (
                #[trigger] out@[a]).puzzle@ != (#[trigger] out@[b]).puzzle@ by {
                    assert(out@[a] == out0[a]);
                    if b < out0.len() {
                        assert(out@[b] == out0[b]);
                    }
                }
            }
        }
    }
    proof {
        lemma_merged_enough(
            old(out)@,
            all,
            num_puzzles as int,
            all.len() - rest@.len(),
        );
    }
}

/// Whether one of the results shows the same puzzle.
fn shows_puzzle(out: &Vec<ConstructedPuzzle>, x: &ConstructedPuzzle) -> (r: bool)
    ensures
        r == has_puzzle(out@, x.puzzle@),
{
    let mut i: usize = 0;
    while i < out.len()
        invariant
            i <= out@.len(),
            forall|j: int| 0 <= j < i ==> (#[trigger] out@[j]).puzzle@ != x.puzzle@,
        decreases out@.len() - i,
    {
        if out[i].puzzle == x.puzzle {
            assert(out@[i as int].puzzle@ == x.puzzle@);
            return true;
        }
        i += 1;
    }
    false
}

/// The number of puzzles that each of `n` workers may find: an equal share, rounded up, at
/// least one.
pub open spec fn quota(num_puzzles: int, n: int) -> int {
    if num_puzzles == 0 {
        1
    } else {
        (num_puzzles - 1) / n + 1
    }
}

/// The number of puzzles that each of `n` workers may find.
pub fn worker_quota(num_puzzles: u32, n: usize) -> (r: u32)
    requires
        0 < n,
    ensures
        r == quota(num_puzzles as int, n as int),
{
    if num_puzzles == 0 {
        1
    } else {
        let q: u64 = (num_puzzles as u64 - 1) / n as u64;
        assert(q < num_puzzles) by (nonlinear_arith)
            requires
                q == (num_puzzles - 1) / n as int,
                n >= 1,
                num_puzzles >= 1,
        ;
        q as u32 + 1
    }
}

/// The share of worker `w` of `n`.
pub open spec fn share_of(spec: DfcReverseSpec, num: int, w: int, n: int) -> Share {
    Share { spec, seed: reverse_construct::seed_of_worker(spec.rng_seed, w), num, w, n }
}

/// Worker `w` of `n` can make `b` of the results `a`, unless there are enough.
pub open spec fn worker_adds<const N: usize, const BR: usize, const BC: usize, R: Rater<N, BR, BC>>(
    spec: DfcReverseSpec,
    seeds: Seq<Vec<u8>>,
    num: int,
    w: int,
    n: int,
    a: Seq<ConstructedPuzzle>,
    b: Seq<ConstructedPuzzle>,
) -> bool {
    if a.len() >= num {
        b == a
    } else {
        exists|local: Seq<ConstructedPuzzle>| #[trigger]
            may_gather::<N, BR, BC, R>(share_of(spec, quota(num, n), w, n), seeds, local) && b
                == merged(a, local, num)
    }
}

/// The first `w` of `n` workers can find `out` together.
pub open spec fn workers_gather<
    const N: usize,
    const BR: usize,
    const BC: usize,
    R: Rater<N, BR, BC>,
>(spec: DfcReverseSpec, seeds: Seq<Vec<u8>>, num: int, w: nat, n: int, out: Seq<ConstructedPuzzle>) -> bool
    decreases w,
{
    if w == 0 {
        out.len() == 0
    } else {
        exists|a: Seq<ConstructedPuzzle>|
            workers_gather::<N, BR, BC, R>(spec, seeds, num, (w - 1) as nat, n, a)
                && #[trigger] worker_adds::<N, BR, BC, R>(spec, seeds, num, w - 1, n, a, out)
    }
}

/// Once there are enough results, no worker makes a difference.
proof fn lemma_workers_enough<
    const N: usize,
    const BR: usize,
    const BC: usize,
    R: Rater<N, BR, BC>,
>(
    spec: DfcReverseSpec,
    seeds: Seq<Vec<u8>>,
    num: int,
    w: nat,
    end: nat,
    n: int,
    out: Seq<ConstructedPuzzle>,
)
    requires
        w <= end,
        workers_gather::<N, BR, BC, R>(spec, seeds, num, w, n, out),
        w == end || out.len() >= num,
    ensures
        workers_gather::<N, BR, BC, R>(spec, seeds, num, end, n, out),
    decreases end - w,
{
    if w < end {
        assert(worker_adds::<N, BR, BC, R>(spec, seeds, num, (w + 1) - 1, n, out, out));
        lemma_workers_enough::<N, BR, BC, R>(spec, seeds, num, w + 1, end, n, out);
    }
}

/// `out` is what a search on so many threads can find. With one thread or none it is what one
/// worker finds.
pub open spec fn may_construct<
    const N: usize,
    const BR: usize,
    const BC: usize,
    R: Rater<N, BR, BC>,
>(spec: DfcReverseSpec, seeds: Seq<Vec<u8>>, num: int, out: Seq<ConstructedPuzzle>) -> bool {
    if spec.threads <= 1 {
        may_gather::<N, BR, BC, R>(share_of(spec, num, 0, 1), seeds, out)
    } else {
        workers_gather::<N, BR, BC, R>(
            spec,
            seeds,
            num,
            spec.threads as nat,
            spec.threads as int,
            out,
        )
    }
}

/// Searches for up to `num_puzzles` puzzles next to the seeds. With several threads each
/// works on its share of the seeds; they take their turns one after another.
pub fn batch_dfc_reverse_construct<
    const N: usize,
    const BR: usize,
    const BC: usize,
    R: Rater<N, BR, BC>,
>(
    rater: &mut R,
    spec: &DfcReverseSpec,
    seeds: &Vec<Vec<u8>>,
    num_puzzles: u32,
) -> (out: Vec<ConstructedPuzzle>)
    requires
        Grid::<N, BR, BC>::shape().ok(),
        forall|i: int| 0 <= i < seeds@.len() ==> mutation::is_puzzle_text((#[trigger] seeds@[i])@),
    ensures
        out@.len() <= num_puzzles,
        seeds@.len() == 0 || spec.max_total_attempts == 0 ==> out@.len() == 0,
        puzzles_differ(out@),
        forall|i: int|
            0 <= i < out@.len() ==> is_found_by_some::<N, BR, BC>(
                #[trigger] out@[i],
                *spec,
                seeds@,
                workers_for(spec.threads),
            ),
        may_construct::<N, BR, BC, R>(*spec, seeds@, num_puzzles as int, out@),
{
    if spec.threads <= 1 {
        let out = dfc_reverse_inner::<N, BR, BC, R>(
            rater,
            spec,
            spec.rng_seed,
            num_puzzles,
            seeds,
            0,
            1,
        );
        proof {
            vstd::arithmetic::div_mod::lemma_small_mod(
                spec.rng_seed as nat,
                0x1_0000_0000_0000_0000,
            );
            assert(reverse_construct::seed_of_worker(spec.rng_seed, 0) == spec.rng_seed);
        }
        assert forall|i: int| 0 <= i < out@.len() implies is_found_by_some::<N, BR, BC>(
            #[trigger] out@[i],
            *spec,
            seeds@,
            1,
        ) by {
            assert(is_found::<N, BR, BC>(
                out@[i],
                *spec,
                seeds@,
                reverse_construct::seed_of_worker(spec.rng_seed, 0),
                0,
                1,
            ));
        }
        return out;
    }
    let n: usize = spec.threads;
    let quota: u32 = worker_quota(num_puzzles, n);
    let mut out: Vec<ConstructedPuzzle> = Vec::new();
    let mut w: usize = 0;
    while w < n && out.len() < num_puzzles as usize
        invariant
            Grid::<N, BR, BC>::shape().ok(),
            n == spec.threads,
            w <= n,
            forall|i: int|
                0 <= i < seeds@.len() ==> mutation::is_puzzle_text((#[trigger] seeds@[i])@),
            out@.len() <= num_puzzles,
            seeds@.len() == 0 || spec.max_total_attempts == 0 ==> out@.len() == 0,
            puzzles_differ(out@),
            forall|i: int|
                0 <= i < out@.len() ==> is_found_by_some::<N, BR, BC>(
                    #[trigger] out@[i],
                    *spec,
                    seeds@,
                    n as int,
                ),
            quota == self::quota(num_puzzles as int, n as int),
            workers_gather::<N, BR, BC, R>(
                *spec,
                seeds@,
                num_puzzles as int,
                w as nat,
                n as int,
                out@,
            ),
        decreases n - w,
    {
        let seed: u64 = reverse_construct::worker_seed(spec.rng_seed, w);
        let local = dfc_reverse_inner::<N, BR, BC, R>(rater, spec, seed, quota, seeds, w, n);
        let ghost out0 = out@;
        let ghost found = local@;
        merge(&mut out, local, num_puzzles);
        proof {
            assert(may_gather::<N, BR, BC, R>(
                share_of(*spec, self::quota(num_puzzles as int, n as int), w as int, n as int),
                seeds@,
                found,
            ));
            assert(worker_adds::<N, BR, BC, R>(
                *spec,
                seeds@,
                num_puzzles as int,
                (w + 1) as nat - 1,
                n as int,
                out0,
                out@,
            ));
            assert forall|i: int| 0 <= i < out@.len() implies is_found_by_some::<N, BR, BC>(
                #[trigger] out@[i],
                *spec,
                seeds@,
                n as int,
            ) by {
                if out0.contains(out@[i]) {
                    let j = choose|j: int| 0 <= j < out0.len() && out0[j] == out@[i];
                    assert(is_found_by_some::<N, BR, BC>(out0[j], *spec, seeds@, n as int));
                } else {
                    let j = choose|j: int| 0 <= j < found.len() && found[j] == out@[i];
                    assert(is_found::<N, BR, BC>(found[j], *spec, seeds@, seed, w as int, n as int));
                }
            }
            if seeds@.len() == 0 || spec.max_total_attempts == 0 {
                if out@.len() > 0 {
                    assert(out0.contains(out@[0]) || found.contains(out@[0]));
                }
            }
        }
        w += 1;
    }
    proof {
        lemma_workers_enough::<N, BR, BC, R>(
            *spec,
            seeds@,
            num_puzzles as int,
            w as nat,
            n as nat,
            n as int,
            out@,
        );
    }
    out
}

} // verus!
