//! Random solutions and random puzzles with exactly one solution.

use super::carving;
use super::geometry::Dims;
use super::grid;
use super::grid::Grid;
use super::masks;
use super::peer_tables;
use super::rng;
use super::search;
use super::search::search_random;
use super::solutions;
use rand_xoshiro::Xoshiro256PlusPlus;
use vstd::prelude::*;

verus! {

broadcast use masks::group_masks;

/// When `gen_unique_puzzle` stops.
#[derive(Debug, Clone, Copy)]
pub struct GenConfig {
    /// No clue is taken away once there are this many or fewer.
    pub target_clues: u32,
    /// The number of clues that are tried, `0` for all.
    pub max_attempts: u32,
}

impl GenConfig {
    pub fn new(target_clues: u32) -> (r: Self)
        ensures
            r.target_clues == target_clues,
            r.max_attempts == 0,
    {
        GenConfig { target_clues, max_attempts: 0 }
    }
}

/// A full grid without open cells whose digits are a solution.
pub open spec fn is_full<const N: usize, const BR: usize, const BC: usize>(
    g: Grid<N, BR, BC>,
) -> bool {
    &&& g.sound()
    &&& g.solved_count == N * N
    &&& forall|i: int| 0 <= i < g.solved@.len() ==> #[trigger] g.solved@[i] != 0
    &&& solutions::is_solution(Grid::<N, BR, BC>::shape(), solutions::digits_of(g.solved@))
}

/// The digits of a full grid that a generator with the words `words` leads to, and its words
/// afterwards.
pub open spec fn drawn_solution(g: Dims, words: Seq<u64>) -> (Seq<u8>, Seq<u64>) {
    let drawn = search::random_fill(
        g,
        Seq::new(g.cells() as nat, |i: int| masks::full(g.n)),
        Seq::new(g.cells() as nat, |i: int| 0u8),
        words,
        g.cells() as nat,
    );
    ((drawn.0->0).1, drawn.1)
}

/// A full grid drawn at random.
pub fn random_solution<const N: usize, const BR: usize, const BC: usize>(
    rng: &mut Xoshiro256PlusPlus,
) -> (g: Grid<N, BR, BC>)
    requires
        Grid::<N, BR, BC>::shape().ok(),
    ensures
        is_full(g),
        (g.solved@, rng::state(*final(rng))) == drawn_solution(
            Grid::<N, BR, BC>::shape(),
            rng::state(*old(rng)),
        ),
{
    let ghost sh = Grid::<N, BR, BC>::shape();
    let mut g: Grid<N, BR, BC> = Grid::empty();
    proof {
        carving::law_every_shape_has_a_solution(sh);
        let s = choose|s: Seq<int>| #[trigger] solutions::is_solution(sh, s);
        assert forall|i: int| 0 <= i < s.len() implies masks::holds(
            g.candidates@[i],
            #[trigger] s[i],
        ) by {
            assert(sh.is_digit(s[i]));
        }
        assert(g.solutions().contains(s));
        solutions::lemma_solutions_finite(sh, g.candidates@);
        vstd::set::axiom_set_contains_len(g.solutions(), s);
    }
    proof {
        assert(g.candidates@ =~= Seq::new(sh.cells() as nat, |i: int| masks::full(sh.n)));
        assert(g.solved@ =~= Seq::new(sh.cells() as nat, |i: int| 0u8));
    }
    let r = search_random(&mut g, rng);
    assert(r is Some);
    proof {
        peer_tables::lemma_cells_bound(sh);
        solutions::lemma_placed_bound(g.solved@);
    }
    g
}

/// The cells `0..n` in ascending order.
pub fn cell_order(n: usize) -> (v: Vec<u16>)
    requires
        n <= 0x10000,
    ensures
        v@.len() == n,
        v@.no_duplicates(),
        forall|i: int| 0 <= i < n ==> (#[trigger] v@[i]) == i,
        forall|i: int| 0 <= i < n ==> #[trigger] v@.contains(i as u16),
{
    let mut v: Vec<u16> = Vec::new();
    let mut i: usize = 0;
    while i < n
        invariant
            n <= 0x10000,
            i <= n,
            v@.len() == i,
            forall|j: int| 0 <= j < i ==> (#[trigger] v@[j]) == j,
        decreases n - i,
    {
        v.push(i as u16);
        i += 1;
    }
    assert forall|j: int| 0 <= j < n implies #[trigger] v@.contains(j as u16) by {
        assert(v@[j] == j);
    }
    v
}

/// The cells `0..n` in ascending order.
pub open spec fn cells_upto(n: nat) -> Seq<u16> {
    Seq::new(n, |i: int| i as u16)
}

/// The cells `0..n` in the order that a generator with the words `words` gives them, and its
/// words afterwards.
pub open spec fn drawn_order(n: nat, words: Seq<u64>) -> (Seq<u16>, Seq<u64>) {
    let shuffled = rng::shuffle_of(n, words);
    (rng::picked(cells_upto(n), shuffled.0), shuffled.1)
}

/// The cells `0..n` in random order.
pub(crate) fn random_order(n: usize, rng: &mut Xoshiro256PlusPlus) -> (v: Vec<u16>)
    requires
        n <= 0x10000,
    ensures
        v@.len() == n,
        v@.no_duplicates(),
        forall|i: int| 0 <= i < v@.len() ==> (#[trigger] v@[i]) < n,
        forall|i: int| 0 <= i < n ==> #[trigger] v@.contains(i as u16),
        (v@, rng::state(*final(rng))) == drawn_order(n as nat, rng::state(*old(rng))),
{
    let mut v: Vec<u16> = cell_order(n);
    let ghost before = v@;
    assert(before =~= cells_upto(n as nat));
    rng::shuffle(&mut v, rng);
    proof {
        rng::lemma_shuffled(before, v@);
        assert forall|i: int| 0 <= i < v@.len() implies (#[trigger] v@[i]) < n by {
            assert(v@.contains(v@[i]));
            assert(before.contains(v@[i]));
        }
        assert forall|i: int| 0 <= i < n implies #[trigger] v@.contains(i as u16) by {
            assert(before.contains(i as u16));
        }
    }
    v
}

/// A puzzle drawn at random, and its number of clues.
///
/// The puzzle has exactly one solution. It has at least as many clues as the
/// configuration asks for; if it has more and all clues were tried, every one of them is
/// needed.
pub fn gen_unique_puzzle<const N: usize, const BR: usize, const BC: usize>(
    rng: &mut Xoshiro256PlusPlus,
    cfg: &GenConfig,
) -> (r: (Grid<N, BR, BC>, u32))
    requires
        Grid::<N, BR, BC>::shape().ok(),
    ensures
        ({
            let drawn = drawn_puzzle(Grid::<N, BR, BC>::shape(), *cfg, rng::state(*old(rng)));
            &&& r.0.solved@ == drawn.0
            &&& is_carved(r.0, r.1, solutions::digits_of(drawn.1), *cfg)
            &&& rng::state(*final(rng)) == drawn.2
        }),
{
    let carved = gen_unique_puzzle_with_solution::<N, BR, BC>(rng, cfg);
    (carved.0, carved.1)
}

/// What is left of the digits `s` once the first `k` cells of `order` were visited: each digit
/// is taken away if the rest still has no other solution, until there are no more clues than
/// asked for or enough of them were tried.
pub open spec fn carved_upto(g: Dims, s: Seq<u8>, order: Seq<u16>, cfg: GenConfig, k: int) -> Seq<u8>
    decreases k,
{
    if k <= 0 {
        s
    } else {
        let v = carved_upto(g, s, order, cfg, k - 1);
        let w = v.update(order[k - 1] as int, 0);
        if is_enough(v, cfg, k - 1) {
            v
        } else if carving::only_solution(g, solutions::digits_of(w), solutions::digits_of(s)) {
            w
        } else {
            v
        }
    }
}

/// There are no more clues than asked for, or `k` of them were tried and no more may be.
pub open spec fn is_enough(v: Seq<u8>, cfg: GenConfig, k: int) -> bool {
    solutions::placed(v) <= cfg.target_clues || (cfg.max_attempts != 0 && k >= cfg.max_attempts)
}

/// What is left of the digits `s` once all cells of `order` were visited.
pub open spec fn carved(g: Dims, s: Seq<u8>, order: Seq<u16>, cfg: GenConfig) -> Seq<u8> {
    carved_upto(g, s, order, cfg, order.len() as int)
}

/// Once it is enough, nothing more is taken away.
proof fn lemma_carved_enough(g: Dims, s: Seq<u8>, order: Seq<u16>, cfg: GenConfig, k: int, m: int)
    requires
        0 <= k <= m,
        is_enough(carved_upto(g, s, order, cfg, k), cfg, k),
    ensures
        carved_upto(g, s, order, cfg, m) == carved_upto(g, s, order, cfg, k),
    decreases m - k,
{
    if k < m {
        lemma_carved_enough(g, s, order, cfg, k, m - 1);
    }
}

/// The clues and the solution of the puzzle that a generator with the words `words` leads to,
/// and its words afterwards.
pub open spec fn drawn_puzzle(g: Dims, cfg: GenConfig, words: Seq<u64>) -> (
    Seq<u8>,
    Seq<u8>,
    Seq<u64>,
) {
    let s = drawn_solution(g, words);
    let order = drawn_order(g.cells() as nat, s.1);
    (carved(g, s.0, order.0, cfg), s.0, order.1)
}

/// `puzzle` shows `clues` clues of the solution `s`, which is its only solution, and
/// enough of them were tried.
pub open spec fn is_carved<const N: usize, const BR: usize, const BC: usize>(
    puzzle: Grid<N, BR, BC>,
    clues: u32,
    s: Seq<int>,
    cfg: GenConfig,
) -> bool {
    let g = Grid::<N, BR, BC>::shape();
    let v = solutions::digits_of(puzzle.solved@);
    &&& solutions::is_solution(g, s)
    &&& puzzle.shows(v)
    &&& carving::part_of(v, s)
    &&& puzzle.solutions() == set![s]
    &&& clues == solutions::placed(puzzle.solved@)
    &&& clues >= cfg.target_clues || clues == N * N
    &&& cfg.max_attempts != 0 ==> N * N - clues <= cfg.max_attempts
    &&& cfg.max_attempts == 0 && clues > cfg.target_clues ==> carving::every_clue_needed(g, v, s)
}

/// A puzzle, its number of clues and its solution are those that a generator with the words
/// `words` leads to.
pub open spec fn is_drawn<const N: usize, const BR: usize, const BC: usize>(
    r: (Grid<N, BR, BC>, u32, Grid<N, BR, BC>),
    cfg: GenConfig,
    words: Seq<u64>,
) -> bool {
    let drawn = drawn_puzzle(Grid::<N, BR, BC>::shape(), cfg, words);
    &&& is_full(r.2)
    &&& is_carved(r.0, r.1, solutions::digits_of(r.2.solved@), cfg)
    &&& r.0.solved@ == drawn.0
    &&& r.2.solved@ == drawn.1
}

/// Generators that hold the same words, as two of the same seed do, lead to the same puzzle
/// and the same solution.
pub proof fn law_same_words_same_puzzle<const N: usize, const BR: usize, const BC: usize>(
    a: (Grid<N, BR, BC>, u32, Grid<N, BR, BC>),
    b: (Grid<N, BR, BC>, u32, Grid<N, BR, BC>),
    cfg: GenConfig,
    words: Seq<u64>,
)
    requires
        is_drawn(a, cfg, words),
        is_drawn(b, cfg, words),
    ensures
        a.0.same(&b.0),
        a.1 == b.1,
        a.2.same(&b.2),
{
    let sh = Grid::<N, BR, BC>::shape();
    assert forall|i: int| 0 <= i < a.0.candidates@.len() implies a.0.candidates@[i]
        == b.0.candidates@[i] by {
        assert(sh.is_cell(i));
        assert forall|d: int| masks::holds(a.0.candidates@[i], d) == masks::holds(
            b.0.candidates@[i],
            d,
        ) by {}
        masks::lemma_mask_ext(a.0.candidates@[i], b.0.candidates@[i]);
    }
    assert(a.0.candidates@ =~= b.0.candidates@);
    assert(a.2.candidates@ =~= b.2.candidates@) by {
        assert forall|i: int| 0 <= i < a.2.candidates@.len() implies a.2.candidates@[i]
            == b.2.candidates@[i] by {
            assert(a.2.solved@[i] != 0 && b.2.solved@[i] != 0);
        }
    }
}

/// A puzzle drawn at random, its number of clues, and its solution.
pub fn gen_unique_puzzle_with_solution<const N: usize, const BR: usize, const BC: usize>(
    rng: &mut Xoshiro256PlusPlus,
    cfg: &GenConfig,
) -> (r: (Grid<N, BR, BC>, u32, Grid<N, BR, BC>))
    requires
        Grid::<N, BR, BC>::shape().ok(),
    ensures
        is_drawn(r, *cfg, rng::state(*old(rng))),
        rng::state(*final(rng)) == drawn_puzzle(
            Grid::<N, BR, BC>::shape(),
            *cfg,
            rng::state(*old(rng)),
        ).2,
{
    let ghost sh = Grid::<N, BR, BC>::shape();
    proof {
        peer_tables::lemma_cells_bound(sh);
    }
    let nn: usize = N * N;
    let solution: Grid<N, BR, BC> = random_solution(rng);
    let order: Vec<u16> = random_order(nn, rng);
    let (puzzle, clue_count) = carve(&solution, &order, cfg);
    (puzzle, clue_count, solution)
}

/// Takes clues away from a full grid in the given order, each where the rest still has
/// exactly one solution, and stops as the configuration says.
pub fn carve<const N: usize, const BR: usize, const BC: usize>(
    solution: &Grid<N, BR, BC>,
    order: &Vec<u16>,
    cfg: &GenConfig,
) -> (r: (Grid<N, BR, BC>, u32))
    requires
        is_full(*solution),
        order@.len() == N * N,
        order@.no_duplicates(),
        forall|i: int| 0 <= i < order@.len() ==> (#[trigger] order@[i]) < N * N,
        forall|i: int| 0 <= i < N * N ==> #[trigger] order@.contains(i as u16),
    ensures
        is_carved(r.0, r.1, solutions::digits_of(solution.solved@), *cfg),
        r.0.solved@ == carved(Grid::<N, BR, BC>::shape(), solution.solved@, order@, *cfg),
{
    let ghost sh = Grid::<N, BR, BC>::shape();
    let ghost s = solutions::digits_of(solution.solved@);
    let ghost all = solution.solved@;
    proof {
        peer_tables::lemma_cells_bound(sh);
        solutions::lemma_placed_bound(solution.solved@);
    }
    let nn: usize = N * N;
    let mut puzzle = solution.clone();
    let mut v: Vec<u8> = solution.solved.clone();
    assert(v@ =~= solution.solved@);
    let mut clue_count: u32 = nn as u32;
    let mut trials: u32 = 0;
    let mut k: usize = 0;
    proof {
        assert(puzzle.shows(s)) by {
            assert forall|i: int, d: int| sh.is_cell(i) implies #[trigger] masks::holds(
                puzzle.candidates@[i],
                d,
            ) == grid::clue_leaves(sh, s, i, d) by {
                assert(solution.solved@[i] != 0);
            }
        }
        solutions::lemma_full_grid(sh, solution.candidates@, solution.solved@);
    }
    while k < nn && clue_count > cfg.target_clues && !(cfg.max_attempts != 0 && trials
        >= cfg.max_attempts)
        invariant
            sh == Grid::<N, BR, BC>::shape(),
            sh.ok(),
            nn == sh.cells(),
            nn <= 961,
            is_full(*solution),
            s == solutions::digits_of(solution.solved@),
            order@.len() == nn,
            order@.no_duplicates(),
            forall|i: int| 0 <= i < order@.len() ==> (#[trigger] order@[i]) < nn,
            k <= nn,
            trials == k,
            all == solution.solved@,
            v@ == carved_upto(sh, all, order@, *cfg, k as int),
            v@.len() == nn,
            puzzle.shows(solutions::digits_of(v@)),
            puzzle.solved@ == v@,
            carving::part_of(solutions::digits_of(v@), s),
            puzzle.solutions() == set![s],
            clue_count == solutions::placed(v@),
            clue_count <= nn,
            clue_count >= cfg.target_clues || clue_count == nn,
            nn - clue_count <= trials,
            cfg.max_attempts != 0 ==> trials <= cfg.max_attempts,
            forall|j: int|
                k <= j < nn ==> v@[#[trigger] order@[j] as int] != 0,
            forall|j: int|
                0 <= j < k && v@[#[trigger] order@[j] as int] != 0 ==> carving::another(
                    sh,
                    solutions::digits_of(v@).update(order@[j] as int, 0),
                    s,
                ),
        decreases nn - k,
    {
        let c: usize = order[k] as usize;
        let ghost v0 = v@;
        let ghost w0 = solutions::digits_of(v@);
        let saved: u8 = v[c];
        v.set(c, 0);
        let ghost w1 = solutions::digits_of(v@);
        proof {
            assert(w1 =~= w0.update(c as int, 0));
            assert(carving::part_of(w1, s));
            lemma_placed_clear(v0, c as int);
        }
        let (trial, unique) = carving::trial_grid::<N, BR, BC>(solution.table_arc(), &v, Ghost(s));
        trials += 1;
        if unique {
            puzzle = trial;
            clue_count -= 1;
            proof {
                assert(puzzle.solved@ =~= v@) by {
                    assert forall|i: int| 0 <= i < nn implies puzzle.solved@[i] == v@[i] by {
                        assert(solutions::digits_of(puzzle.solved@)[i] == puzzle.solved@[i]);
                        assert(w1[i] == v@[i]);
                    }
                }
                assert forall|j: int|
                    0 <= j < k + 1 && v@[#[trigger] order@[j] as int] != 0 implies carving::another(
                    sh,
                    w1.update(order@[j] as int, 0),
                    s,
                ) by {
                    let o = order@[j] as int;
                    assert(o != c);
                    assert(v0[o] != 0);
                    lemma_another_grows(sh, w0.update(o, 0), w1.update(o, 0), s);
                }
            }
        } else {
            v.set(c, saved);
            proof {
                assert(v@ =~= v0);
                carving::lemma_part_held(sh, w1, s);
                carving::lemma_only_or_another(sh, w1, s);
                assert forall|j: int|
                    0 <= j < k + 1 && v@[#[trigger] order@[j] as int] != 0 implies carving::another(
                    sh,
                    w0.update(order@[j] as int, 0),
                    s,
                ) by {
                    if j == k {
                        assert(w0.update(c as int, 0) == w1);
                    }
                }
            }
        }
        proof {
            assert forall|j: int| k + 1 <= j < nn implies v@[#[trigger] order@[j] as int] != 0 by {
                assert(order@[j] != order@[k as int]);
                assert(v0[order@[j] as int] != 0);
            }
        }
        k += 1;
    }
    proof {
        if k < nn {
            lemma_carved_enough(sh, all, order@, *cfg, k as int, nn as int);
        }
        let w = solutions::digits_of(v@);
        if cfg.max_attempts == 0 && clue_count > cfg.target_clues {
            assert forall|i: int| sh.is_cell(i) && #[trigger] w[i] != 0 implies carving::another(
                sh,
                w.update(i, 0),
                s,
            ) by {
                assert(order@.contains(i as u16));
                let j = choose|j: int| 0 <= j < order@.len() && order@[j] == i as u16;
                assert(v@[order@[j] as int] != 0);
            }
        }
        assert(solutions::digits_of(puzzle.solved@) == w);
    }
    (puzzle, clue_count)
}

/// Clearing a cell takes one off the number of placed digits.
pub proof fn lemma_placed_clear(s: Seq<u8>, i: int)
    requires
        0 <= i < s.len(),
        s[i] != 0,
    ensures
        solutions::placed(s) == solutions::placed(s.update(i, 0)) + 1,
{
    solutions::lemma_placed_update(s.update(i, 0), i, s[i]);
    assert(s.update(i, 0).update(i, s[i]) =~= s);
}

/// Another solution stays one as clues are given up.
pub proof fn lemma_another_grows(g: Dims, v: Seq<int>, w: Seq<int>, s: Seq<int>)
    requires
        carving::another(g, v, s),
        v.len() == g.cells(),
        carving::part_of(w, v),
    ensures
        carving::another(g, w, s),
{
    carving::lemma_fewer_clues(g, v, w);
    let t = choose|t: Seq<int>| #[trigger] grid::completions(g, v).contains(t) && t != s;
    assert(grid::completions(g, w).contains(t));
}

} // verus!
