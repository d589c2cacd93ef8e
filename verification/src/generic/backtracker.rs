//! Naked and hidden singles, placed until none is left.

use super::geometry;
use super::geometry::Dims;
use super::grid::{AssignErr, Grid};
use super::masks;
use super::peer_tables;
use super::solutions;
use vstd::prelude::*;

verus! {

broadcast use masks::group_masks;

/// The `k`-th cell of unit `u` is open and the only one of the unit with the
/// candidate `d`.
pub open spec fn hidden_at(g: Dims, c: Seq<u32>, solved: Seq<u8>, u: int, k: int, d: int) -> bool {
    &&& solved[g.unit_cell(u, k)] == 0
    &&& masks::holds(c[g.unit_cell(u, k)], d)
    &&& forall|l: int|
        0 <= l < g.n && l != k ==> !masks::holds(c[#[trigger] g.unit_cell(u, l)], d)
}

/// `d` is the only candidate of the open cell `cell`, or `cell` is the only cell of
/// one of its units with the candidate `d`.
pub open spec fn is_single(g: Dims, c: Seq<u32>, solved: Seq<u8>, cell: int, d: int) -> bool {
    &&& g.is_cell(cell)
    &&& g.is_digit(d)
    &&& solved[cell] == 0
    &&& (c[cell] == masks::bit(d) || exists|u: int, k: int|
        g.is_unit(u) && 0 <= k < g.n && g.unit_cell(u, k) == cell && #[trigger] hidden_at(
            g,
            c,
            solved,
            u,
            k,
            d,
        ))
}

/// Candidates and placements after the placements `steps`.
pub open spec fn after(g: Dims, c: Seq<u32>, solved: Seq<u8>, steps: Seq<(int, u8)>) -> (
    Seq<u32>,
    Seq<u8>,
)
    decreases steps.len(),
{
    if steps.len() == 0 {
        (c, solved)
    } else {
        let (c1, s1) = after(g, c, solved, steps.drop_last());
        let (cell, d) = steps.last();
        (solutions::assigned(g, c1, s1, cell, d as int), s1.update(cell, d))
    }
}

/// Each of the placements `steps` is a single when its turn comes, and possible.
pub open spec fn is_chain(g: Dims, c: Seq<u32>, solved: Seq<u8>, steps: Seq<(int, u8)>) -> bool
    decreases steps.len(),
{
    steps.len() > 0 ==> {
        let (c1, s1) = after(g, c, solved, steps.drop_last());
        let (cell, d) = steps.last();
        &&& is_chain(g, c, solved, steps.drop_last())
        &&& is_single(g, c1, s1, cell, d as int)
        &&& solutions::can_assign(g, c1, s1, cell, d as int)
    }
}

/// No single is left to place, and every open cell has a candidate.
pub open spec fn no_singles(g: Dims, c: Seq<u32>, solved: Seq<u8>) -> bool {
    &&& forall|i: int| g.is_cell(i) && #[trigger] solved[i] == 0 ==> c[i] != 0
    &&& forall|cell: int, d: int| !#[trigger] is_single(g, c, solved, cell, d)
}

/// An open cell has no candidate, or a single cannot be placed.
pub open spec fn is_dead_end(g: Dims, c: Seq<u32>, solved: Seq<u8>) -> bool {
    ||| exists|i: int| g.is_cell(i) && #[trigger] solved[i] == 0 && c[i] == 0
    ||| exists|cell: int, d: int|
        #[trigger] is_single(g, c, solved, cell, d) && !solutions::can_assign(
            g,
            c,
            solved,
            cell,
            d,
        )
}

/// Every solution has a single in its cell.
pub proof fn lemma_single_forced(
    g: Dims,
    c: Seq<u32>,
    solved: Seq<u8>,
    cell: int,
    d: int,
    s: Seq<int>,
)
    requires
        solutions::well_formed(g, c, solved),
        is_single(g, c, solved, cell, d),
        solutions::solutions(g, c).contains(s),
    ensures
        s[cell] == d,
        masks::holds(c[cell], d),
{
    assert(masks::holds(c[cell], s[cell]));
    if c[cell] != masks::bit(d) {
        let (u, k) = choose|u: int, k: int|
            g.is_unit(u) && 0 <= k < g.n && g.unit_cell(u, k) == cell && #[trigger] hidden_at(
                g,
                c,
                solved,
                u,
                k,
                d,
            );
        let l = solutions::lemma_unit_onto(g, s, u, d);
        assert(masks::holds(c[g.unit_cell(u, l)], s[g.unit_cell(u, l)]));
    }
}

/// Placing a single keeps all solutions.
pub proof fn lemma_single_solutions(g: Dims, c: Seq<u32>, solved: Seq<u8>, cell: int, d: int)
    requires
        solutions::well_formed(g, c, solved),
        is_single(g, c, solved, cell, d),
    ensures
        solutions::can_assign(g, c, solved, cell, d) ==> solutions::solutions(
            g,
            solutions::assigned(g, c, solved, cell, d),
        ) == solutions::solutions(g, c),
        !solutions::can_assign(g, c, solved, cell, d) ==> solutions::solutions(g, c)
            =~= Set::<Seq<int>>::empty(),
{
    let all = solutions::solutions(g, c);
    if solutions::can_assign(g, c, solved, cell, d) {
        solutions::lemma_assign_solutions(g, c, solved, cell, d);
        assert forall|s: Seq<int>| all.contains(s) implies s[cell] == d by {
            lemma_single_forced(g, c, solved, cell, d, s);
        }
        assert(all.filter(|s: Seq<int>| s[cell] == d) =~= all);
    } else {
        assert forall|s: Seq<int>| !all.contains(s) by {
            if all.contains(s) {
                lemma_single_forced(g, c, solved, cell, d, s);
                solutions::lemma_blocked(g, c, solved, cell, d, s);
            }
        }
    }
}

/// A chain of singles keeps the grid well formed and its solutions; placed digits
/// stay and candidates only go.
pub proof fn lemma_chain(g: Dims, c: Seq<u32>, solved: Seq<u8>, steps: Seq<(int, u8)>)
    requires
        solutions::well_formed(g, c, solved),
        is_chain(g, c, solved, steps),
    ensures
        ({
            let (c1, s1) = after(g, c, solved, steps);
            &&& solutions::well_formed(g, c1, s1)
            &&& solutions::solutions(g, c1) == solutions::solutions(g, c)
            &&& solutions::settled(g, c, solved) ==> solutions::settled(g, c1, s1)
            &&& solutions::placed(s1) == solutions::placed(solved) + steps.len()
            &&& forall|i: int| 0 <= i < solved.len() && #[trigger] solved[i] != 0 ==> s1[i] == solved[i]
            &&& forall|i: int, d: int|
                0 <= i < c.len() && #[trigger] masks::holds(c1[i], d) ==> masks::holds(c[i], d)
        }),
    decreases steps.len(),
{
    if steps.len() > 0 {
        let t = steps.drop_last();
        lemma_chain(g, c, solved, t);
        let (c1, s1) = after(g, c, solved, t);
        let (cell, d) = steps.last();
        lemma_single_solutions(g, c1, s1, cell, d as int);
        solutions::lemma_assign_well_formed(g, c1, s1, cell, d, g.cells());
        solutions::lemma_placed_update(s1, cell, d);
        if solutions::settled(g, c1, s1) {
            solutions::lemma_assign_settled(g, c1, s1, cell, d);
        }
        let (c2, s2) = after(g, c, solved, steps);
        assert forall|i: int, e: int|
            0 <= i < c.len() && #[trigger] masks::holds(c2[i], e) implies masks::holds(c[i], e) by {
            assert(masks::holds(c1[i], e));
        }
        assert forall|i: int| 0 <= i < solved.len() && #[trigger] solved[i] != 0 implies s2[i]
            == solved[i] by {
            assert(s1[i] == solved[i]);
        }
    }
}

/// The digits that some open cell of unit `u` has as the only one of the unit.
fn hidden_in_unit<const N: usize, const BR: usize, const BC: usize>(
    g: &Grid<N, BR, BC>,
    u: usize,
) -> (m: u32)
    requires
        g.wf(),
        u < 3 * N,
    ensures
        forall|d: int| #[trigger]
            masks::holds(m, d) <==> exists|k: int|
                0 <= k < N && #[trigger] hidden_at(
                    Grid::<N, BR, BC>::shape(),
                    g.candidates@,
                    g.solved@,
                    u as int,
                    k,
                    d,
                ),
{
    let ghost sh = Grid::<N, BR, BC>::shape();
    let ghost c0 = g.candidates@;
    let ghost s0 = g.solved@;
    let ghost ui = u as int;
    let all_mask: u32 = Grid::<N, BR, BC>::all_digits_mask();
    assert(g.table.units@.len() == 3 * N);
    assert(peer_tables::lists_unit(sh, ui, g.table.units@[ui]@));
    let mut once: u32 = 0;
    let mut more: u32 = 0;
    let mut placed: u32 = 0;
    let mut k: usize = 0;
    while k < N
        invariant
            g.wf(),
            sh == Grid::<N, BR, BC>::shape(),
            c0 == g.candidates@,
            s0 == g.solved@,
            ui == u,
            sh.is_unit(ui),
            u < g.table.units@.len(),
            peer_tables::lists_unit(sh, ui, g.table.units@[ui]@),
            k <= N,
            forall|d: int| #[trigger]
                masks::holds(once, d) <==> exists|l: int|
                    0 <= l < k && s0[#[trigger] sh.unit_cell(ui, l)] == 0 && masks::holds(
                        c0[sh.unit_cell(ui, l)],
                        d,
                    ),
            forall|d: int| #[trigger]
                masks::holds(more, d) <==> exists|l: int, m: int|
                    0 <= l < m < k && s0[#[trigger] sh.unit_cell(ui, l)] == 0 && masks::holds(
                        c0[sh.unit_cell(ui, l)],
                        d,
                    ) && s0[#[trigger] sh.unit_cell(ui, m)] == 0 && masks::holds(
                        c0[sh.unit_cell(ui, m)],
                        d,
                    ),
            forall|d: int| #[trigger]
                masks::holds(placed, d) <==> d != 0 && exists|l: int|
                    0 <= l < k && s0[#[trigger] sh.unit_cell(ui, l)] == d,
        decreases N - k,
    {
        let ghost once0 = once;
        let ghost more0 = more;
        let ghost placed0 = placed;
        let ghost ci = sh.unit_cell(ui, k as int);
        proof {
            geometry::lemma_unit_cell(sh, ui, k as int);
            assert(g.table.units@[ui]@[k as int] == ci);
        }
        let c: usize = g.table.units[u][k] as usize;
        if g.solved[c] != 0 {
            placed = placed | masks::digit_bit(g.solved[c]);
        } else {
            let m: u32 = g.candidates[c];
            more = more | (once & m);
            once = once | m;
        }
        proof {
            assert forall|d: int| #[trigger] masks::holds(once, d) implies exists|l: int|
                0 <= l < k + 1 && s0[#[trigger] sh.unit_cell(ui, l)] == 0 && masks::holds(
                    c0[sh.unit_cell(ui, l)],
                    d,
                ) by {
                if masks::holds(once0, d) {
                } else {
                    assert(s0[sh.unit_cell(ui, k as int)] == 0);
                }
            }
            assert forall|d: int|
                (exists|l: int|
                    0 <= l < k + 1 && s0[#[trigger] sh.unit_cell(ui, l)] == 0 && masks::holds(
                        c0[sh.unit_cell(ui, l)],
                        d,
                    )) implies #[trigger] masks::holds(once, d) by {
                let l = choose|l: int|
                    0 <= l < k + 1 && s0[#[trigger] sh.unit_cell(ui, l)] == 0 && masks::holds(
                        c0[sh.unit_cell(ui, l)],
                        d,
                    );
                if l < k {
                    assert(masks::holds(once0, d));
                }
            }
            assert forall|d: int| #[trigger] masks::holds(more, d) implies exists|l: int, m: int|
                0 <= l < m < k + 1 && s0[#[trigger] sh.unit_cell(ui, l)] == 0 && masks::holds(
                    c0[sh.unit_cell(ui, l)],
                    d,
                ) && s0[#[trigger] sh.unit_cell(ui, m)] == 0 && masks::holds(
                    c0[sh.unit_cell(ui, m)],
                    d,
                ) by {
                if masks::holds(more0, d) {
                    let (l, m) = choose|l: int, m: int|
                        0 <= l < m < k && s0[#[trigger] sh.unit_cell(ui, l)] == 0 && masks::holds(
                            c0[sh.unit_cell(ui, l)],
                            d,
                        ) && s0[#[trigger] sh.unit_cell(ui, m)] == 0 && masks::holds(
                            c0[sh.unit_cell(ui, m)],
                            d,
                        );
                    assert(s0[sh.unit_cell(ui, l)] == 0 && s0[sh.unit_cell(ui, m)] == 0);
                } else {
                    assert(masks::holds(once0, d));
                    let l = choose|l: int|
                        0 <= l < k && s0[#[trigger] sh.unit_cell(ui, l)] == 0 && masks::holds(
                            c0[sh.unit_cell(ui, l)],
                            d,
                        );
                    assert(s0[sh.unit_cell(ui, l)] == 0 && s0[sh.unit_cell(ui, k as int)] == 0);
                }
            }
            assert forall|d: int|
                (exists|l: int, m: int|
                    0 <= l < m < k + 1 && s0[#[trigger] sh.unit_cell(ui, l)] == 0 && masks::holds(
                        c0[sh.unit_cell(ui, l)],
                        d,
                    ) && s0[#[trigger] sh.unit_cell(ui, m)] == 0 && masks::holds(
                        c0[sh.unit_cell(ui, m)],
                        d,
                    )) implies #[trigger] masks::holds(more, d) by {
                let (l, m) = choose|l: int, m: int|
                    0 <= l < m < k + 1 && s0[#[trigger] sh.unit_cell(ui, l)] == 0 && masks::holds(
                        c0[sh.unit_cell(ui, l)],
                        d,
                    ) && s0[#[trigger] sh.unit_cell(ui, m)] == 0 && masks::holds(
                        c0[sh.unit_cell(ui, m)],
                        d,
                    );
                if m < k {
                    assert(masks::holds(more0, d));
                } else {
                    assert(masks::holds(once0, d));
                }
            }
            assert forall|d: int| #[trigger] masks::holds(placed, d) implies d != 0 && exists|l: int|
                0 <= l < k + 1 && s0[#[trigger] sh.unit_cell(ui, l)] == d by {
                if masks::holds(placed0, d) {
                } else {
                    assert(s0[sh.unit_cell(ui, k as int)] == d);
                }
            }
            assert forall|d: int|
                d != 0 && (exists|l: int|
                    0 <= l < k + 1 && s0[#[trigger] sh.unit_cell(ui, l)] == d) implies #[trigger] masks::holds(
                placed,
                d,
            ) by {
                let l = choose|l: int| 0 <= l < k + 1 && s0[#[trigger] sh.unit_cell(ui, l)] == d;
                if l < k {
                    assert(masks::holds(placed0, d));
                }
            }
        }
        k += 1;
    }
    let unique: u32 = once & !more & !placed & all_mask;
    proof {
        assert forall|d: int| #[trigger] masks::holds(unique, d) implies exists|k: int|
            0 <= k < N && #[trigger] hidden_at(sh, c0, s0, ui, k, d) by {
            assert(masks::holds(once, d) && !masks::holds(more, d) && !masks::holds(placed, d));
            let k = choose|l: int|
                0 <= l < N && s0[#[trigger] sh.unit_cell(ui, l)] == 0 && masks::holds(
                    c0[sh.unit_cell(ui, l)],
                    d,
                );
            assert forall|l: int| 0 <= l < N && l != k implies !masks::holds(
                c0[#[trigger] sh.unit_cell(ui, l)],
                d,
            ) by {
                geometry::lemma_unit_cell(sh, ui, l);
                assert(s0[sh.unit_cell(ui, k)] == 0);
                if s0[sh.unit_cell(ui, l)] != 0 {
                    assert(c0[sh.unit_cell(ui, l)] == masks::bit(
                        s0[sh.unit_cell(ui, l)] as int,
                    ));
                }
            }
            assert(hidden_at(sh, c0, s0, ui, k, d));
        }
        assert forall|d: int|
            (exists|k: int| 0 <= k < N && #[trigger] hidden_at(sh, c0, s0, ui, k, d)) implies #[trigger] masks::holds(
            unique,
            d,
        ) by {
            let k = choose|k: int| 0 <= k < N && #[trigger] hidden_at(sh, c0, s0, ui, k, d);
            geometry::lemma_unit_cell(sh, ui, k);
            assert(s0[sh.unit_cell(ui, k)] == 0);
            assert(masks::holds(once, d));
            if masks::holds(more, d) {
                let (l, m) = choose|l: int, m: int|
                    0 <= l < m < N && s0[#[trigger] sh.unit_cell(ui, l)] == 0 && masks::holds(
                        c0[sh.unit_cell(ui, l)],
                        d,
                    ) && s0[#[trigger] sh.unit_cell(ui, m)] == 0 && masks::holds(
                        c0[sh.unit_cell(ui, m)],
                        d,
                    );
                assert(l == k && m == k);
            }
            if masks::holds(placed, d) {
                let l = choose|l: int| 0 <= l < N && s0[#[trigger] sh.unit_cell(ui, l)] == d;
                geometry::lemma_unit_cell(sh, ui, l);
                assert(c0[sh.unit_cell(ui, l)] == masks::bit(d));
            }
        }
    }
    unique
}

/// The only digit of a mask that holds one.
pub open spec fn only_digit(m: u32) -> int {
    choose|d: int| 1 <= d <= 32 && m == #[trigger] masks::bit(d)
}

/// Where the placing of singles has come to, with the candidates and placements there.
pub enum Placed {
    /// Everything on its turn was placed.
    Through((Seq<u32>, Seq<u8>)),
    /// A dead end was met, and this is left behind.
    Refused((Seq<u32>, Seq<u8>)),
}

/// The first peer at which placing `d` in `cell` comes to nothing.
pub open spec fn first_block(g: Dims, at: (Seq<u32>, Seq<u8>), cell: int, d: int) -> int {
    choose|p: int|
        {
            &&& #[trigger] solutions::blocks(g, at.0, at.1, cell, d, p)
            &&& forall|q: int| q < p ==> !#[trigger] solutions::blocks(g, at.0, at.1, cell, d, q)
        }
}

/// Candidates and placements once `d` was placed in `cell`. Where that cannot be done, `Err`
/// with what is left behind: the digit is placed and taken from the peers up to the one at which
/// it comes to nothing.
pub open spec fn place(g: Dims, at: (Seq<u32>, Seq<u8>), cell: int, d: int) -> Placed {
    if solutions::can_assign(g, at.0, at.1, cell, d) {
        Placed::Through((solutions::assigned(g, at.0, at.1, cell, d), at.1.update(cell, d as u8)))
    } else if !masks::holds(at.0[cell], d) {
        Placed::Refused(at)
    } else {
        Placed::Refused(
            (
                solutions::placed_until(
                    g,
                    at.0,
                    at.1,
                    cell,
                    d,
                    first_block(g, at, cell, d),
                ),
                at.1.update(cell, d as u8),
            ),
        )
    }
}

/// A cell on its turn: the only candidate of an open cell is placed. `Refused` if that cannot be
/// done or if there is no candidate.
pub open spec fn naked_step(g: Dims, at: (Seq<u32>, Seq<u8>), i: int) -> Placed {
    if at.1[i] != 0 {
        Placed::Through(at)
    } else if at.0[i] == 0 {
        Placed::Refused(at)
    } else if masks::digits(at.0[i]).len() == 1 {
        place(g, at, i, only_digit(at.0[i]))
    } else {
        Placed::Through(at)
    }
}

/// The first `k` cells, each on its turn.
pub open spec fn naked_upto(g: Dims, at: (Seq<u32>, Seq<u8>), k: int) -> Placed
    decreases k,
{
    if k <= 0 {
        Placed::Through(at)
    } else {
        match naked_upto(g, at, k - 1) {
            Placed::Through(b) => naked_step(g, b, k - 1),
            Placed::Refused(e) => Placed::Refused(e),
        }
    }
}

/// The first position of unit `u`, from `k` on, whose cell is open and has the candidate `d`,
/// or the length of the unit.
pub open spec fn first_spot(g: Dims, at: (Seq<u32>, Seq<u8>), u: int, d: int, k: int) -> int
    decreases g.n - k,
{
    if k >= g.n {
        g.n
    } else if at.1[g.unit_cell(u, k)] == 0 && masks::holds(at.0[g.unit_cell(u, k)], d) {
        k
    } else {
        first_spot(g, at, u, d, k + 1)
    }
}

/// The digit has a single place in unit `u`.
pub open spec fn is_hidden(g: Dims, at: (Seq<u32>, Seq<u8>), u: int, d: int) -> bool {
    exists|k: int| 0 <= k < g.n && #[trigger] hidden_at(g, at.0, at.1, u, k, d)
}

/// A digit on its turn: it is placed where it can still go in unit `u`, if anywhere.
pub open spec fn hidden_step(g: Dims, at: (Seq<u32>, Seq<u8>), u: int, d: int) -> Placed {
    let k = first_spot(g, at, u, d, 0);
    if k < g.n {
        place(g, at, g.unit_cell(u, k), d)
    } else {
        Placed::Through(at)
    }
}

/// The digits up to `d` that have a single place in unit `u` at the beginning, each on its
/// turn.
pub open spec fn unit_upto(g: Dims, at: (Seq<u32>, Seq<u8>), u: int, d: int) -> Placed
    decreases d,
{
    if d <= 0 {
        Placed::Through(at)
    } else {
        match unit_upto(g, at, u, d - 1) {
            Placed::Through(b) => if is_hidden(g, at, u, d) {
                hidden_step(g, b, u, d)
            } else {
                Placed::Through(b)
            },
            Placed::Refused(e) => Placed::Refused(e),
        }
    }
}

/// The first `k` units, each on its turn.
pub open spec fn units_upto(g: Dims, at: (Seq<u32>, Seq<u8>), k: int) -> Placed
    decreases k,
{
    if k <= 0 {
        Placed::Through(at)
    } else {
        match units_upto(g, at, k - 1) {
            Placed::Through(b) => unit_upto(g, b, k - 1, 32),
            Placed::Refused(e) => Placed::Refused(e),
        }
    }
}

/// One pass: all cells, then all units.
pub open spec fn pass(g: Dims, at: (Seq<u32>, Seq<u8>)) -> Placed {
    match naked_upto(g, at, g.cells()) {
        Placed::Through(b) => units_upto(g, b, 3 * g.n),
        Placed::Refused(e) => Placed::Refused(e),
    }
}

/// Passes until one places nothing, at most `more` after the first.
pub open spec fn passes(g: Dims, at: (Seq<u32>, Seq<u8>), more: nat) -> Placed
    decreases more,
{
    match pass(g, at) {
        Placed::Through(b) => if b.1 == at.1 || more == 0 {
            Placed::Through(b)
        } else {
            passes(g, b, (more - 1) as nat)
        },
        Placed::Refused(e) => Placed::Refused(e),
    }
}

/// Candidates and placements once no single is left; `Refused` with what is left behind where a
/// dead end was met.
pub open spec fn singles_placed(g: Dims, c: Seq<u32>, solved: Seq<u8>) -> Placed {
    passes(g, (c, solved), g.cells() as nat)
}

/// A mask with one digit has that digit only.
proof fn lemma_only_digit(m: u32, d: int)
    requires
        1 <= d <= 32,
        m == masks::bit(d),
    ensures
        only_digit(m) == d,
{
    let e = only_digit(m);
    assert(1 <= e <= 32 && m == masks::bit(e));
    assert(masks::holds(m, e));
}

/// A dead end is not left again.
proof fn lemma_naked_ends(g: Dims, at: (Seq<u32>, Seq<u8>), k: int, m: int)
    requires
        k <= m,
        naked_upto(g, at, k) is Refused,
    ensures
        naked_upto(g, at, m) == naked_upto(g, at, k),
    decreases m - k,
{
    if k < m {
        lemma_naked_ends(g, at, k, m - 1);
    }
}

/// A dead end is not left again.
proof fn lemma_unit_ends(g: Dims, at: (Seq<u32>, Seq<u8>), u: int, k: int, m: int)
    requires
        k <= m,
        unit_upto(g, at, u, k) is Refused,
    ensures
        unit_upto(g, at, u, m) == unit_upto(g, at, u, k),
    decreases m - k,
{
    if k < m {
        lemma_unit_ends(g, at, u, k, m - 1);
    }
}

/// A dead end is not left again.
proof fn lemma_units_end(g: Dims, at: (Seq<u32>, Seq<u8>), k: int, m: int)
    requires
        k <= m,
        units_upto(g, at, k) is Refused,
    ensures
        units_upto(g, at, m) == units_upto(g, at, k),
    decreases m - k,
{
    if k < m {
        lemma_units_end(g, at, k, m - 1);
    }
}

/// Digits without a single place are passed over.
proof fn lemma_unit_skips(g: Dims, at: (Seq<u32>, Seq<u8>), u: int, k: int, m: int)
    requires
        0 <= k <= m,
        forall|d: int| k < d <= m ==> !#[trigger] is_hidden(g, at, u, d),
    ensures
        unit_upto(g, at, u, m) == unit_upto(g, at, u, k),
    decreases m - k,
{
    if k < m {
        lemma_unit_skips(g, at, u, k, m - 1);
        assert(!is_hidden(g, at, u, m));
    }
}

/// Positions where the digit cannot go are passed over.
proof fn lemma_spot_skips(g: Dims, at: (Seq<u32>, Seq<u8>), u: int, d: int, k: int)
    requires
        0 <= k <= g.n,
        forall|l: int|
            0 <= l < k ==> at.1[#[trigger] g.unit_cell(u, l)] != 0 || !masks::holds(
                at.0[g.unit_cell(u, l)],
                d,
            ),
    ensures
        first_spot(g, at, u, d, 0) == first_spot(g, at, u, d, k),
    decreases k,
{
    if k > 0 {
        lemma_spot_skips(g, at, u, d, k - 1);
        assert(at.1[g.unit_cell(u, k - 1)] != 0 || !masks::holds(at.0[g.unit_cell(u, k - 1)], d));
    }
}

/// Placed digits stay, and candidates only go.
pub open spec fn only_narrows(g: Dims, a: (Seq<u32>, Seq<u8>), b: (Seq<u32>, Seq<u8>)) -> bool {
    &&& forall|i: int| g.is_cell(i) && #[trigger] a.1[i] != 0 ==> b.1[i] == a.1[i]
    &&& forall|i: int, d: int|
        g.is_cell(i) && #[trigger] masks::holds(b.0[i], d) ==> masks::holds(a.0[i], d)
}

/// A chain of singles only narrows the grid, by as many placements as it has.
proof fn lemma_chain_narrows(g: Dims, c: Seq<u32>, solved: Seq<u8>, steps: Seq<(int, u8)>)
    requires
        solutions::well_formed(g, c, solved),
        is_chain(g, c, solved, steps),
    ensures
        only_narrows(g, (c, solved), after(g, c, solved, steps)),
        newly_placed(solved, after(g, c, solved, steps).1) == steps.len(),
{
    lemma_chain(g, c, solved, steps);
    lemma_newly_placed(solved, after(g, c, solved, steps).1);
}

/// The number of cells that are open in `a` and placed in `b`.
pub open spec fn newly_placed(a: Seq<u8>, b: Seq<u8>) -> nat
    decreases a.len(),
{
    if a.len() == 0 {
        0
    } else {
        newly_placed(a.drop_last(), b.drop_last()) + if a.last() == 0 && b.last() != 0 {
            1nat
        } else {
            0nat
        }
    }
}

/// Where placed digits stay, the number of placed digits grows by the newly placed ones.
pub proof fn lemma_newly_placed(a: Seq<u8>, b: Seq<u8>)
    requires
        a.len() == b.len(),
        forall|i: int| 0 <= i < a.len() && #[trigger] a[i] != 0 ==> b[i] == a[i],
    ensures
        solutions::placed(b) == solutions::placed(a) + newly_placed(a, b),
    decreases a.len(),
{
    if a.len() > 0 {
        let (x, y) = (a.drop_last(), b.drop_last());
        assert forall|i: int| 0 <= i < x.len() && #[trigger] x[i] != 0 implies y[i] == x[i] by {
            assert(a[i] != 0);
        }
        lemma_newly_placed(x, y);
        if a.last() != 0 {
            assert(a[a.len() - 1] != 0);
        }
    }
}

/// What a single that cannot be placed leaves behind after a chain of singles.
proof fn lemma_refused(
    g: Dims,
    c: Seq<u32>,
    solved: Seq<u8>,
    steps: Seq<(int, u8)>,
    cell: int,
    d: u8,
    left: (Seq<u32>, Seq<u8>),
)
    requires
        solutions::well_formed(g, c, solved),
        is_chain(g, c, solved, steps),
        ({
            let (c1, s1) = after(g, c, solved, steps);
            &&& is_single(g, c1, s1, cell, d as int)
            &&& masks::holds(c1[cell], d as int)
            &&& !solutions::can_assign(g, c1, s1, cell, d as int)
            &&& left.1 == s1.update(cell, d)
            &&& exists|p: int|
                {
                    &&& #[trigger] solutions::blocks(g, c1, s1, cell, d as int, p)
                    &&& forall|q: int|
                        q < p ==> !#[trigger] solutions::blocks(g, c1, s1, cell, d as int, q)
                    &&& left.0 == solutions::placed_until(g, c1, s1, cell, d as int, p)
                }
        }),
    ensures
        place(g, after(g, c, solved, steps), cell, d as int) == Placed::Refused(left),
        only_narrows(g, (c, solved), left),
        newly_placed(solved, left.1) == steps.len() + 1,
{
    let (c1, s1) = after(g, c, solved, steps);
    let di = d as int;
    lemma_chain(g, c, solved, steps);
    let p = choose|p: int|
        {
            &&& #[trigger] solutions::blocks(g, c1, s1, cell, di, p)
            &&& forall|q: int| q < p ==> !#[trigger] solutions::blocks(g, c1, s1, cell, di, q)
            &&& left.0 == solutions::placed_until(g, c1, s1, cell, di, p)
        };
    let f = first_block(g, (c1, s1), cell, di);
    assert(solutions::blocks(g, c1, s1, cell, di, f) && forall|q: int|
        q < f ==> !#[trigger] solutions::blocks(g, c1, s1, cell, di, q));
    assert(f == p);
    solutions::lemma_placed_update(s1, cell, d);
    assert forall|i: int| g.is_cell(i) && #[trigger] solved[i] != 0 implies left.1[i]
        == solved[i] by {
        assert(s1[i] == solved[i]);
    }
    assert forall|i: int, e: int|
        g.is_cell(i) && #[trigger] masks::holds(left.0[i], e) implies masks::holds(c[i], e) by {
        assert(masks::holds(c1[i], e));
    }
    lemma_newly_placed(solved, left.1);
}

/// Places naked singles cell by cell and hidden singles unit by unit, until a whole
/// pass places none.
///
/// The digits are placed by a chain of singles. `Ok` means that it ended where no
/// single is left; the solutions are then those from before. `Err` means that it
/// ended at a cell without a candidate or at a single that could not be placed;
/// then there was no solution. Either way placed digits stay and candidates only go.
#[verifier::rlimit(60)]
pub fn propagate_singles<const N: usize, const BR: usize, const BC: usize>(
    g: &mut Grid<N, BR, BC>,
) -> (r: Result<(), AssignErr>)
    requires
        old(g).wf(),
        old(g).solved_count + N * N <= u32::MAX,
    ensures
        final(g).wf(),
        singles_placed(Grid::<N, BR, BC>::shape(), old(g).candidates@, old(g).solved@) == match r {
            Ok(_) => Placed::Through((final(g).candidates@, final(g).solved@)),
            Err(_) => Placed::Refused((final(g).candidates@, final(g).solved@)),
        },
        only_narrows(
            Grid::<N, BR, BC>::shape(),
            (old(g).candidates@, old(g).solved@),
            (final(g).candidates@, final(g).solved@),
        ),
        final(g).solved_count == old(g).solved_count + newly_placed(
            old(g).solved@,
            final(g).solved@,
        ),
        r is Ok ==> exists|steps: Seq<(int, u8)>|
            {
                &&& #[trigger] is_chain(
                    Grid::<N, BR, BC>::shape(),
                    old(g).candidates@,
                    old(g).solved@,
                    steps,
                )
                &&& (final(g).candidates@, final(g).solved@) == after(
                    Grid::<N, BR, BC>::shape(),
                    old(g).candidates@,
                    old(g).solved@,
                    steps,
                )
                &&& final(g).solved_count == old(g).solved_count + steps.len()
            },
        r is Ok ==> no_singles(
            Grid::<N, BR, BC>::shape(),
            final(g).candidates@,
            final(g).solved@,
        ),
        r is Ok ==> final(g).solutions() == old(g).solutions(),
        r is Ok && old(g).sound() ==> final(g).sound(),
        r is Err ==> exists|steps: Seq<(int, u8)>|
            {
                &&& #[trigger] is_chain(
                    Grid::<N, BR, BC>::shape(),
                    old(g).candidates@,
                    old(g).solved@,
                    steps,
                )
                &&& ({
                    let (c1, s1) = after(
                        Grid::<N, BR, BC>::shape(),
                        old(g).candidates@,
                        old(g).solved@,
                        steps,
                    );
                    is_dead_end(Grid::<N, BR, BC>::shape(), c1, s1)
                })
            },
        r is Err ==> old(g).solutions() == Set::<Seq<int>>::empty(),
        no_singles(Grid::<N, BR, BC>::shape(), old(g).candidates@, old(g).solved@) ==> r is Ok
            && final(g).same(old(g)),
{
    let ghost sh = Grid::<N, BR, BC>::shape();
    let ghost c0 = g.candidates@;
    let ghost s0 = g.solved@;
    let ghost n0 = g.solved_count;
    let ghost mut steps: Seq<(int, u8)> = Seq::empty();
    let ghost mut more: nat = sh.cells() as nat;
    proof {
        peer_tables::lemma_cells_bound(sh);
        assert(is_chain(sh, c0, s0, steps));
        assert(after(sh, c0, s0, steps) == (c0, s0));
    }
    let nn: usize = N * N;
    loop
        invariant
            sh == Grid::<N, BR, BC>::shape(),
            nn == sh.cells(),
            nn <= 961,
            g.wf(),
            solutions::well_formed(sh, c0, s0),
            c0 == old(g).candidates@,
            s0 == old(g).solved@,
            n0 == old(g).solved_count,
            n0 + nn <= u32::MAX,
            is_chain(sh, c0, s0, steps),
            (g.candidates@, g.solved@) == after(sh, c0, s0, steps),
            g.solved_count == n0 + steps.len(),
            no_singles(sh, c0, s0) ==> steps.len() == 0,
            singles_placed(sh, c0, s0) == passes(sh, (g.candidates@, g.solved@), more),
            more >= nn - solutions::placed(g.solved@),
        decreases nn - solutions::placed(g.solved@),
    {
        let mut changed: bool = false;
        let ghost before = steps.len();
        let ghost cb = g.candidates@;
        let ghost sb = g.solved@;
        let ghost end = singles_placed(sh, c0, s0);
        let mut c: usize = 0;
        while c < nn
            invariant
                end == singles_placed(sh, c0, s0),
                end == passes(sh, (cb, sb), more),
                naked_upto(sh, (cb, sb), c as int) == Placed::Through((g.candidates@, g.solved@)),
                sh == Grid::<N, BR, BC>::shape(),
                nn == sh.cells(),
                nn <= 961,
                g.wf(),
                solutions::well_formed(sh, c0, s0),
                c0 == old(g).candidates@,
                s0 == old(g).solved@,
                n0 == old(g).solved_count,
                n0 + nn <= u32::MAX,
                is_chain(sh, c0, s0, steps),
                (g.candidates@, g.solved@) == after(sh, c0, s0, steps),
                g.solved_count == n0 + steps.len(),
                no_singles(sh, c0, s0) ==> steps.len() == 0,
                c <= nn,
                before <= steps.len(),
                changed == (steps.len() > before),
                !changed ==> g.candidates@ == cb && g.solved@ == sb,
                solutions::placed(sb) + (steps.len() - before) == solutions::placed(g.solved@),
                !changed ==> forall|i: int|
                    0 <= i < c && #[trigger] sb[i] == 0 ==> cb[i] != 0 && forall|d: int|
                        cb[i] != #[trigger] masks::bit(d) || !sh.is_digit(d),
            decreases nn - c,
        {
            if g.solved[c] == 0 {
                let m: u32 = g.candidates[c];
                if m == 0 {
                    proof {
                        assert(g.solved@[c as int] == 0 && g.candidates@[c as int] == 0);
                        lemma_chain(sh, c0, s0, steps);
                        assert(solutions::solutions(sh, c0) =~= Set::<Seq<int>>::empty()) by {
                            assert forall|s: Seq<int>| !solutions::solutions(
                                sh,
                                g.candidates@,
                            ).contains(s) by {
                                if solutions::solutions(sh, g.candidates@).contains(s) {
                                    assert(masks::holds(g.candidates@[c as int], s[c as int]));
                                }
                            }
                        }
                        assert(is_dead_end(sh, g.candidates@, g.solved@));
                        if no_singles(sh, c0, s0) {
                            assert(s0[c as int] == 0);
                            assert(false);
                        }
                        assert(naked_upto(sh, (cb, sb), c + 1) is Refused);
                        lemma_naked_ends(sh, (cb, sb), c + 1, nn as int);
                        lemma_chain_narrows(sh, c0, s0, steps);
                    }
                    return Err(AssignErr::Contradiction);
                }
                let d: u8 = masks::lowest_digit(m);
                proof {
                    masks::lemma_single(m, d as int);
                    masks::lemma_digits_finite(m);
                }
                if m.count_ones() == 1 {
                    proof {
                        assert(m == masks::bit(d as int));
                        assert(is_single(sh, g.candidates@, g.solved@, c as int, d as int));
                        lemma_step(sh, c0, s0, steps, c as int, d);
                        lemma_no_step(sh, c0, s0, steps, c as int, d as int);
                        lemma_only_digit(m, d as int);
                        assert(naked_upto(sh, (cb, sb), c + 1) == place(
                            sh,
                            (g.candidates@, g.solved@),
                            c as int,
                            d as int,
                        ));
                        if naked_upto(sh, (cb, sb), c + 1) is Refused {
                            lemma_naked_ends(sh, (cb, sb), c + 1, nn as int);
                        }
                    }
                    if g.assign(c, d).is_err() {
                        proof {
                            lemma_refused(
                                sh,
                                c0,
                                s0,
                                steps,
                                c as int,
                                d,
                                (g.candidates@, g.solved@),
                            );
                        }
                        return Err(AssignErr::Contradiction);
                    }
                    proof {
                        steps = steps.push((c as int, d));
                    }
                    changed = true;
                } else {
                    proof {
                        assert forall|e: int| m != #[trigger] masks::bit(e) || !sh.is_digit(e) by {
                            if m == masks::bit(e) && sh.is_digit(e) {
                                assert(masks::holds(m, e));
                                masks::lemma_single(m, e);
                            }
                        }
                    }
                }
            }
            c += 1;
        }
        let ghost mid = (g.candidates@, g.solved@);
        let mut u: usize = 0;
        while u < 3 * N
            invariant
                end == singles_placed(sh, c0, s0),
                end == passes(sh, (cb, sb), more),
                naked_upto(sh, (cb, sb), nn as int) == Placed::Through(mid),
                units_upto(sh, mid, u as int) == Placed::Through((g.candidates@, g.solved@)),
                sh == Grid::<N, BR, BC>::shape(),
                nn == sh.cells(),
                nn <= 961,
                g.wf(),
                solutions::well_formed(sh, c0, s0),
                c0 == old(g).candidates@,
                s0 == old(g).solved@,
                n0 == old(g).solved_count,
                n0 + nn <= u32::MAX,
                is_chain(sh, c0, s0, steps),
                (g.candidates@, g.solved@) == after(sh, c0, s0, steps),
                g.solved_count == n0 + steps.len(),
                no_singles(sh, c0, s0) ==> steps.len() == 0,
                u <= 3 * N,
                before <= steps.len(),
                changed == (steps.len() > before),
                !changed ==> g.candidates@ == cb && g.solved@ == sb,
                solutions::placed(sb) + (steps.len() - before) == solutions::placed(g.solved@),
                !changed ==> forall|i: int|
                    0 <= i < nn && #[trigger] sb[i] == 0 ==> cb[i] != 0 && forall|d: int|
                        cb[i] != #[trigger] masks::bit(d) || !sh.is_digit(d),
                !changed ==> forall|v: int, k: int, d: int|
                    0 <= v < u && 0 <= k < N ==> !#[trigger] hidden_at(sh, cb, sb, v, k, d),
            decreases 3 * N - u,
        {
            let unique: u32 = hidden_in_unit(g, u);
            let ghost cu = g.candidates@;
            let ghost su = g.solved@;
            let ghost at_unit = steps.len();
            let ghost changed_before = changed;
            let mut bits: u32 = unique;
            let mut top: u8 = 0;
            while bits != 0
                invariant
                    end == singles_placed(sh, c0, s0),
                    end == passes(sh, (cb, sb), more),
                    naked_upto(sh, (cb, sb), nn as int) == Placed::Through(mid),
                    units_upto(sh, mid, u as int) == Placed::Through((cu, su)),
                    unit_upto(sh, (cu, su), u as int, top as int) == Placed::Through(
                        (g.candidates@, g.solved@),
                    ),
                    forall|d: int| d > top && #[trigger] masks::holds(unique, d) ==> masks::holds(
                        bits,
                        d,
                    ),
                    sh == Grid::<N, BR, BC>::shape(),
                    nn == sh.cells(),
                    nn <= 961,
                    u < 3 * N,
                    g.wf(),
                    solutions::well_formed(sh, c0, s0),
                    c0 == old(g).candidates@,
                    s0 == old(g).solved@,
                    n0 == old(g).solved_count,
                    n0 + nn <= u32::MAX,
                    is_chain(sh, c0, s0, steps),
                    (g.candidates@, g.solved@) == after(sh, c0, s0, steps),
                    g.solved_count == n0 + steps.len(),
                    no_singles(sh, c0, s0) ==> steps.len() == 0,
                    before <= at_unit <= steps.len(),
                    changed == (steps.len() > before),
                    changed_before == (at_unit > before),
                    steps.len() == at_unit ==> g.candidates@ == cu && g.solved@ == su,
                    solutions::placed(sb) + (steps.len() - before) == solutions::placed(g.solved@),
                    forall|d: int| #[trigger] masks::holds(bits, d) ==> masks::holds(unique, d),
                    top <= 32,
                    forall|d: int| #[trigger] masks::holds(bits, d) ==> d > top,
                    top == 0 ==> bits == unique && steps.len() == at_unit,
                    top > 0 ==> steps.len() > at_unit,
                    forall|d: int| #[trigger]
                        masks::holds(unique, d) <==> exists|k: int|
                            0 <= k < N && #[trigger] hidden_at(sh, cu, su, u as int, k, d),
                    forall|d: int, k: int, l: int| #![trigger masks::holds(bits, d), sh.unit_cell(u as int, k), sh.unit_cell(u as int, l)]
                        masks::holds(bits, d) && 0 <= k < N && 0 <= l < N && masks::holds(
                            g.candidates@[sh.unit_cell(u as int, k)],
                            d,
                        ) && masks::holds(
                            g.candidates@[sh.unit_cell(u as int, l)],
                            d,
                        ) ==> k == l,
                decreases 33 - top,
            {
                let d: u8 = masks::lowest_digit(bits);
                let bit: u32 = masks::digit_bit(d);
                let ghost bits0 = bits;
                bits = bits & !bit;
                let ghost ci = g.candidates@;
                let ghost si = g.solved@;
                let ghost at_bit = steps.len();
                assert(masks::holds(unique, d as int));
                proof {
                    assert forall|e: int| top < e <= d - 1 implies !#[trigger] is_hidden(
                        sh,
                        (cu, su),
                        u as int,
                        e,
                    ) by {
                        if is_hidden(sh, (cu, su), u as int, e) {
                            assert(masks::holds(unique, e));
                            assert(masks::holds(bits0, e));
                        }
                    }
                    lemma_unit_skips(sh, (cu, su), u as int, top as int, d - 1);
                    assert(is_hidden(sh, (cu, su), u as int, d as int));
                    assert(unit_upto(sh, (cu, su), u as int, d as int) == hidden_step(
                        sh,
                        (ci, si),
                        u as int,
                        d as int,
                    ));
                }
                let mut k: usize = 0;
                let mut found: bool = false;
                while k < N && !found
                    invariant
                        end == singles_placed(sh, c0, s0),
                        end == passes(sh, (cb, sb), more),
                        naked_upto(sh, (cb, sb), nn as int) == Placed::Through(mid),
                        units_upto(sh, mid, u as int) == Placed::Through((cu, su)),
                        unit_upto(sh, (cu, su), u as int, d as int) == hidden_step(
                            sh,
                            (ci, si),
                            u as int,
                            d as int,
                        ),
                        found ==> hidden_step(sh, (ci, si), u as int, d as int) == Placed::Through(
                            (g.candidates@, g.solved@),
                        ),
                        sh == Grid::<N, BR, BC>::shape(),
                        nn == sh.cells(),
                        nn <= 961,
                        u < 3 * N,
                        g.wf(),
                        solutions::well_formed(sh, c0, s0),
                        c0 == old(g).candidates@,
                        s0 == old(g).solved@,
                        n0 == old(g).solved_count,
                        n0 + nn <= u32::MAX,
                        is_chain(sh, c0, s0, steps),
                        (g.candidates@, g.solved@) == after(sh, c0, s0, steps),
                        g.solved_count == n0 + steps.len(),
                        no_singles(sh, c0, s0) ==> steps.len() == 0,
                        before <= at_bit <= steps.len(),
                        changed == (steps.len() > before),
                        k <= N,
                        1 <= d <= 32,
                        bit == masks::bit(d as int),
                        solutions::placed(sb) + (steps.len() - before) == solutions::placed(g.solved@),
                        found == (steps.len() > at_bit),
                        !found ==> g.candidates@ == ci && g.solved@ == si,
                        !found ==> forall|l: int|
                            0 <= l < k ==> si[#[trigger] sh.unit_cell(u as int, l)] != 0
                                || !masks::holds(ci[sh.unit_cell(u as int, l)], d as int),
                        forall|j: int, e: int|
                            0 <= j < nn && #[trigger] masks::holds(g.candidates@[j], e)
                                ==> masks::holds(ci[j], e),
                        forall|k: int, l: int| #![trigger sh.unit_cell(u as int, k), sh.unit_cell(u as int, l)]
                            0 <= k < N && 0 <= l < N && masks::holds(
                                ci[sh.unit_cell(u as int, k)],
                                d as int,
                            ) && masks::holds(ci[sh.unit_cell(u as int, l)], d as int) ==> k == l,
                    decreases N - k,
                {
                    proof {
                        geometry::lemma_unit_cell(sh, u as int, k as int);
                        assert(peer_tables::lists_unit(
                            sh,
                            u as int,
                            g.table.units@[u as int]@,
                        ));
                        assert(g.table.units@[u as int]@[k as int] == sh.unit_cell(
                            u as int,
                            k as int,
                        ));
                    }
                    let c: usize = g.table.units[u][k] as usize;
                    if g.solved[c] == 0 && g.candidates[c] & bit != 0 {
                        proof {
                            assert(masks::holds(g.candidates@[c as int], d as int));
                            assert(hidden_at(
                                sh,
                                g.candidates@,
                                g.solved@,
                                u as int,
                                k as int,
                                d as int,
                            ));
                            assert(is_single(sh, g.candidates@, g.solved@, c as int, d as int));
                            lemma_step(sh, c0, s0, steps, c as int, d);
                            lemma_no_step(sh, c0, s0, steps, c as int, d as int);
                            lemma_spot_skips(sh, (ci, si), u as int, d as int, k as int);
                            assert(hidden_step(sh, (ci, si), u as int, d as int) == place(
                                sh,
                                (ci, si),
                                c as int,
                                d as int,
                            ));
                            if place(sh, (ci, si), c as int, d as int) is Refused {
                                lemma_unit_ends(sh, (cu, su), u as int, d as int, 32);
                                assert(units_upto(sh, mid, u + 1) is Refused);
                                lemma_units_end(sh, mid, u + 1, 3 * N as int);
                            }
                        }
                        if g.assign(c, d).is_err() {
                            proof {
                                lemma_refused(
                                    sh,
                                    c0,
                                    s0,
                                    steps,
                                    c as int,
                                    d,
                                    (g.candidates@, g.solved@),
                                );
                            }
                            return Err(AssignErr::Contradiction);
                        }
                        proof {
                            steps = steps.push((c as int, d));
                        }
                        changed = true;
                        found = true;
                    }
                    k += 1;
                }
                proof {
                    if !found {
                        lemma_spot_skips(sh, (ci, si), u as int, d as int, k as int);
                    }
                    if top == 0 {
                        // The unit is as it was scanned, so the digit was found.
                        let q = choose|q: int|
                            0 <= q < N && #[trigger] hidden_at(sh, cu, su, u as int, q, d as int);
                        assert(su[sh.unit_cell(u as int, q)] == 0);
                        assert(found);
                    }
                    assert forall|e: int, k: int, l: int|
                        #![trigger masks::holds(bits, e), sh.unit_cell(u as int, k), sh.unit_cell(u as int, l)]
                        masks::holds(bits, e) && 0 <= k < N && 0 <= l < N && masks::holds(
                            g.candidates@[sh.unit_cell(u as int, k)],
                            e,
                        ) && masks::holds(
                            g.candidates@[sh.unit_cell(u as int, l)],
                            e,
                        ) implies k == l by {
                        geometry::lemma_unit_cell(sh, u as int, k);
                        geometry::lemma_unit_cell(sh, u as int, l);
                        assert(masks::holds(bits0, e));
                    }
                }
                top = d;
            }
            proof {
                assert forall|e: int| top < e <= 32 implies !#[trigger] is_hidden(
                    sh,
                    (cu, su),
                    u as int,
                    e,
                ) by {
                    if is_hidden(sh, (cu, su), u as int, e) {
                        assert(masks::holds(unique, e));
                        assert(masks::holds(bits, e));
                    }
                }
                lemma_unit_skips(sh, (cu, su), u as int, top as int, 32);
                if steps.len() == at_unit {
                    assert(top == 0);
                    assert forall|k: int, d: int| 0 <= k < N implies !#[trigger] hidden_at(
                        sh,
                        cu,
                        su,
                        u as int,
                        k,
                        d,
                    ) by {
                        if hidden_at(sh, cu, su, u as int, k, d) {
                            assert(masks::holds(unique, d));
                        }
                    }
                }
            }
            u += 1;
        }
        proof {
            assert(pass(sh, (cb, sb)) == Placed::Through((g.candidates@, g.solved@)));
            solutions::lemma_placed_bound(g.solved@);
        }
        if !changed {
            proof {
                lemma_chain(sh, c0, s0, steps);
                lemma_chain_narrows(sh, c0, s0, steps);
                assert forall|cell: int, d: int| !#[trigger] is_single(
                    sh,
                    g.candidates@,
                    g.solved@,
                    cell,
                    d,
                ) by {
                    if sh.is_cell(cell) && sb[cell] == 0 && sh.is_digit(d) {
                        assert(cb[cell] != masks::bit(d));
                    }
                }
                assert(no_singles(sh, g.candidates@, g.solved@));
            }
            return Ok(());
        }
        proof {
            more = (more - 1) as nat;
        }
    }
}

/// A single extends a chain, or is a dead end.
proof fn lemma_step(
    g: Dims,
    c: Seq<u32>,
    solved: Seq<u8>,
    steps: Seq<(int, u8)>,
    cell: int,
    d: u8,
)
    requires
        solutions::well_formed(g, c, solved),
        is_chain(g, c, solved, steps),
        ({
            let (c1, s1) = after(g, c, solved, steps);
            is_single(g, c1, s1, cell, d as int)
        }),
    ensures
        ({
            let (c1, s1) = after(g, c, solved, steps);
            &&& s1.len() == g.cells()
            &&& solutions::placed(s1) < g.cells()
            &&& solutions::placed(s1) == solutions::placed(solved) + steps.len()
            &&& solutions::placed(s1.update(cell, d)) == solutions::placed(s1) + 1
            &&& solutions::can_assign(g, c1, s1, cell, d as int) ==> {
                &&& is_chain(g, c, solved, steps.push((cell, d)))
                &&& after(g, c, solved, steps.push((cell, d))) == (
                    solutions::assigned(g, c1, s1, cell, d as int),
                    s1.update(cell, d),
                )
            }
            &&& !solutions::can_assign(g, c1, s1, cell, d as int) ==> {
                &&& is_dead_end(g, c1, s1)
                &&& solutions::solutions(g, c) =~= Set::<Seq<int>>::empty()
            }
        }),
{
    lemma_chain(g, c, solved, steps);
    let (c1, s1) = after(g, c, solved, steps);
    lemma_single_solutions(g, c1, s1, cell, d as int);
    solutions::lemma_placed_bound(s1);
    solutions::lemma_placed_update(s1, cell, d);
    assert(steps.push((cell, d)).drop_last() =~= steps);
}

/// Where no single is left, none is placed.
proof fn lemma_no_step(
    g: Dims,
    c: Seq<u32>,
    solved: Seq<u8>,
    steps: Seq<(int, u8)>,
    cell: int,
    d: int,
)
    requires
        no_singles(g, c, solved) ==> steps.len() == 0,
        ({
            let (c1, s1) = after(g, c, solved, steps);
            is_single(g, c1, s1, cell, d)
        }),
    ensures
        !no_singles(g, c, solved),
{
    if no_singles(g, c, solved) {
        assert(after(g, c, solved, steps) == (c, solved));
        assert(is_single(g, c, solved, cell, d));
    }
}

/// A peer that was placed since holds `x`.
pub open spec fn ruled_since(g: Dims, before: Seq<u8>, now: Seq<u8>, i: int, x: int) -> bool {
    exists|p: int| #[trigger] g.peer(p, i) && before[p] == 0 && now[p] == x && x != 0
}

/// The candidates that a chain of singles leaves to an open cell.
pub proof fn lemma_after_candidates(
    g: Dims,
    c: Seq<u32>,
    solved: Seq<u8>,
    steps: Seq<(int, u8)>,
    i: int,
    x: int,
)
    requires
        solutions::well_formed(g, c, solved),
        is_chain(g, c, solved, steps),
        g.is_cell(i),
        after(g, c, solved, steps).1[i] == 0,
    ensures
        masks::holds(after(g, c, solved, steps).0[i], x) == (masks::holds(c[i], x) && !ruled_since(
            g,
            solved,
            after(g, c, solved, steps).1,
            i,
            x,
        )),
    decreases steps.len(),
{
    let (c2, s2) = after(g, c, solved, steps);
    if steps.len() > 0 {
        let t = steps.drop_last();
        let (c1, s1) = after(g, c, solved, t);
        let (cell, d) = steps.last();
        lemma_chain(g, c, solved, t);
        lemma_after_candidates(g, c, solved, t, i, x);
        assert(solved[cell] == 0);
        if ruled_since(g, solved, s1, i, x) {
            let p = choose|p: int|
                #[trigger] g.peer(p, i) && solved[p] == 0 && s1[p] == x && x != 0;
            assert(g.peer(p, i) && s2[p] == x);
        }
        if ruled_since(g, solved, s2, i, x) && !ruled_since(g, solved, s1, i, x) {
            let p = choose|p: int|
                #[trigger] g.peer(p, i) && solved[p] == 0 && s2[p] == x && x != 0;
            assert(p == cell);
        }
        if g.peer(cell, i) {
            assert(g.peer(i, cell));
            if x == d as int {
                assert(g.peer(cell, i) && solved[cell] == 0 && s2[cell] == x);
            }
        }
    }
}

/// The more is placed, the fewer candidates are left.
proof fn lemma_fewer_left(
    g: Dims,
    c: Seq<u32>,
    solved: Seq<u8>,
    a: Seq<(int, u8)>,
    b: Seq<(int, u8)>,
    s: Seq<int>,
    i: int,
    x: int,
)
    requires
        solutions::well_formed(g, c, solved),
        is_chain(g, c, solved, a),
        is_chain(g, c, solved, b),
        solutions::solutions(g, c).contains(s),
        forall|j: int|
            g.is_cell(j) && #[trigger] after(g, c, solved, a).1[j] != 0 ==> after(g, c, solved, b).1[j]
                == after(g, c, solved, a).1[j],
        g.is_cell(i),
        masks::holds(after(g, c, solved, b).0[i], x),
    ensures
        masks::holds(after(g, c, solved, a).0[i], x),
{
    let (ca, sa) = after(g, c, solved, a);
    let (cb, sb) = after(g, c, solved, b);
    lemma_chain(g, c, solved, a);
    lemma_chain(g, c, solved, b);
    assert(masks::holds(ca[i], s[i]) && masks::holds(cb[i], s[i]));
    if sb[i] == 0 {
        assert(sa[i] == 0);
        lemma_after_candidates(g, c, solved, a, i, x);
        lemma_after_candidates(g, c, solved, b, i, x);
        if ruled_since(g, solved, sa, i, x) {
            let p = choose|p: int|
                #[trigger] g.peer(p, i) && solved[p] == 0 && sa[p] == x && x != 0;
            assert(sb[p] == sa[p]);
            assert(g.peer(p, i) && sb[p] == x);
        }
    } else {
        assert(cb[i] == masks::bit(sb[i] as int));
    }
}

/// What a chain of singles places, another one that leaves no single places too.
proof fn lemma_placed_too(
    g: Dims,
    c: Seq<u32>,
    solved: Seq<u8>,
    a: Seq<(int, u8)>,
    b: Seq<(int, u8)>,
    s: Seq<int>,
)
    requires
        solutions::well_formed(g, c, solved),
        is_chain(g, c, solved, a),
        is_chain(g, c, solved, b),
        no_singles(g, after(g, c, solved, b).0, after(g, c, solved, b).1),
        solutions::solutions(g, c).contains(s),
    ensures
        forall|j: int|
            g.is_cell(j) && #[trigger] after(g, c, solved, a).1[j] != 0 ==> after(g, c, solved, b).1[j]
                == after(g, c, solved, a).1[j],
    decreases a.len(),
{
    let (cb, sb) = after(g, c, solved, b);
    lemma_chain(g, c, solved, b);
    if a.len() > 0 {
        let t = a.drop_last();
        lemma_placed_too(g, c, solved, t, b, s);
        lemma_chain(g, c, solved, t);
        let (c1, s1) = after(g, c, solved, t);
        let (cell, d8) = a.last();
        let d = d8 as int;
        lemma_single_forced(g, c1, s1, cell, d, s);
        assert(masks::holds(cb[cell], s[cell]));
        if sb[cell] == 0 {
            assert(is_single(g, cb, sb, cell, d)) by {
                if c1[cell] == masks::bit(d) {
                    assert forall|x: int| 1 <= x <= 32 implies masks::holds(cb[cell], x)
                        == masks::holds(masks::bit(d), x) by {
                        if masks::holds(cb[cell], x) {
                            lemma_fewer_left(g, c, solved, t, b, s, cell, x);
                        }
                    }
                    masks::lemma_mask_ext(cb[cell], masks::bit(d));
                } else {
                    let (u, k) = choose|u: int, k: int|
                        g.is_unit(u) && 0 <= k < g.n && g.unit_cell(u, k) == cell
                            && #[trigger] hidden_at(g, c1, s1, u, k, d);
                    assert forall|l: int| 0 <= l < g.n && l != k implies !masks::holds(
                        cb[#[trigger] g.unit_cell(u, l)],
                        d,
                    ) by {
                        geometry::lemma_unit_cell(g, u, l);
                        if masks::holds(cb[g.unit_cell(u, l)], d) {
                            lemma_fewer_left(g, c, solved, t, b, s, g.unit_cell(u, l), d);
                        }
                    }
                    assert(hidden_at(g, cb, sb, u, k, d));
                }
            }
        } else {
            assert(cb[cell] == masks::bit(sb[cell] as int));
        }
        assert forall|j: int|
            g.is_cell(j) && #[trigger] after(g, c, solved, a).1[j] != 0 implies after(
            g,
            c,
            solved,
            b,
        ).1[j] == after(g, c, solved, a).1[j] by {
            if j != cell {
                assert(s1[j] != 0);
            }
        }
    }
}

/// Where no single is left, the cells are passed over.
proof fn lemma_naked_rest(g: Dims, c: Seq<u32>, solved: Seq<u8>, k: int)
    requires
        0 <= k <= g.cells(),
        forall|i: int|
            g.is_cell(i) && #[trigger] solved[i] == 0 ==> c[i] != 0 && masks::digits(c[i]).len() >= 2,
    ensures
        naked_upto(g, (c, solved), k) == Placed::Through((c, solved)),
    decreases k,
{
    if k > 0 {
        lemma_naked_rest(g, c, solved, k - 1);
        assert(g.is_cell(k - 1));
        assert(solved[k - 1] != 0 || masks::digits(c[k - 1]).len() >= 2);
    }
}

/// Where no single is left, the units are passed over.
proof fn lemma_units_rest(g: Dims, c: Seq<u32>, solved: Seq<u8>, k: int)
    requires
        g.ok(),
        0 <= k <= 3 * g.n,
        no_singles(g, c, solved),
        solutions::well_formed(g, c, solved),
    ensures
        units_upto(g, (c, solved), k) == Placed::Through((c, solved)),
    decreases k,
{
    if k > 0 {
        lemma_units_rest(g, c, solved, k - 1);
        let u = k - 1;
        assert forall|d: int| 0 < d <= 32 implies !#[trigger] is_hidden(g, (c, solved), u, d) by {
            if is_hidden(g, (c, solved), u, d) {
                let p = choose|p: int| 0 <= p < g.n && #[trigger] hidden_at(g, c, solved, u, p, d);
                geometry::lemma_unit_cell(g, u, p);
                assert(is_single(g, c, solved, g.unit_cell(u, p), d));
            }
        }
        lemma_unit_skips(g, (c, solved), u, 0, 32);
    }
}

/// `d` is not placed in unit `u`, and the `k`-th cell is the only open one there with that
/// candidate.
pub open spec fn is_alone(g: Dims, c: Seq<u32>, solved: Seq<u8>, u: int, k: int, d: int) -> bool {
    &&& solved[g.unit_cell(u, k)] == 0
    &&& masks::holds(c[g.unit_cell(u, k)], d)
    &&& forall|l: int|
        0 <= l < g.n ==> solved[#[trigger] g.unit_cell(u, l)] != d && (l != k
            && solved[g.unit_cell(u, l)] == 0 ==> !masks::holds(c[g.unit_cell(u, l)], d))
}

/// Where no single is left, every open cell has two candidates at least, and a digit that is not
/// placed in a unit has no or more than one open cell there; placing singles again changes
/// nothing.
pub proof fn law_singles_stay_placed(g: Dims, c: Seq<u32>, solved: Seq<u8>)
    requires
        solutions::well_formed(g, c, solved),
        no_singles(g, c, solved),
    ensures
        forall|i: int|
            g.is_cell(i) && #[trigger] solved[i] == 0 ==> masks::digits(c[i]).len() >= 2,
        forall|u: int, k: int, d: int|
            g.is_unit(u) && 0 <= k < g.n && g.is_digit(d) ==> !#[trigger] is_alone(
                g,
                c,
                solved,
                u,
                k,
                d,
            ),
        singles_placed(g, c, solved) == Placed::Through((c, solved)),
{
    assert forall|i: int| g.is_cell(i) && #[trigger] solved[i] == 0 implies c[i] != 0
        && masks::digits(c[i]).len() >= 2 by {
        masks::lemma_digits_finite(c[i]);
        masks::lemma_zero(c[i]);
        let d = choose|d: int| masks::holds(c[i], d);
        assert(masks::holds(c[i], d));
        assert(masks::digits(c[i]).contains(d));
        if masks::digits(c[i]).len() == 1 {
            masks::lemma_single(c[i], d);
            assert(is_single(g, c, solved, i, d));
        }
        if masks::digits(c[i]).len() == 0 {
            masks::digits(c[i]).lemma_len0_is_empty();
        }
    }
    assert forall|u: int, k: int, d: int|
        g.is_unit(u) && 0 <= k < g.n && g.is_digit(d) implies !#[trigger] is_alone(
        g,
        c,
        solved,
        u,
        k,
        d,
    ) by {
        geometry::lemma_unit_cell(g, u, k);
        if is_alone(g, c, solved, u, k, d) {
            assert forall|l: int| 0 <= l < g.n && l != k implies !masks::holds(
                c[#[trigger] g.unit_cell(u, l)],
                d,
            ) by {
                geometry::lemma_unit_cell(g, u, l);
                if solved[g.unit_cell(u, l)] != 0 {
                    assert(c[g.unit_cell(u, l)] == masks::bit(
                        solved[g.unit_cell(u, l)] as int,
                    ));
                }
            }
            assert(hidden_at(g, c, solved, u, k, d));
            assert(is_single(g, c, solved, g.unit_cell(u, k), d));
        }
    }
    lemma_naked_rest(g, c, solved, g.cells());
    lemma_units_rest(g, c, solved, 3 * g.n);
}

/// In whatever order singles are placed, where they end is the same, if there is a solution
/// at all.
pub proof fn law_singles_meet(
    g: Dims,
    c: Seq<u32>,
    solved: Seq<u8>,
    a: Seq<(int, u8)>,
    b: Seq<(int, u8)>,
    s: Seq<int>,
)
    requires
        solutions::well_formed(g, c, solved),
        is_chain(g, c, solved, a),
        is_chain(g, c, solved, b),
        no_singles(g, after(g, c, solved, a).0, after(g, c, solved, a).1),
        no_singles(g, after(g, c, solved, b).0, after(g, c, solved, b).1),
        solutions::solutions(g, c).contains(s),
    ensures
        after(g, c, solved, a) == after(g, c, solved, b),
{
    let (ca, sa) = after(g, c, solved, a);
    let (cb, sb) = after(g, c, solved, b);
    lemma_chain(g, c, solved, a);
    lemma_chain(g, c, solved, b);
    lemma_placed_too(g, c, solved, a, b, s);
    lemma_placed_too(g, c, solved, b, a, s);
    assert(sa =~= sb) by {
        assert forall|j: int| 0 <= j < sa.len() implies sa[j] == sb[j] by {
            if sa[j] == 0 && sb[j] != 0 {
                assert(sa[j] == sb[j]);
            }
        }
    }
    assert forall|i: int| 0 <= i < ca.len() implies ca[i] == cb[i] by {
        assert forall|x: int| 1 <= x <= 32 implies masks::holds(ca[i], x) == masks::holds(cb[i], x) by {
            if masks::holds(ca[i], x) {
                lemma_fewer_left(g, c, solved, b, a, s, i, x);
            }
            if masks::holds(cb[i], x) {
                lemma_fewer_left(g, c, solved, a, b, s, i, x);
            }
        }
        masks::lemma_mask_ext(ca[i], cb[i]);
    }
    assert(ca =~= cb);
}

} // verus!
