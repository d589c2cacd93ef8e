//! What placing a digit does to a puzzle, and which removals of clues a search goes along with.

use super::aic_reverse;
use super::aic_reverse::AicProbe;
use super::als_xz_reverse;
use super::als_xz_reverse::AlsProbe;
use super::fish_reverse;
use super::fish_reverse::FishProbe;
use super::geometry;
use super::geometry::Dims;
use super::grid::Grid;
use super::guided_removal::Probe;
use super::hidden_quad_reverse;
use super::hidden_quad_reverse::HiddenQuadProbe;
use super::masks;
use super::solutions;
use vstd::prelude::*;

verus! {

/// Two cells share a box just if they are in the same band of rows and the same stack of columns.
pub proof fn law_boxes(g: Dims, i: int, j: int)
    requires
        g.ok(),
        g.is_cell(i),
        g.is_cell(j),
    ensures
        g.box_of(i) == g.box_of(j) <==> i / g.n / g.br == j / g.n / g.br && i % g.n / g.bc == j
            % g.n / g.bc,
{
    geometry::lemma_cell_parts(g, i);
    geometry::lemma_cell_parts(g, j);
}

/// A digit can be placed just if it is a candidate of its cell, no peer holds it, and every open
/// peer has another candidate.
pub proof fn law_placing_is_refused(
    g: Dims,
    c: Seq<u32>,
    solved: Seq<u8>,
    cell: int,
    d: int,
)
    requires
        solutions::well_formed(g, c, solved),
        g.is_cell(cell),
        g.is_digit(d),
    ensures
        solutions::can_assign(g, c, solved, cell, d) <==> masks::holds(c[cell], d) && forall|
            p: int,
        | #[trigger]
            g.peer(cell, p) ==> if solved[p] == 0 {
                exists|e: int| e != d && #[trigger] masks::holds(c[p], e)
            } else {
                solved[p] != d
            },
{
    broadcast use masks::group_masks;

    assert forall|p: int| #[trigger] g.peer(cell, p) implies solutions::blocks(
        g,
        c,
        solved,
        cell,
        d,
        p,
    ) == !(if solved[p] == 0 {
        exists|e: int| e != d && #[trigger] masks::holds(c[p], e)
    } else {
        solved[p] != d
    }) by {
        let m = c[p] & !masks::bit(d);
        if solved[p] == 0 {
            masks::lemma_zero(m);
            if m != 0 {
                let e = choose|e: int| masks::holds(m, e);
                assert(masks::holds(c[p], e));
                assert(!masks::holds(masks::bit(d), e));
                assert(e != d);
            } else {
                assert forall|e: int| e != d implies !#[trigger] masks::holds(c[p], e) by {
                    assert(!masks::holds(m, e));
                }
            }
        } else {
            let s = solved[p] as int;
            assert(c[p] == masks::bit(s));
            assert(masks::holds(masks::bit(s), s));
            assert(masks::holds(masks::bit(d), s) == (s == d));
        }
    }
    if solutions::can_assign(g, c, solved, cell, d) {
        assert forall|p: int| #[trigger] g.peer(cell, p) implies (if solved[p] == 0 {
            exists|e: int| e != d && #[trigger] masks::holds(c[p], e)
        } else {
            solved[p] != d
        }) by {
            assert(!solutions::blocks(g, c, solved, cell, d, p));
        }
    }
}

/// Placing a digit leaves it alone in its cell, takes it from every open peer, and changes no
/// other candidate.
pub proof fn law_placing_leaves(
    g: Dims,
    c: Seq<u32>,
    solved: Seq<u8>,
    cell: int,
    d: int,
    j: int,
    e: int,
)
    requires
        solutions::well_formed(g, c, solved),
        g.is_cell(cell),
        g.is_cell(j),
        g.is_digit(d),
    ensures
        j == cell ==> masks::holds(solutions::assigned(g, c, solved, cell, d)[j], e) == (e == d),
        g.peer(cell, j) && solved[j] == 0 ==> masks::holds(
            solutions::assigned(g, c, solved, cell, d)[j],
            e,
        ) == (e != d && masks::holds(c[j], e)),
        j != cell && !(g.peer(cell, j) && solved[j] == 0) ==> solutions::assigned(
            g,
            c,
            solved,
            cell,
            d,
        )[j] == c[j],
{
    broadcast use masks::group_masks;

}

/// Clues go while there is no chain yet; once there is one, only if there still is one, and not
/// further off the length sought.
pub proof fn law_chains_are_not_lost<const N: usize, const BR: usize, const BC: usize>(
    probe: AicProbe,
    c: Seq<u32>,
    solved: Seq<int>,
    c2: Seq<u32>,
    solved2: Seq<int>,
)
    ensures
        ({
            let g = Grid::<N, BR, BC>::shape();
            let now = Probe::<N, BR, BC>::score(&probe, c, solved);
            let next = Probe::<N, BR, BC>::score(&probe, c2, solved2);
            Probe::<N, BR, BC>::accepts(&probe, now, next) <==> match (
                aic_reverse::chain_length(g, c, solved),
                aic_reverse::chain_length(g, c2, solved2),
            ) {
                (None, _) => true,
                (Some(_), None) => false,
                (Some(a), Some(b)) => -apart(a, probe.target as int) <= b - probe.target <= apart(
                    a,
                    probe.target as int,
                ),
            }
        }),
{
}

/// How far two lengths are off each other.
pub open spec fn apart(a: int, b: int) -> int {
    if a >= b {
        a - b
    } else {
        b - a
    }
}

/// Clues go while there is no fish of the size yet, and then only if there still is one.
pub proof fn law_fish_are_not_lost<const N: usize, const BR: usize, const BC: usize>(
    probe: FishProbe,
    c: Seq<u32>,
    solved: Seq<int>,
    c2: Seq<u32>,
    solved2: Seq<int>,
)
    requires
        probe.size < N,
    ensures
        ({
            let g = Grid::<N, BR, BC>::shape();
            let now = Probe::<N, BR, BC>::score(&probe, c, solved);
            let next = Probe::<N, BR, BC>::score(&probe, c2, solved2);
            Probe::<N, BR, BC>::accepts(&probe, now, next) <==> (fish_reverse::fish_at(
                g,
                c,
                solved,
                probe.size as int,
            ) ==> fish_reverse::fish_at(g, c2, solved2, probe.size as int))
        }),
{
}

/// Clues go while there is no pair of sets yet, and then only if there still is one; and once the
/// first pair is of the sizes sought, only if it still is.
pub proof fn law_pairs_are_not_lost<const N: usize, const BR: usize, const BC: usize>(
    probe: AlsProbe,
    c: Seq<u32>,
    solved: Seq<int>,
    c2: Seq<u32>,
    solved2: Seq<int>,
)
    ensures
        ({
            let g = Grid::<N, BR, BC>::shape();
            let now = Probe::<N, BR, BC>::score(&probe, c, solved);
            let next = Probe::<N, BR, BC>::score(&probe, c2, solved2);
            Probe::<N, BR, BC>::accepts(&probe, now, next) <==> match (
                als_xz_reverse::first_als_xz(g, c, solved),
                als_xz_reverse::first_als_xz(g, c2, solved2),
            ) {
                (None, _) => true,
                (Some(_), None) => false,
                (Some(a), Some(b)) => probe.size_min <= a.0 && a.0 <= probe.size_max
                    ==> probe.size_min <= b.0 && b.0 <= probe.size_max,
            }
        }),
{
}

/// Clues go while there is no hidden quad yet, and then only if there still is one.
pub proof fn law_quads_are_not_lost<const N: usize, const BR: usize, const BC: usize>(
    probe: HiddenQuadProbe,
    c: Seq<u32>,
    solved: Seq<int>,
    c2: Seq<u32>,
    solved2: Seq<int>,
)
    ensures
        ({
            let g = Grid::<N, BR, BC>::shape();
            let now = Probe::<N, BR, BC>::score(&probe, c, solved);
            let next = Probe::<N, BR, BC>::score(&probe, c2, solved2);
            Probe::<N, BR, BC>::accepts(&probe, now, next) <==> (hidden_quad_reverse::some_quad(
                g,
                c,
                solved,
            ) ==> hidden_quad_reverse::some_quad(g, c2, solved2))
        }),
{
}

} // verus!
