//! Where a digit can still go in a unit.

use super::geometry;
use super::geometry::Dims;
use super::grid::Grid;
use super::masks;
use super::peer_tables;
use super::solutions;
use vstd::prelude::*;

verus! {

broadcast use masks::group_masks;

/// Digit `d` is a candidate of the open cell at position `p`, from one upwards, of a unit.
pub open spec fn unit_has(
    g: Dims,
    c: Seq<u32>,
    solved: Seq<int>,
    u: int,
    d: int,
    p: int,
) -> bool {
    &&& 1 <= p <= g.n
    &&& solved[g.unit_cell(u, p - 1)] == 0
    &&& masks::holds(c[g.unit_cell(u, p - 1)], d)
}

/// Digit `d` is placed at position `p` of a unit.
pub open spec fn placed_at(g: Dims, solved: Seq<int>, u: int, d: int, p: int) -> bool {
    1 <= p <= g.n && solved[g.unit_cell(u, p - 1)] == d
}

/// Digit `d` is placed in a unit.
pub open spec fn unit_placed(g: Dims, solved: Seq<int>, u: int, d: int) -> bool {
    exists|p: int| #[trigger] placed_at(g, solved, u, d, p)
}

/// The places of a digit in a unit.
pub open spec fn spots(g: Dims, c: Seq<u32>, solved: Seq<int>, u: int, d: int) -> Set<int> {
    Set::new(|p: int| unit_has(g, c, solved, u, d, p))
}

/// The places of a digit in a unit as a mask, and whether it is placed there.
pub fn spot_mask<const N: usize, const BR: usize, const BC: usize>(
    grid: &Grid<N, BR, BC>,
    u: usize,
    d: u8,
) -> (r: (u32, bool))
    requires
        grid.wf(),
        u < 3 * N,
        1 <= d <= N,
    ensures
        forall|p: int| #[trigger]
            masks::holds(r.0, p) == unit_has(
                Grid::<N, BR, BC>::shape(),
                grid.candidates@,
                solutions::digits_of(grid.solved@),
                u as int,
                d as int,
                p,
            ),
        r.1 == unit_placed(
            Grid::<N, BR, BC>::shape(),
            solutions::digits_of(grid.solved@),
            u as int,
            d as int,
        ),
{
    let ghost g = Grid::<N, BR, BC>::shape();
    let ghost c = grid.candidates@;
    let ghost t = solutions::digits_of(grid.solved@);
    let ghost ui = u as int;
    assert(peer_tables::lists_unit(g, ui, grid.table.units@[ui]@));
    let bit: u32 = masks::digit_bit(d);
    let mut m: u32 = 0;
    let mut placed: bool = false;
    let mut k: usize = 0;
    while k < N
        invariant
            grid.wf(),
            g == Grid::<N, BR, BC>::shape(),
            c == grid.candidates@,
            t == solutions::digits_of(grid.solved@),
            ui == u,
            g.is_unit(ui),
            u < grid.table.units@.len(),
            peer_tables::lists_unit(g, ui, grid.table.units@[ui]@),
            1 <= d <= N,
            bit == masks::bit(d as int),
            k <= N,
            forall|p: int| #[trigger]
                masks::holds(m, p) == (p <= k && unit_has(g, c, t, ui, d as int, p)),
            placed == exists|p: int| p <= k && #[trigger] placed_at(g, t, ui, d as int, p),
        decreases N - k,
    {
        let ghost m0 = m;
        let ghost placed0 = placed;
        let ghost cell = g.unit_cell(ui, k as int);
        let ghost pk = k as int + 1;
        proof {
            geometry::lemma_unit_cell(g, ui, k as int);
            assert(grid.table.units@[ui]@[k as int] == cell);
            assert(t[cell] == grid.solved@[cell]);
        }
        let i: usize = grid.table.units[u][k] as usize;
        if grid.solved[i] != 0 {
            if grid.solved[i] == d {
                placed = true;
                assert(placed_at(g, t, ui, d as int, pk));
            }
        } else if grid.candidates[i] & bit != 0 {
            assert(masks::holds(c[cell], d as int));
            m = m | masks::digit_bit((k + 1) as u8);
        } else {
            assert(!masks::holds(c[cell], d as int));
        }
        proof {
            assert forall|p: int| #[trigger] masks::holds(m, p) == (p <= k + 1 && unit_has(
                g,
                c,
                t,
                ui,
                d as int,
                p,
            )) by {
                assert(masks::holds(m0, p) == (p <= k && unit_has(g, c, t, ui, d as int, p)));
            }
            if placed0 {
                let p = choose|p: int| p <= k && #[trigger] placed_at(g, t, ui, d as int, p);
                assert(placed_at(g, t, ui, d as int, p));
            }
        }
        k += 1;
    }
    (m, placed)
}

} // verus!
