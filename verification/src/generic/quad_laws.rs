//! What hidden quads are found.

use super::chain_laws::is_free;
use super::combos;
use super::geometry;
use super::geometry::Dims;
use super::hidden_quad_reverse::{
    is_first_quad, is_hidden_quad, is_scarce, quad_fires, quad_kills, some_quad, spots_of_all,
};
use super::masks;
use super::unit_places;
use vstd::prelude::*;
use vstd::set_lib::*;

verus! {

/// The open cell `p` of unit `u` has the candidate `d`.
pub open spec fn has_in(g: Dims, c: Seq<u32>, solved: Seq<int>, u: int, p: int, d: int) -> bool {
    &&& 0 <= p < g.n * g.n
    &&& g.in_unit(u, p)
    &&& solved[p] == 0
    &&& masks::holds(c[p], d)
}

/// The position of a cell in a unit.
proof fn lemma_spot_of(g: Dims, c: Seq<u32>, solved: Seq<int>, u: int, d: int, p: int)
    requires
        g.ok(),
        g.is_unit(u),
        has_in(g, c, solved, u, p, d),
    ensures
        unit_places::unit_has(g, c, solved, u, d, g.unit_pos(u, p) + 1),
        g.unit_cell(u, g.unit_pos(u, p)) == p,
{
    geometry::lemma_unit_pos(g, u, p);
}

/// The cell at a position of a unit.
proof fn lemma_cell_at(g: Dims, c: Seq<u32>, solved: Seq<int>, u: int, d: int, x: int)
    requires
        g.ok(),
        g.is_unit(u),
        unit_places::unit_has(g, c, solved, u, d, x),
    ensures
        has_in(g, c, solved, u, g.unit_cell(u, x - 1), d),
        g.unit_pos(u, g.unit_cell(u, x - 1)) == x - 1,
{
    geometry::lemma_unit_cell(g, u, x - 1);
}

/// A digit that no cell of a unit holds is at no position of it.
proof fn lemma_free(g: Dims, solved: Seq<int>, u: int, d: int)
    requires
        g.ok(),
        g.is_unit(u),
    ensures
        unit_places::unit_placed(g, solved, u, d) == !is_free(g, solved, u, d),
{
    if unit_places::unit_placed(g, solved, u, d) {
        let p = choose|p: int| #[trigger] unit_places::placed_at(g, solved, u, d, p);
        geometry::lemma_unit_cell(g, u, p - 1);
        assert(g.in_unit(u, g.unit_cell(u, p - 1)));
    }
    if !is_free(g, solved, u, d) {
        let i = choose|i: int| 0 <= i < g.n * g.n && #[trigger] g.in_unit(u, i) && solved[i] == d;
        geometry::lemma_unit_pos(g, u, i);
        assert(unit_places::placed_at(g, solved, u, d, g.unit_pos(u, i) + 1));
    }
}

/// The cell has one of the digits.
pub open spec fn has_one_of(
    g: Dims,
    c: Seq<u32>,
    solved: Seq<int>,
    u: int,
    p: int,
    ds: Seq<int>,
) -> bool {
    exists|i: int| 0 <= i < ds.len() && #[trigger] has_in(g, c, solved, u, p, ds[i])
}

/// The four cells hold all places of the four digits in the unit.
pub open spec fn share_cells(
    g: Dims,
    c: Seq<u32>,
    solved: Seq<int>,
    u: int,
    ds: Seq<int>,
    cells: Seq<int>,
) -> bool {
    &&& forall|i: int, p: int|
        0 <= i < ds.len() && #[trigger] has_in(g, c, solved, u, p, ds[i]) ==> cells.contains(p)
    &&& forall|x: int|
        0 <= x < cells.len() ==> has_one_of(g, c, solved, u, #[trigger] cells[x], ds)
}

/// The digit has two places at least in the unit.
pub open spec fn has_two(g: Dims, c: Seq<u32>, solved: Seq<int>, u: int, d: int) -> bool {
    exists|p: int, q: int|
        p != q && #[trigger] has_in(g, c, solved, u, p, d) && #[trigger] has_in(
            g,
            c,
            solved,
            u,
            q,
            d,
        )
}

/// The places of the digits are the positions of the cells.
proof fn lemma_positions(
    g: Dims,
    c: Seq<u32>,
    solved: Seq<int>,
    u: int,
    ds: Seq<int>,
    cells: Seq<int>,
)
    requires
        g.ok(),
        g.is_unit(u),
        cells.no_duplicates(),
        share_cells(g, c, solved, u, ds, cells),
    ensures
        spots_of_all(g, c, solved, u, ds).finite(),
        spots_of_all(g, c, solved, u, ds).len() == cells.len(),
        forall|x: int|
            0 <= x < cells.len() ==> spots_of_all(g, c, solved, u, ds).contains(
                g.unit_pos(u, #[trigger] cells[x]) + 1,
            ) && g.unit_cell(u, g.unit_pos(u, cells[x])) == cells[x],
{
    let all = spots_of_all(g, c, solved, u, ds);
    let at = Seq::new(cells.len(), |x: int| g.unit_pos(u, cells[x]) + 1);
    assert forall|x: int| 0 <= x < cells.len() implies all.contains(
        g.unit_pos(u, #[trigger] cells[x]) + 1,
    ) && g.unit_cell(u, g.unit_pos(u, cells[x])) == cells[x] by {
        let i = choose|i: int|
            0 <= i < ds.len() && #[trigger] has_in(g, c, solved, u, cells[x], ds[i]);
        lemma_spot_of(g, c, solved, u, ds[i], cells[x]);
    }
    assert forall|x: int, y: int| 0 <= x < y < at.len() implies at[x] != at[y] by {
        assert(cells[x] != cells[y]);
    }
    assert(at.no_duplicates());
    at.unique_seq_to_set();
    assert forall|p: int| all.contains(p) == at.to_set().contains(p) by {
        if all.contains(p) {
            let i = choose|i: int|
                0 <= i < ds.len() && unit_places::unit_has(g, c, solved, u, #[trigger] ds[i], p);
            lemma_cell_at(g, c, solved, u, ds[i], p);
            let cell = g.unit_cell(u, p - 1);
            let x = choose|x: int| 0 <= x < cells.len() && cells[x] == cell;
            assert(at[x] == p);
        }
        if at.contains(p) {
            let x = choose|x: int| 0 <= x < at.len() && at[x] == p;
            assert(all.contains(g.unit_pos(u, cells[x]) + 1));
        }
    }
    assert(all =~= at.to_set());
}

/// A digit with two places among those of the quad can be one of the four.
proof fn lemma_scarce(g: Dims, c: Seq<u32>, solved: Seq<int>, u: int, ds: Seq<int>, i: int)
    requires
        g.ok(),
        g.is_unit(u),
        0 <= i < ds.len(),
        1 <= ds[i] <= g.n,
        is_free(g, solved, u, ds[i]),
        has_two(g, c, solved, u, ds[i]),
        spots_of_all(g, c, solved, u, ds).finite(),
        spots_of_all(g, c, solved, u, ds).len() == 4,
    ensures
        is_scarce(g, c, solved, u, ds[i]),
{
    let all = spots_of_all(g, c, solved, u, ds);
    let own = unit_places::spots(g, c, solved, u, ds[i]);
    lemma_free(g, solved, u, ds[i]);
    assert(own.subset_of(all)) by {
        assert forall|p: int| own.contains(p) implies all.contains(p) by {
            assert(unit_places::unit_has(g, c, solved, u, ds[i], p));
        }
    }
    lemma_len_subset(own, all);
    let (p, q) = choose|p: int, q: int|
        p != q && #[trigger] has_in(g, c, solved, u, p, ds[i]) && #[trigger] has_in(
            g,
            c,
            solved,
            u,
            q,
            ds[i],
        );
    lemma_spot_of(g, c, solved, u, ds[i], p);
    lemma_spot_of(g, c, solved, u, ds[i], q);
    let two = set![g.unit_pos(u, p) + 1, g.unit_pos(u, q) + 1];
    assert(two.subset_of(own));
    lemma_len_subset(two, own);
    assert(two.len() == 2);
}

/// Four digits that are not placed in a unit, have two places at least each, and all their places
/// in the same four cells of it, rule every other digit out there: if one of the cells has
/// another candidate, they are a hidden quad that rules something out, and one is found.
pub proof fn law_hidden_quad_is_found(
    g: Dims,
    c: Seq<u32>,
    solved: Seq<int>,
    u: int,
    ds: Seq<int>,
    cells: Seq<int>,
    k: int,
    other: int,
)
    requires
        g.ok(),
        0 <= u < 3 * g.n,
        ds.len() == 4,
        cells.len() == 4,
        forall|i: int, j: int| 0 <= i < j < 4 ==> ds[i] < ds[j],
        forall|i: int| 0 <= i < 4 ==> 1 <= #[trigger] ds[i] <= g.n,
        forall|i: int| 0 <= i < 4 ==> is_free(g, solved, u, #[trigger] ds[i]),
        forall|i: int| 0 <= i < 4 ==> has_two(g, c, solved, u, #[trigger] ds[i]),
        cells.no_duplicates(),
        share_cells(g, c, solved, u, ds, cells),
        0 <= k < 4,
        masks::holds(c[cells[k]], other),
        !ds.contains(other),
    ensures
        quad_fires(g, c, solved, u, ds),
        some_quad(g, c, solved),
{
    lemma_positions(g, c, solved, u, ds, cells);
    assert forall|i: int| 0 <= i < 4 implies is_scarce(g, c, solved, u, #[trigger] ds[i]) by {
        lemma_scarce(g, c, solved, u, ds, i);
    }
    assert(is_hidden_quad(g, c, solved, u, ds));
    let p = g.unit_pos(u, cells[k]) + 1;
    assert(g.unit_cell(u, p - 1) == cells[k]);
    assert(quad_kills(g, c, solved, u, ds, p, other));
    assert(combos::increasing(ds));
    assert(quad_fires(g, c, solved, u, ds));
}

/// A hidden quad that rules something out has four digits, which are not placed in the unit and
/// have four cells of it between them, one of which has another candidate.
pub proof fn law_hidden_quad_is_one(
    g: Dims,
    c: Seq<u32>,
    solved: Seq<int>,
    u: int,
    ds: Seq<int>,
)
    requires
        g.ok(),
        quad_fires(g, c, solved, u, ds),
    ensures
        0 <= u < 3 * g.n,
        ds.len() == 4,
        ds.no_duplicates(),
        forall|i: int| 0 <= i < 4 ==> is_free(g, solved, u, #[trigger] ds[i]),
        ({
            let own = Set::new(
                |p: int|
                    exists|i: int| 0 <= i < 4 && has_in(g, c, solved, u, p, #[trigger] ds[i]),
            );
            &&& own.len() == 4
            &&& exists|p: int, d: int|
                own.contains(p) && #[trigger] masks::holds(c[p], d) && !ds.contains(d)
        }),
{
    let all = spots_of_all(g, c, solved, u, ds);
    let own = Set::new(
        |p: int| exists|i: int| 0 <= i < 4 && has_in(g, c, solved, u, p, #[trigger] ds[i]),
    );
    let f = |x: int| g.unit_cell(u, x - 1);
    lemma_int_range(1, g.n + 1);
    assert(all.subset_of(set_int_range(1, g.n + 1)));
    lemma_len_subset(all, set_int_range(1, g.n + 1));
    assert forall|i: int| 0 <= i < 4 implies is_free(g, solved, u, #[trigger] ds[i]) by {
        assert(is_scarce(g, c, solved, u, ds[i]));
        lemma_free(g, solved, u, ds[i]);
    }
    assert(all.map(f) =~= own) by {
        assert forall|p: int| all.map(f).contains(p) == own.contains(p) by {
            if all.map(f).contains(p) {
                let x = choose|x: int| all.contains(x) && f(x) == p;
                let i = choose|i: int|
                    0 <= i < ds.len() && unit_places::unit_has(g, c, solved, u, #[trigger] ds[i], x);
                lemma_cell_at(g, c, solved, u, ds[i], x);
                assert(has_in(g, c, solved, u, p, ds[i]));
            }
            if own.contains(p) {
                let i = choose|i: int| 0 <= i < 4 && has_in(g, c, solved, u, p, #[trigger] ds[i]);
                lemma_spot_of(g, c, solved, u, ds[i], p);
                let x = g.unit_pos(u, p) + 1;
                assert(unit_places::unit_has(g, c, solved, u, ds[i], x));
                assert(all.contains(x) && f(x) == p);
            }
        }
    }
    assert forall|x: int, y: int|
        all.contains(x) && all.contains(y) && #[trigger] f(x) == #[trigger] f(y) implies x == y by {
        geometry::lemma_unit_cell(g, u, x - 1);
        geometry::lemma_unit_cell(g, u, y - 1);
    }
    lemma_map_size(all, own, f);
    let (p, d) = choose|p: int, d: int| #[trigger] quad_kills(g, c, solved, u, ds, p, d);
    assert(all.map(f).contains(f(p)));
    assert(own.contains(f(p)) && masks::holds(c[f(p)], d) && !ds.contains(d));
}

/// The quad that comes first is in no later unit than any other that rules something out.
pub proof fn law_first_quad_is_in_the_first_unit(
    g: Dims,
    c: Seq<u32>,
    solved: Seq<int>,
    u: int,
    ds: Seq<int>,
    v: int,
    es: Seq<int>,
)
    requires
        is_first_quad(g, c, solved, u, ds),
        quad_fires(g, c, solved, v, es),
        forall|i: int, j: int| 0 <= i < j < es.len() ==> es[i] < es[j],
    ensures
        u <= v,
        forall|i: int, j: int| 0 <= i < j < ds.len() ==> ds[i] < ds[j],
{
    assert(combos::increasing(es));
}

} // verus!
