//! How many peers a cell has.

use super::geometry;
use super::geometry::Dims;
use vstd::arithmetic::div_mod::*;
use vstd::prelude::*;
use vstd::set_lib::*;

verus! {

/// The peers of a cell.
pub open spec fn peers(g: Dims, i: int) -> Set<int> {
    Set::new(|j: int| g.peer(i, j))
}

/// The cells of a unit.
pub open spec fn members(g: Dims, u: int) -> Set<int> {
    Set::new(|j: int| g.is_cell(j) && g.in_unit(u, j))
}

/// Every unit has as many cells as there are digits.
pub proof fn law_unit_size(g: Dims, u: int)
    requires
        g.ok(),
        g.is_unit(u),
    ensures
        members(g, u).finite(),
        members(g, u).len() == g.n,
{
    let ks = set_int_range(0, g.n);
    lemma_int_range(0, g.n);
    let f = |k: int| g.unit_cell(u, k);
    assert forall|k: int, l: int|
        ks.contains(k) && ks.contains(l) && #[trigger] f(k) == #[trigger] f(l) implies k == l by {
        geometry::lemma_unit_cell(g, u, k);
        geometry::lemma_unit_cell(g, u, l);
    }
    assert(ks.map(f) =~= members(g, u)) by {
        assert forall|j: int| members(g, u).contains(j) implies ks.map(f).contains(j) by {
            geometry::lemma_unit_pos(g, u, j);
            let k = g.unit_pos(u, j);
            assert(ks.contains(k) && f(k) == j);
        }
        assert forall|j: int| ks.map(f).contains(j) implies members(g, u).contains(j) by {
            let k = choose|k: int| ks.contains(k) && f(k) == j;
            geometry::lemma_unit_cell(g, u, k);
        }
    }
    lemma_map_size(ks, members(g, u), f);
}

/// The cells that a row and a box share.
proof fn lemma_row_and_box(g: Dims, i: int)
    requires
        g.ok(),
        g.is_cell(i),
    ensures
        members(g, g.row(i)).intersect(members(g, 2 * g.n + g.box_of(i))).len() == g.bc,
        members(g, g.row(i)).intersect(members(g, 2 * g.n + g.box_of(i))).finite(),
{
    geometry::lemma_cell_parts(g, i);
    let r = g.row(i);
    let q = g.col(i) / g.bc;
    let ks = set_int_range(0, g.bc);
    lemma_int_range(0, g.bc);
    let f = |k: int| r * g.n + (q * g.bc + k);
    let both = members(g, r).intersect(members(g, 2 * g.n + g.box_of(i)));
    assert(ks.map(f) =~= both) by {
        assert forall|j: int| ks.map(f).contains(j) implies both.contains(j) by {
            let k = choose|k: int| ks.contains(k) && f(k) == j;
            geometry::lemma_compose_bound(q, k, g.br, g.bc);
            geometry::lemma_compose_bound(r, q * g.bc + k, g.n, g.n);
            geometry::lemma_div_mod_of(r, q * g.bc + k, g.n);
            geometry::lemma_div_mod_of(q, k, g.bc);
        }
        assert forall|j: int| both.contains(j) implies ks.map(f).contains(j) by {
            geometry::lemma_cell_parts(g, j);
            let c = g.col(j);
            lemma_fundamental_div_mod(c, g.bc);
            lemma_mod_bound(c, g.bc);
            let k = c % g.bc;
            assert(g.bc * (c / g.bc) == (c / g.bc) * g.bc) by (nonlinear_arith);
            assert(c / g.bc == q);
            assert(ks.contains(k) && f(k) == j);
        }
    }
    lemma_map_size(ks, both, f);
}

/// The cells that a column and a box share.
proof fn lemma_column_and_box(g: Dims, i: int)
    requires
        g.ok(),
        g.is_cell(i),
    ensures
        members(g, g.n + g.col(i)).intersect(members(g, 2 * g.n + g.box_of(i))).len() == g.br,
        members(g, g.n + g.col(i)).intersect(members(g, 2 * g.n + g.box_of(i))).finite(),
{
    geometry::lemma_cell_parts(g, i);
    let c = g.col(i);
    let q = g.row(i) / g.br;
    let ks = set_int_range(0, g.br);
    lemma_int_range(0, g.br);
    let f = |k: int| (q * g.br + k) * g.n + c;
    let both = members(g, g.n + c).intersect(members(g, 2 * g.n + g.box_of(i)));
    assert(g.bc * g.br == g.n) by (nonlinear_arith)
        requires
            g.br * g.bc == g.n,
    ;
    assert forall|k: int, l: int|
        ks.contains(k) && ks.contains(l) && #[trigger] f(k) == #[trigger] f(l) implies k == l by {
        geometry::lemma_div_mod_of(q * g.br + k, c, g.n);
        geometry::lemma_div_mod_of(q * g.br + l, c, g.n);
    }
    assert(ks.map(f) =~= both) by {
        assert forall|j: int| ks.map(f).contains(j) implies both.contains(j) by {
            let k = choose|k: int| ks.contains(k) && f(k) == j;
            geometry::lemma_compose_bound(q, k, g.bc, g.br);
            geometry::lemma_compose_bound(q * g.br + k, c, g.n, g.n);
            geometry::lemma_div_mod_of(q * g.br + k, c, g.n);
            geometry::lemma_div_mod_of(q, k, g.br);
        }
        assert forall|j: int| both.contains(j) implies ks.map(f).contains(j) by {
            geometry::lemma_cell_parts(g, j);
            let r = g.row(j);
            lemma_fundamental_div_mod(r, g.br);
            lemma_mod_bound(r, g.br);
            let k = r % g.br;
            assert(g.br * (r / g.br) == (r / g.br) * g.br) by (nonlinear_arith);
            assert(r / g.br == q);
            assert(ks.contains(k) && f(k) == j);
        }
    }
    lemma_map_size(ks, both, f);
}

/// Every cell has the same number of peers: twenty where there are nine digits in boxes of
/// three by three.
pub proof fn law_peer_count(g: Dims, i: int)
    requires
        g.ok(),
        g.is_cell(i),
    ensures
        peers(g, i).finite(),
        peers(g, i).len() == 3 * g.n - g.br - g.bc - 1,
{
    geometry::lemma_cell_parts(g, i);
    geometry::lemma_cell_units(g, i);
    let a = members(g, g.row(i));
    let b = members(g, g.n + g.col(i));
    let c = members(g, 2 * g.n + g.box_of(i));
    law_unit_size(g, g.row(i));
    law_unit_size(g, g.n + g.col(i));
    law_unit_size(g, 2 * g.n + g.box_of(i));
    lemma_row_and_box(g, i);
    lemma_column_and_box(g, i);
    let only = set![i];
    assert(a.intersect(b) =~= only) by {
        assert forall|j: int| a.intersect(b).contains(j) implies only.contains(j) by {
            geometry::lemma_cell_parts(g, j);
        }
    }
    lemma_set_intersect_union_lens(a, b);
    let ac = a.intersect(c);
    let bc = b.intersect(c);
    lemma_set_intersect_union_lens(ac, bc);
    assert(ac.intersect(bc) =~= a.intersect(b).intersect(c));
    assert(ac.intersect(bc) =~= only);
    let ab = a + b;
    assert(ab.intersect(c) =~= ac + bc);
    lemma_set_intersect_union_lens(ab, c);
    let all = ab + c;
    assert(all.contains(i));
    assert(peers(g, i) =~= all.remove(i)) by {
        assert forall|j: int| peers(g, i).contains(j) implies all.remove(i).contains(j) by {}
    }
}

} // verus!
