//! What almost locked sets, and pairs of them, are found.

use super::als_xz_reverse;
use super::als_xz_reverse::{
    all_in_unit, cell_ints, digits_in, has_digit, is_als, is_als_at, is_first, is_first_als_xz,
    is_first_pair, is_first_unit, lists_alses, xz_fires, xz_kills,
};
use super::combos;
use super::geometry::Dims;
use super::masks;
use vstd::prelude::*;
use vstd::set_lib::*;

verus! {

/// Of the units that hold all cells there is a first one.
proof fn lemma_some_first_unit(g: Dims, cells: Seq<u16>, u: int) -> (v: int)
    requires
        g.is_unit(u),
        all_in_unit(g, u, cells),
    ensures
        is_first_unit(g, v, cells),
    decreases u,
{
    if exists|w: int| 0 <= w < u && #[trigger] all_in_unit(g, w, cells) {
        let w = choose|w: int| 0 <= w < u && #[trigger] all_in_unit(g, w, cells);
        lemma_some_first_unit(g, cells, w)
    } else {
        u
    }
}

/// Up to four open cells of one unit, in ascending order, with one candidate more between them
/// than there are cells, are an almost locked set.
pub proof fn law_almost_locked_set_is_found(
    g: Dims,
    c: Seq<u32>,
    solved: Seq<int>,
    cells: Seq<u16>,
    u: int,
    ds: Seq<int>,
)
    requires
        1 <= cells.len() <= 4,
        forall|i: int, j: int| 0 <= i < j < cells.len() ==> cells[i] < cells[j],
        forall|i: int|
            0 <= i < cells.len() ==> (#[trigger] cells[i]) < g.n * g.n && solved[cells[i] as int]
                == 0,
        0 <= u < 3 * g.n,
        forall|i: int| 0 <= i < cells.len() ==> g.in_unit(u, #[trigger] cells[i] as int),
        ds.len() == cells.len() + 1,
        ds.no_duplicates(),
        forall|i: int, d: int|
            0 <= i < cells.len() && #[trigger] masks::holds(c[cells[i] as int], d) ==> ds.contains(
                d,
            ),
        forall|k: int|
            0 <= k < ds.len() ==> exists|i: int|
                0 <= i < cells.len() && masks::holds(
                    c[#[trigger] cells[i] as int],
                    #[trigger] ds[k],
                ),
    ensures
        is_als(g, c, solved, cells),
{
    let v = lemma_some_first_unit(g, cells, u);
    let all = digits_in(c, cells);
    ds.unique_seq_to_set();
    assert forall|d: int| all.contains(d) == ds.to_set().contains(d) by {
        if all.contains(d) {
            let i = choose|i: int|
                0 <= i < cells.len() && masks::holds(c[#[trigger] cells[i] as int], d);
            assert(masks::holds(c[cells[i] as int], d));
        }
        if ds.contains(d) {
            let k = choose|k: int| 0 <= k < ds.len() && ds[k] == d;
            let i = choose|i: int|
                0 <= i < cells.len() && masks::holds(c[#[trigger] cells[i] as int], ds[k]);
            assert(has_digit(c, cells, d));
        }
    }
    assert(all =~= ds.to_set());
    assert(combos::increasing(cell_ints(cells))) by {
        assert forall|i: int, j: int| 0 <= i < j < cells.len() implies cell_ints(cells)[i]
            < cell_ints(cells)[j] by {
            assert(cells[i] < cells[j]);
        }
    }
    assert(is_als_at(g, c, solved, cells, v, cells.len() as int));
}

/// An almost locked set has one candidate more than cells, which are up to four open ones of one
/// unit.
pub proof fn law_almost_locked_set_is_one(
    g: Dims,
    c: Seq<u32>,
    solved: Seq<int>,
    cells: Seq<u16>,
)
    requires
        is_als(g, c, solved, cells),
    ensures
        1 <= cells.len() <= 4,
        forall|i: int, j: int| 0 <= i < j < cells.len() ==> cells[i] < cells[j],
        forall|i: int|
            0 <= i < cells.len() ==> (#[trigger] cells[i]) < g.n * g.n && solved[cells[i] as int]
                == 0,
        exists|u: int| #[trigger]
            g.is_unit(u) && forall|i: int|
                0 <= i < cells.len() ==> g.in_unit(u, #[trigger] cells[i] as int),
        Set::new(
            |d: int|
                exists|i: int|
                    0 <= i < cells.len() && masks::holds(c[#[trigger] cells[i] as int], d),
        ).len() == cells.len() + 1,
{
    let u = choose|u: int| #[trigger] is_als_at(g, c, solved, cells, u, cells.len() as int);
    assert forall|i: int, j: int| 0 <= i < j < cells.len() implies cells[i] < cells[j] by {
        assert(cell_ints(cells)[i] < cell_ints(cells)[j]);
    }
    assert(g.is_unit(u));
    assert(digits_in(c, cells) =~= Set::new(
        |d: int|
            exists|i: int|
                0 <= i < cells.len() && masks::holds(c[#[trigger] cells[i] as int], d),
    ));
}

/// The cell sees all cells of a set that have the digit, and is none of the set.
pub open spec fn is_seen_from(g: Dims, c: Seq<u32>, cells: Seq<u16>, z: int, cell: int) -> bool {
    forall|i: int|
        0 <= i < cells.len() ==> #[trigger] cells[i] != cell && (masks::holds(
            c[cells[i] as int],
            z,
        ) ==> g.peer(cell, cells[i] as int))
}

/// Two sets without a common cell, with a digit `x` whose places in the one see all its places in
/// the other, rule any other common digit `z` out wherever a candidate sees all its places in
/// both, be it smaller than `x` or larger, and whichever of the sets comes first.
pub proof fn law_pair_rules_out(
    g: Dims,
    c: Seq<u32>,
    solved: Seq<int>,
    a: Seq<u16>,
    b: Seq<u16>,
    x: int,
    z: int,
    cell: int,
)
    requires
        forall|i: int, j: int| 0 <= i < a.len() && 0 <= j < b.len() ==> a[i] != b[j],
        exists|i: int| 0 <= i < a.len() && masks::holds(c[#[trigger] a[i] as int], x),
        exists|j: int| 0 <= j < b.len() && masks::holds(c[#[trigger] b[j] as int], x),
        forall|i: int, j: int|
            0 <= i < a.len() && 0 <= j < b.len() && masks::holds(c[#[trigger] a[i] as int], x)
                && masks::holds(c[#[trigger] b[j] as int], x) ==> g.peer(a[i] as int, b[j] as int),
        z != x,
        exists|i: int| 0 <= i < a.len() && masks::holds(c[#[trigger] a[i] as int], z),
        exists|j: int| 0 <= j < b.len() && masks::holds(c[#[trigger] b[j] as int], z),
        0 <= cell < g.n * g.n,
        solved[cell] == 0,
        masks::holds(c[cell], z),
        is_seen_from(g, c, a, z, cell),
        is_seen_from(g, c, b, z, cell),
    ensures
        xz_fires(g, c, solved, a, b),
        xz_fires(g, c, solved, b, a),
{
    assert(xz_kills(g, c, solved, a, b, x, z, cell));
    law_pair_is_symmetric(g, c, solved, a, b);
}

/// Which of two sets comes first makes no difference.
pub proof fn law_pair_is_symmetric(
    g: Dims,
    c: Seq<u32>,
    solved: Seq<int>,
    a: Seq<u16>,
    b: Seq<u16>,
)
    ensures
        xz_fires(g, c, solved, a, b) == xz_fires(g, c, solved, b, a),
{
    if xz_fires(g, c, solved, a, b) {
        lemma_swapped(g, c, solved, a, b);
    }
    if xz_fires(g, c, solved, b, a) {
        lemma_swapped(g, c, solved, b, a);
    }
}

proof fn lemma_swapped(g: Dims, c: Seq<u32>, solved: Seq<int>, a: Seq<u16>, b: Seq<u16>)
    requires
        xz_fires(g, c, solved, a, b),
    ensures
        xz_fires(g, c, solved, b, a),
{
    let (x, z, cell) = choose|x: int, z: int, cell: int| #[trigger]
        xz_kills(g, c, solved, a, b, x, z, cell);
    assert forall|i: int, j: int|
        0 <= i < b.len() && 0 <= j < a.len() && masks::holds(c[#[trigger] b[i] as int], x)
            && masks::holds(c[#[trigger] a[j] as int], x) implies g.peer(
        b[i] as int,
        a[j] as int,
    ) by {
        assert(g.peer(a[j] as int, b[i] as int));
    }
    assert(xz_kills(g, c, solved, b, a, x, z, cell));
}

/// If two almost locked sets rule something out, the search finds a pair; and if it finds one,
/// there are two that do, of the sizes that it says.
pub proof fn law_search_finds_a_pair(
    g: Dims,
    c: Seq<u32>,
    solved: Seq<int>,
    r: Option<(int, int)>,
    a: Seq<u16>,
    b: Seq<u16>,
)
    requires
        is_first(g, c, solved, r),
    ensures
        is_als(g, c, solved, a) && is_als(g, c, solved, b) && xz_fires(g, c, solved, a, b)
            ==> r is Some,
        r matches Some((lo, hi)) ==> 1 <= lo <= hi <= 4 && exists|p: Seq<u16>, q: Seq<u16>|
            is_als(g, c, solved, p) && is_als(g, c, solved, q) && p.len() == lo && q.len() == hi
                && #[trigger] xz_fires(g, c, solved, p, q),
{
    let l = choose|l: Seq<Seq<u16>>| #[trigger] is_first_als_xz(g, c, solved, l, r);
    assert(lists_alses(g, c, solved, l));
    if is_als(g, c, solved, a) && is_als(g, c, solved, b) && xz_fires(g, c, solved, a, b) {
        let i = choose|i: int| 0 <= i < l.len() && l[i] == a;
        let j = choose|j: int| 0 <= j < l.len() && l[j] == b;
        law_almost_locked_set_is_one(g, c, solved, a);
        law_pair_is_symmetric(g, c, solved, a, b);
        let (x, z, cell) = choose|x: int, z: int, cell: int| #[trigger]
            xz_kills(g, c, solved, a, b, x, z, cell);
        assert(a != b) by {
            assert(als_xz_reverse::no_common_cell(a, b));
            if a == b {
                assert(a[0] != b[0]);
            }
        }
        if r is None {
            if i < j {
                assert(!xz_fires(g, c, solved, l[i], l[j]));
            } else {
                assert(!xz_fires(g, c, solved, l[j], l[i]));
            }
        }
    }
    if let Some((lo, hi)) = r {
        let (i, j) = choose|i: int, j: int| #[trigger]
            is_first_pair(g, c, solved, l, i, j) && lo == if l[i].len() <= l[j].len() {
                l[i].len() as int
            } else {
                l[j].len() as int
            } && hi == if l[i].len() <= l[j].len() {
                l[j].len() as int
            } else {
                l[i].len() as int
            };
        law_almost_locked_set_is_one(g, c, solved, l[i]);
        law_almost_locked_set_is_one(g, c, solved, l[j]);
        law_pair_is_symmetric(g, c, solved, l[i], l[j]);
        if l[i].len() <= l[j].len() {
            assert(xz_fires(g, c, solved, l[i], l[j]));
        } else {
            assert(xz_fires(g, c, solved, l[j], l[i]));
        }
    }
}

} // verus!
