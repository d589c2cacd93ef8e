//! What links and alternating chains are found.

use super::aic_graph;
use super::aic_graph::{paired, strong, strong_in, weak, weak_in};
use super::aic_reverse::{
    chain, ends_fire, ends_kill, fires_at, is_chain_length, is_first_chain, is_start, link,
};
use super::csp_tables;
use super::geometry;
use super::geometry::Dims;
use super::masks;
use super::unit_places;
use vstd::prelude::*;

verus! {

/// The open cell `p` has the candidate `d`.
pub open spec fn can(g: Dims, c: Seq<u32>, solved: Seq<int>, p: int, d: int) -> bool {
    &&& 0 <= p < g.n * g.n
    &&& 1 <= d <= g.n
    &&& solved[p] == 0
    &&& masks::holds(c[p], d)
}

/// Digit `d` is placed in no cell of unit `u`.
pub open spec fn is_free(g: Dims, solved: Seq<int>, u: int, d: int) -> bool {
    forall|i: int| 0 <= i < g.n * g.n && #[trigger] g.in_unit(u, i) ==> solved[i] != d
}

/// The label of a cell and a digit.
pub open spec fn label(g: Dims, p: int, d: int) -> int {
    p * g.n + (d - 1)
}

proof fn lemma_label(g: Dims, p: int, d: int)
    requires
        g.ok(),
        0 <= p < g.n * g.n,
        1 <= d <= g.n,
    ensures
        g.is_label(label(g, p, d)),
        g.label_cell(label(g, p, d)) == p,
        g.label_digit(label(g, p, d)) == d - 1,
{
    csp_tables::lemma_label_at(g, p, d - 1);
}

/// A digit that no cell of a unit holds is at no position of it.
proof fn lemma_free(g: Dims, solved: Seq<int>, u: int, d: int)
    requires
        g.ok(),
        g.is_unit(u),
    ensures
        is_free(g, solved, u, d) == !unit_places::unit_placed(g, solved, u, d),
{
    if unit_places::unit_placed(g, solved, u, d) {
        let p = choose|p: int| #[trigger] unit_places::placed_at(g, solved, u, d, p);
        geometry::lemma_unit_cell(g, u, p - 1);
        assert(g.in_unit(u, g.unit_cell(u, p - 1)));
    }
    if !is_free(g, solved, u, d) {
        let i = choose|i: int| 0 <= i < g.n * g.n && #[trigger] g.in_unit(u, i) && solved[i] == d;
        geometry::lemma_unit_pos(g, u, i);
        assert(unit_places::placed_at(g, solved, u, d, g.unit_pos(u, i) + 1));
    }
}

/// What is possible of a digit in a unit.
proof fn lemma_member(g: Dims, c: Seq<u32>, solved: Seq<int>, u: int, d: int, a: int)
    requires
        g.ok(),
        g.is_unit(u),
        1 <= d <= g.n,
    ensures
        g.cells() <= g.unit_var(u, d - 1) < g.vars(),
        aic_graph::is_member(g, c, solved, g.unit_var(u, d - 1), a) == (g.is_label(a)
            && g.label_digit(a) == d - 1 && can(g, c, solved, g.label_cell(a), d) && g.in_unit(
            u,
            g.label_cell(a),
        ) && is_free(g, solved, u, d)),
{
    csp_tables::lemma_unit_var(g, u, d - 1);
    lemma_free(g, solved, u, d);
    if g.is_label(a) {
        csp_tables::lemma_label_parts(g, a);
    }
}

/// Two places that are all that a digit has in a unit, where it is not placed, are linked: one of
/// them holds.
pub proof fn law_two_places_are_linked(
    g: Dims,
    c: Seq<u32>,
    solved: Seq<int>,
    u: int,
    p: int,
    q: int,
    d: int,
)
    requires
        g.ok(),
        0 <= u < 3 * g.n,
        p != q,
        can(g, c, solved, p, d),
        can(g, c, solved, q, d),
        g.in_unit(u, p),
        g.in_unit(u, q),
        is_free(g, solved, u, d),
        forall|i: int|
            #[trigger] can(g, c, solved, i, d) && g.in_unit(u, i) ==> i == p || i == q,
    ensures
        strong(g, c, solved, label(g, p, d), label(g, q, d)),
{
    let v = g.unit_var(u, d - 1);
    let (a, b) = (label(g, p, d), label(g, q, d));
    lemma_label(g, p, d);
    lemma_label(g, q, d);
    lemma_member(g, c, solved, u, d, a);
    lemma_member(g, c, solved, u, d, b);
    assert forall|x: int| #[trigger] aic_graph::is_member(g, c, solved, v, x) implies x == a || x
        == b by {
        lemma_member(g, c, solved, u, d, x);
        csp_tables::lemma_label_parts(g, x);
        assert(can(g, c, solved, g.label_cell(x), d));
    }
    assert(strong_in(g, c, solved, v, a, b));
}

/// Two candidates that are all that an open cell has are linked both ways: one of them holds, and
/// not both.
pub proof fn law_two_candidates_are_linked(
    g: Dims,
    c: Seq<u32>,
    solved: Seq<int>,
    p: int,
    d: int,
    e: int,
)
    requires
        g.ok(),
        d != e,
        can(g, c, solved, p, d),
        can(g, c, solved, p, e),
        forall|x: int| #[trigger] can(g, c, solved, p, x) ==> x == d || x == e,
    ensures
        strong(g, c, solved, label(g, p, d), label(g, p, e)),
        weak(g, c, solved, label(g, p, d), label(g, p, e)),
{
    let (a, b) = (label(g, p, d), label(g, p, e));
    lemma_label(g, p, d);
    lemma_label(g, p, e);
    assert forall|x: int| #[trigger] aic_graph::is_member(g, c, solved, p, x) implies x == a || x
        == b by {
        csp_tables::lemma_label_parts(g, x);
        assert(can(g, c, solved, p, g.label_digit(x) + 1));
    }
    assert(g.is_var(p));
    assert(strong_in(g, c, solved, p, a, b));
    assert(weak_in(g, c, solved, p, a, b));
}

/// Two places of a digit in a unit where it is not placed exclude one another.
pub proof fn law_two_places_exclude_one_another(
    g: Dims,
    c: Seq<u32>,
    solved: Seq<int>,
    u: int,
    p: int,
    q: int,
    d: int,
)
    requires
        g.ok(),
        0 <= u < 3 * g.n,
        p != q,
        can(g, c, solved, p, d),
        can(g, c, solved, q, d),
        g.in_unit(u, p),
        g.in_unit(u, q),
        is_free(g, solved, u, d),
    ensures
        weak(g, c, solved, label(g, p, d), label(g, q, d)),
{
    let v = g.unit_var(u, d - 1);
    let (a, b) = (label(g, p, d), label(g, q, d));
    lemma_label(g, p, d);
    lemma_label(g, q, d);
    lemma_member(g, c, solved, u, d, a);
    lemma_member(g, c, solved, u, d, b);
    assert(weak_in(g, c, solved, v, a, b));
}

/// Linked labels are candidates of open cells: two of one cell that has no others, or the same
/// digit in two cells that share a unit where it is not placed; of the latter, if one of them has
/// to hold, there is such a unit without a third.
pub proof fn law_links_are_of_cells_or_units(
    g: Dims,
    c: Seq<u32>,
    solved: Seq<int>,
    a: int,
    b: int,
)
    requires
        g.ok(),
        strong(g, c, solved, a, b) || weak(g, c, solved, a, b),
    ensures
        a != b,
        g.is_label(a) && g.is_label(b),
        can(g, c, solved, g.label_cell(a), g.label_digit(a) + 1),
        can(g, c, solved, g.label_cell(b), g.label_digit(b) + 1),
        g.label_cell(a) == g.label_cell(b) ==> forall|x: int| #[trigger]
            can(g, c, solved, g.label_cell(a), x) ==> x == g.label_digit(a) + 1 || x
                == g.label_digit(b) + 1,
        g.label_cell(a) != g.label_cell(b) ==> g.label_digit(a) == g.label_digit(b) && exists|
            u: int,
        |
            g.is_unit(u) && g.in_unit(u, g.label_cell(a)) && g.in_unit(u, g.label_cell(b))
                && #[trigger] is_free(g, solved, u, g.label_digit(a) + 1),
        g.label_cell(a) != g.label_cell(b) && strong(g, c, solved, a, b) ==> exists|u: int|
            g.is_unit(u) && g.in_unit(u, g.label_cell(a)) && g.in_unit(u, g.label_cell(b))
                && #[trigger] is_free(g, solved, u, g.label_digit(a) + 1) && forall|i: int|
                #[trigger] can(g, c, solved, i, g.label_digit(a) + 1) && g.in_unit(u, i) ==> i
                    == g.label_cell(a) || i == g.label_cell(b),
{
    let s = strong(g, c, solved, a, b);
    let v = if s {
        choose|v: int| v < g.vars() && #[trigger] strong_in(g, c, solved, v, a, b)
    } else {
        choose|v: int| v < g.vars() && #[trigger] weak_in(g, c, solved, v, a, b)
    };
    csp_tables::lemma_label_parts(g, a);
    csp_tables::lemma_label_parts(g, b);
    if s {
        assert(weak_in(g, c, solved, v, a, b));
    }
    if v < g.cells() {
        assert(strong_in(g, c, solved, v, a, b));
        assert forall|x: int| #[trigger] can(g, c, solved, g.label_cell(a), x) implies x
            == g.label_digit(a) + 1 || x == g.label_digit(b) + 1 by {
            lemma_label(g, v, x);
            assert(aic_graph::is_member(g, c, solved, v, label(g, v, x)));
        }
    } else {
        let u = g.var_unit(v);
        let d = g.label_digit(a) + 1;
        aic_graph::lemma_unit_of_var(g, v);
        lemma_free(g, solved, u, d);
        assert(is_free(g, solved, u, d));
        if g.label_cell(a) == g.label_cell(b) {
            assert(a == b);
        }
        if s {
            assert forall|i: int| #[trigger]
                can(g, c, solved, i, d) && g.in_unit(u, i) implies i == g.label_cell(a) || i
                == g.label_cell(b) by {
                lemma_label(g, i, d);
                lemma_member(g, c, solved, u, d, label(g, i, d));
                assert(aic_graph::is_member(g, c, solved, v, label(g, i, d)));
            }
        }
    }
}

/// Two cells with a digit rule it out in every open cell that has it and sees both, whether or
/// not they see one another.
pub proof fn law_common_peer_is_enough(
    g: Dims,
    c: Seq<u32>,
    solved: Seq<int>,
    p: int,
    q: int,
    d: int,
    cell: int,
)
    requires
        g.ok(),
        p != q,
        1 <= d <= g.n,
        g.peer(p, cell),
        g.peer(q, cell),
        solved[cell] == 0,
        masks::holds(c[cell], d),
    ensures
        ends_fire(g, c, solved, label(g, p, d), label(g, q, d)),
{
    lemma_label(g, p, d);
    lemma_label(g, q, d);
    assert(ends_kill(g, c, solved, label(g, p, d), label(g, q, d), cell));
}

/// Ends that rule something out have the same digit in two cells, and an open cell that sees both
/// has it as a candidate.
pub proof fn law_ends_need_a_common_peer(g: Dims, c: Seq<u32>, solved: Seq<int>, a: int, b: int)
    requires
        ends_fire(g, c, solved, a, b),
    ensures
        g.label_digit(a) == g.label_digit(b),
        g.label_cell(a) != g.label_cell(b),
        exists|cell: int| #[trigger]
            g.peer(g.label_cell(a), cell) && g.peer(g.label_cell(b), cell) && solved[cell] == 0
                && masks::holds(c[cell], g.label_digit(a) + 1),
{
    let cell = choose|cell: int| #[trigger] ends_kill(g, c, solved, a, b, cell);
    assert(g.peer(g.label_cell(a), cell));
}

/// Which end comes first makes no difference.
pub proof fn law_ends_are_symmetric(g: Dims, c: Seq<u32>, solved: Seq<int>, a: int, b: int)
    ensures
        ends_fire(g, c, solved, a, b) == ends_fire(g, c, solved, b, a),
{
    if ends_fire(g, c, solved, a, b) {
        let cell = choose|cell: int| #[trigger] ends_kill(g, c, solved, a, b, cell);
        assert(ends_kill(g, c, solved, b, a, cell));
    }
    if ends_fire(g, c, solved, b, a) {
        let cell = choose|cell: int| #[trigger] ends_kill(g, c, solved, b, a, cell);
        assert(ends_kill(g, c, solved, a, b, cell));
    }
}

/// The labels follow one another by links of which the first, third and so on are strong and the
/// others weak, and the first label does not come again.
pub open spec fn alternates(g: Dims, c: Seq<u32>, solved: Seq<int>, path: Seq<int>) -> bool {
    &&& path.len() >= 2
    &&& forall|i: int| 1 <= i < path.len() ==> #[trigger] path[i] != path[0]
    &&& forall|i: int|
        1 <= i < path.len() ==> if i % 2 == 1 {
            strong(g, c, solved, path[i - 1], #[trigger] path[i])
        } else {
            weak(g, c, solved, path[i - 1], path[i])
        }
}

/// Labels that alternate are a chain of as many links as there are steps between them.
pub proof fn law_path_is_a_chain(g: Dims, c: Seq<u32>, solved: Seq<int>, path: Seq<int>)
    requires
        alternates(g, c, solved, path),
    ensures
        chain(g, c, solved, path[0], path.last(), path.len() - 1),
    decreases path.len(),
{
    let k = path.len() - 1;
    assert(path[k] != path[0]);
    assert(link(g, c, solved, k, path[k - 1], path[k]));
    if k > 1 {
        let t = path.drop_last();
        assert(alternates(g, c, solved, t)) by {
            assert forall|i: int| 1 <= i < t.len() implies #[trigger] t[i] != t[0] by {
                assert(path[i] != path[0]);
            }
            assert forall|i: int| 1 <= i < t.len() implies if i % 2 == 1 {
                strong(g, c, solved, t[i - 1], #[trigger] t[i])
            } else {
                weak(g, c, solved, t[i - 1], t[i])
            } by {
                assert(path[i] == t[i] && path[i - 1] == t[i - 1]);
            }
        }
        law_path_is_a_chain(g, c, solved, t);
        assert(t.last() == path[k - 1] && t[0] == path[0]);
    }
}

/// A chain is a path of labels that alternate, with one label more than links.
pub proof fn law_chain_is_a_path(
    g: Dims,
    c: Seq<u32>,
    solved: Seq<int>,
    start: int,
    a: int,
    k: int,
) -> (path: Seq<int>)
    requires
        chain(g, c, solved, start, a, k),
    ensures
        alternates(g, c, solved, path),
        path.len() == k + 1,
        path[0] == start,
        path.last() == a,
    decreases k,
{
    if k == 1 {
        seq![start, a]
    } else {
        let m = choose|m: int| #[trigger]
            link(g, c, solved, k, m, a) && chain(g, c, solved, start, m, k - 1);
        let t = law_chain_is_a_path(g, c, solved, start, m, k - 1);
        let path = t.push(a);
        assert forall|i: int| 1 <= i < path.len() implies #[trigger] path[i] != path[0] by {
            if i < t.len() {
                assert(t[i] != t[0]);
            }
        }
        assert forall|i: int| 1 <= i < path.len() implies if i % 2 == 1 {
            strong(g, c, solved, path[i - 1], #[trigger] path[i])
        } else {
            weak(g, c, solved, path[i - 1], path[i])
        } by {
            if i < t.len() {
                assert(t[i] == path[i] && t[i - 1] == path[i - 1]);
            }
        }
        path
    }
}

/// A chain of up to 13 links, an odd number, whose ends have the same digit in two cells is found
/// if an open cell that sees both ends has the digit: the search finds some chain.
pub proof fn law_chain_is_found(
    g: Dims,
    c: Seq<u32>,
    solved: Seq<int>,
    path: Seq<int>,
    cell: int,
    r: Option<int>,
)
    requires
        g.ok(),
        alternates(g, c, solved, path),
        path.len() % 2 == 0,
        path.len() <= 14,
        g.label_digit(path[0]) == g.label_digit(path.last()),
        g.label_cell(path[0]) != g.label_cell(path.last()),
        g.peer(g.label_cell(path[0]), cell),
        g.peer(g.label_cell(path.last()), cell),
        solved[cell] == 0,
        masks::holds(c[cell], g.label_digit(path[0]) + 1),
        is_chain_length(g, c, solved, r),
    ensures
        r is Some,
{
    let k = path.len() - 1;
    let start = path[0];
    law_path_is_a_chain(g, c, solved, path);
    assert(ends_kill(g, c, solved, start, path.last(), cell));
    assert(ends_fire(g, c, solved, start, path.last()));
    assert(fires_at(g, c, solved, start, k));
    assert(strong(g, c, solved, path[0], path[1]));
    let v = choose|v: int| v < g.vars() && #[trigger] strong_in(g, c, solved, v, path[0], path[1]);
    assert(paired(g, c, solved, v, start));
    assert(is_start(g, c, solved, start));
}

/// The length that the search finds is odd and at most 13, and a chain of that many links rules
/// something out, while no shorter one from the same label does.
pub proof fn law_length_is_of_a_chain(g: Dims, c: Seq<u32>, solved: Seq<int>, k: int) -> (path:
    Seq<int>)
    requires
        is_chain_length(g, c, solved, Some(k)),
    ensures
        k % 2 == 1,
        1 <= k <= 13,
        path.len() == k + 1,
        alternates(g, c, solved, path),
        ends_fire(g, c, solved, path[0], path.last()),
        forall|other: Seq<int>| #[trigger]
            alternates(g, c, solved, other) && other[0] == path[0] && other.len() < path.len()
                && other.len() % 2 == 0 ==> !ends_fire(g, c, solved, other[0], other.last()),
{
    let start = choose|start: int| #[trigger] is_first_chain(g, c, solved, start, k);
    let a = choose|a: int| #[trigger]
        chain(g, c, solved, start, a, k) && ends_fire(g, c, solved, start, a);
    let path = law_chain_is_a_path(g, c, solved, start, a, k);
    assert forall|other: Seq<int>| #[trigger]
        alternates(g, c, solved, other) && other[0] == path[0] && other.len() < path.len()
            && other.len() % 2 == 0 implies !ends_fire(g, c, solved, other[0], other.last()) by {
        law_path_is_a_chain(g, c, solved, other);
        assert(!fires_at(g, c, solved, start, other.len() - 1));
    }
    path
}

/// Chains are begun at cells with two candidates first, in the order of the cells: if one from
/// such a cell rules something out, the chain that is found begins at that cell or at one with
/// two candidates before it.
pub proof fn law_two_candidates_come_first(
    g: Dims,
    c: Seq<u32>,
    solved: Seq<int>,
    p: int,
    d: int,
    e: int,
    a: int,
    j: int,
    k: int,
) -> (start: int)
    requires
        g.ok(),
        d != e,
        can(g, c, solved, p, d),
        can(g, c, solved, p, e),
        forall|x: int| #[trigger] can(g, c, solved, p, x) ==> x == d || x == e,
        1 <= j <= 13,
        j % 2 == 1,
        chain(g, c, solved, label(g, p, d), a, j),
        ends_fire(g, c, solved, label(g, p, d), a),
        is_chain_length(g, c, solved, Some(k)),
    ensures
        is_first_chain(g, c, solved, start, k),
        0 <= g.label_cell(start) <= p,
{
    let s = label(g, p, d);
    let b = label(g, p, e);
    lemma_label(g, p, d);
    lemma_label(g, p, e);
    assert forall|x: int| #[trigger] aic_graph::is_member(g, c, solved, p, x) implies x == s || x
        == b by {
        csp_tables::lemma_label_parts(g, x);
        assert(can(g, c, solved, p, g.label_digit(x) + 1));
    }
    assert(strong_in(g, c, solved, p, s, b));
    assert(paired(g, c, solved, p, s));
    assert(is_start(g, c, solved, s));
    assert(fires_at(g, c, solved, s, j));
    let start = choose|start: int| #[trigger] is_first_chain(g, c, solved, start, k);
    let v = choose|v: int| v < g.vars() && #[trigger] paired(g, c, solved, v, start);
    let w = aic_graph::lemma_first_var(g, c, solved, start, v);
    let x = aic_graph::lemma_first_var(g, c, solved, s, p);
    if w > p {
        assert(aic_graph::start_before(g, c, solved, s, start));
        assert(!fires_at(g, c, solved, s, j));
    }
    let m = choose|m: int| #[trigger] strong_in(g, c, solved, w, start, m);
    assert(aic_graph::is_member(g, c, solved, w, start));
    start
}

} // verus!
