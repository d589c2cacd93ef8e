//! Strong and weak links between candidates.
//!
//! A candidate is a label: a cell with a digit. The labels that are still possible of a
//! variable, a cell or a digit in a unit, exclude one another; if there are just two of
//! them, one of the two holds.

use super::csp_tables;
use super::geometry;
use super::geometry::Dims;
use super::grid::Grid;
use super::masks;
use super::peer_tables;
use super::solutions;
use super::stamped::StampedLists;
use super::unit_places;
use vstd::prelude::*;

verus! {

broadcast use masks::group_masks;

impl Dims {
    /// The unit of a variable that is no cell.
    pub open spec fn var_unit(self, v: int) -> int {
        (v - self.cells()) / self.n
    }

    /// The digit of a variable that is no cell, less one.
    pub open spec fn var_digit(self, v: int) -> int {
        (v - self.cells()) % self.n
    }
}

/// The label is a candidate of an open cell.
pub open spec fn is_open(g: Dims, c: Seq<u32>, solved: Seq<int>, a: int) -> bool {
    &&& g.is_label(a)
    &&& solved[g.label_cell(a)] == 0
    &&& masks::holds(c[g.label_cell(a)], g.label_digit(a) + 1)
}

/// The label is one of those that are still possible of a variable.
pub open spec fn is_member(g: Dims, c: Seq<u32>, solved: Seq<int>, v: int, a: int) -> bool {
    &&& g.is_var(v)
    &&& is_open(g, c, solved, a)
    &&& if v < g.cells() {
        g.label_cell(a) == v
    } else {
        &&& g.label_digit(a) == g.var_digit(v)
        &&& g.in_unit(g.var_unit(v), g.label_cell(a))
        &&& !unit_places::unit_placed(g, solved, g.var_unit(v), g.var_digit(v) + 1)
    }
}

/// The two labels are all that is still possible of a variable.
pub open spec fn strong_in(g: Dims, c: Seq<u32>, solved: Seq<int>, v: int, a: int, b: int) -> bool {
    &&& a != b
    &&& is_member(g, c, solved, v, a)
    &&& is_member(g, c, solved, v, b)
    &&& forall|x: int| #[trigger] is_member(g, c, solved, v, x) ==> x == a || x == b
}

/// The two labels are possible of the same variable. Of a cell only two labels that are all
/// that it has are taken.
pub open spec fn weak_in(g: Dims, c: Seq<u32>, solved: Seq<int>, v: int, a: int, b: int) -> bool {
    &&& a != b
    &&& is_member(g, c, solved, v, a)
    &&& is_member(g, c, solved, v, b)
    &&& v >= g.cells() || strong_in(g, c, solved, v, a, b)
}

/// A strong link of one of the first `k` variables.
pub open spec fn strong_upto(g: Dims, c: Seq<u32>, solved: Seq<int>, k: int, a: int, b: int) -> bool {
    exists|v: int| v < k && #[trigger] strong_in(g, c, solved, v, a, b)
}

/// A weak link of one of the first `k` variables.
pub open spec fn weak_upto(g: Dims, c: Seq<u32>, solved: Seq<int>, k: int, a: int, b: int) -> bool {
    exists|v: int| v < k && #[trigger] weak_in(g, c, solved, v, a, b)
}

/// One of the two labels holds.
pub open spec fn strong(g: Dims, c: Seq<u32>, solved: Seq<int>, a: int, b: int) -> bool {
    strong_upto(g, c, solved, g.vars(), a, b)
}

/// The two labels do not both hold.
pub open spec fn weak(g: Dims, c: Seq<u32>, solved: Seq<int>, a: int, b: int) -> bool {
    weak_upto(g, c, solved, g.vars(), a, b)
}

/// The label has a strong link of variable `v`.
pub open spec fn paired(g: Dims, c: Seq<u32>, solved: Seq<int>, v: int, a: int) -> bool {
    exists|b: int| #[trigger] strong_in(g, c, solved, v, a, b)
}

/// The label has a strong link of one of the first `k` variables.
pub open spec fn paired_upto(g: Dims, c: Seq<u32>, solved: Seq<int>, k: int, a: int) -> bool {
    exists|v: int| v < k && #[trigger] paired(g, c, solved, v, a)
}

/// `v` is the first variable of which the label has a strong link.
pub open spec fn is_first_var(g: Dims, c: Seq<u32>, solved: Seq<int>, a: int, v: int) -> bool {
    &&& paired(g, c, solved, v, a)
    &&& forall|w: int| w < v ==> !#[trigger] paired(g, c, solved, w, a)
}

/// The order in which chains are begun: by the first variable of which the label has a
/// strong link, then by the label.
pub open spec fn start_before(g: Dims, c: Seq<u32>, solved: Seq<int>, a: int, b: int) -> bool {
    exists|p: int, q: int|
        #[trigger] is_first_var(g, c, solved, a, p) && #[trigger] is_first_var(g, c, solved, b, q)
            && (p < q || (p == q && a < b))
}

/// The number occurs in the list.
pub open spec fn lists(l: Seq<u32>, b: int) -> bool {
    exists|k: int| 0 <= k < l.len() && #[trigger] l[k] == b
}

/// The label holds in a filled grid.
pub open spec fn holds_in(g: Dims, s: Seq<int>, a: int) -> bool {
    s[g.label_cell(a)] == g.label_digit(a) + 1
}

/// A strong link is right: in every solution one of its labels holds.
pub proof fn law_strong_link(
    g: Dims,
    c: Seq<u32>,
    solved: Seq<u8>,
    v: int,
    a: int,
    b: int,
    s: Seq<int>,
)
    requires
        solutions::well_formed(g, c, solved),
        strong_in(g, c, solutions::digits_of(solved), v, a, b),
        solutions::solutions(g, c).contains(s),
    ensures
        holds_in(g, s, a) || holds_in(g, s, b),
{
    let t = solutions::digits_of(solved);
    csp_tables::lemma_label_parts(g, a);
    csp_tables::lemma_label_parts(g, b);
    csp_tables::lemma_label_bounds(g);
    if v < g.cells() {
        assert(masks::holds(c[v], s[v]));
        let x = g.label_at(v, s[v] - 1);
        csp_tables::lemma_label_at(g, v, s[v] - 1);
        assert(is_member(g, c, t, v, x));
    } else {
        let u = g.var_unit(v);
        let d = g.var_digit(v);
        lemma_unit_of_var(g, v);
        let k = solutions::lemma_unit_onto(g, s, u, d + 1);
        geometry::lemma_unit_cell(g, u, k);
        let cell = g.unit_cell(u, k);
        assert(masks::holds(c[cell], s[cell]));
        if t[cell] != 0 {
            assert(solved[cell] != 0);
            assert(unit_places::placed_at(g, t, u, d + 1, k + 1));
        }
        let x = g.label_at(cell, d);
        csp_tables::lemma_label_at(g, cell, d);
        assert(is_member(g, c, t, v, x));
    }
}

pub proof fn lemma_unit_of_var(g: Dims, v: int)
    requires
        g.ok(),
        g.is_var(v),
        g.cells() <= v,
    ensures
        g.is_unit(g.var_unit(v)),
        0 <= g.var_digit(v) < g.n,
        v == g.unit_var(g.var_unit(v), g.var_digit(v)),
{
    let w = v - g.cells();
    vstd::arithmetic::div_mod::lemma_fundamental_div_mod(w, g.n);
    vstd::arithmetic::div_mod::lemma_mod_bound(w, g.n);
    assert(g.n * (w / g.n) == (w / g.n) * g.n) by (nonlinear_arith);
    assert(0 <= w / g.n < 3 * g.n) by (nonlinear_arith)
        requires
            0 <= w < 3 * (g.n * g.n),
            0 < g.n,
            w == (w / g.n) * g.n + w % g.n,
            0 <= w % g.n < g.n,
    ;
}

/// A weak link is right: in no solution do both its labels hold.
pub proof fn law_weak_link(
    g: Dims,
    c: Seq<u32>,
    solved: Seq<u8>,
    v: int,
    a: int,
    b: int,
    s: Seq<int>,
)
    requires
        solutions::well_formed(g, c, solved),
        weak_in(g, c, solutions::digits_of(solved), v, a, b),
        solutions::solutions(g, c).contains(s),
    ensures
        !(holds_in(g, s, a) && holds_in(g, s, b)),
{
    csp_tables::lemma_label_parts(g, a);
    csp_tables::lemma_label_parts(g, b);
    if v >= g.cells() {
        lemma_unit_of_var(g, v);
        let p = g.label_cell(a);
        let q = g.label_cell(b);
        geometry::lemma_peer_unit(g, p, q);
        assert(g.in_unit(g.var_unit(v), p) && g.in_unit(g.var_unit(v), q));
        assert(g.peer(p, q));
    }
}

/// A label with a strong link has a first variable of which it has one.
pub proof fn lemma_first_var(g: Dims, c: Seq<u32>, solved: Seq<int>, a: int, v: int) -> (p: int)
    requires
        paired(g, c, solved, v, a),
    ensures
        is_first_var(g, c, solved, a, p),
        0 <= p <= v,
    decreases v,
{
    assert(v >= 0) by {
        let b = choose|b: int| #[trigger] strong_in(g, c, solved, v, a, b);
    }
    if exists|w: int| w < v && #[trigger] paired(g, c, solved, w, a) {
        let w = choose|w: int| w < v && #[trigger] paired(g, c, solved, w, a);
        assert(w >= 0) by {
            let b = choose|b: int| #[trigger] strong_in(g, c, solved, w, a, b);
        }
        lemma_first_var(g, c, solved, a, w)
    } else {
        v
    }
}

/// The order of the beginnings is total.
pub proof fn lemma_starts_ordered(g: Dims, c: Seq<u32>, solved: Seq<int>, a: int, b: int)
    requires
        paired_upto(g, c, solved, g.vars(), a),
        paired_upto(g, c, solved, g.vars(), b),
    ensures
        a == b || start_before(g, c, solved, a, b) || start_before(g, c, solved, b, a),
{
    let v = choose|v: int| v < g.vars() && #[trigger] paired(g, c, solved, v, a);
    let w = choose|w: int| w < g.vars() && #[trigger] paired(g, c, solved, w, b);
    let p = lemma_first_var(g, c, solved, a, v);
    let q = lemma_first_var(g, c, solved, b, w);
    assert(is_first_var(g, c, solved, a, p) && is_first_var(g, c, solved, b, q));
}

/// The members of a variable in ascending order.
spec fn lists_members(g: Dims, c: Seq<u32>, t: Seq<int>, v: int, m: Seq<u32>) -> bool {
    &&& forall|i: int, j: int| 0 <= i < j < m.len() ==> m[i] < m[j]
    &&& forall|a: int| #[trigger] lists(m, a) == is_member(g, c, t, v, a)
}

proof fn lemma_lists_push(l: Seq<u32>, x: u32)
    ensures
        forall|a: int| #[trigger] lists(l.push(x), a) == (lists(l, a) || a == x),
{
    assert forall|a: int| #[trigger] lists(l.push(x), a) == (lists(l, a) || a == x) by {
        let m = l.push(x);
        if lists(l, a) {
            let k = choose|k: int| 0 <= k < l.len() && #[trigger] l[k] == a;
            assert(m[k] == a);
        }
        if a == x {
            assert(m[l.len() as int] == a);
        }
        if lists(m, a) {
            let k = choose|k: int| 0 <= k < m.len() && #[trigger] m[k] == a;
            if k < l.len() {
                assert(l[k] == a);
            }
        }
    }
}

/// The labels that are still possible of a cell.
fn cell_members<const N: usize, const BR: usize, const BC: usize>(
    grid: &Grid<N, BR, BC>,
    cell: usize,
) -> (m: Vec<u32>)
    requires
        grid.wf(),
        cell < N * N,
    ensures
        lists_members(
            Grid::<N, BR, BC>::shape(),
            grid.candidates@,
            solutions::digits_of(grid.solved@),
            cell as int,
            m@,
        ),
{
    let ghost g = Grid::<N, BR, BC>::shape();
    let ghost c = grid.candidates@;
    let ghost t = solutions::digits_of(grid.solved@);
    let ghost v = cell as int;
    proof {
        csp_tables::lemma_label_bounds(g);
        assert(t[v] == grid.solved@[v]);
    }
    let mut m: Vec<u32> = Vec::new();
    if grid.solved[cell] != 0 {
        assert forall|a: int| #[trigger] lists(m@, a) == is_member(g, c, t, v, a) by {}
        return m;
    }
    let mask: u32 = grid.candidates[cell];
    let mut d: usize = 0;
    while d < N
        invariant
            grid.wf(),
            g == Grid::<N, BR, BC>::shape(),
            g.labels() <= 29791,
            c == grid.candidates@,
            t == solutions::digits_of(grid.solved@),
            v == cell,
            g.is_var(v),
            cell < N * N,
            t[v] == 0,
            mask == c[v],
            d <= N,
            forall|i: int, j: int| 0 <= i < j < m@.len() ==> m@[i] < m@[j],
            forall|i: int| 0 <= i < m@.len() ==> (#[trigger] m@[i]) < g.label_at(v, d as int),
            forall|a: int| #[trigger]
                lists(m@, a) == (is_member(g, c, t, v, a) && g.label_digit(a) < d),
        decreases N - d,
    {
        let ghost before = m@;
        let ghost x = g.label_at(v, d as int);
        proof {
            csp_tables::lemma_label_at(g, v, d as int);
            assert(0 <= cell * N) by (nonlinear_arith)
                requires
                    0 <= cell,
                    0 <= N,
            ;
        }
        if mask & masks::digit_bit((d + 1) as u8) != 0 {
            assert(masks::holds(c[v], d + 1));
            assert(is_member(g, c, t, v, x));
            m.push((cell * N + d) as u32);
            proof {
                lemma_lists_push(before, x as u32);
            }
        } else {
            assert(!masks::holds(c[v], d + 1));
        }
        proof {
            assert forall|a: int| #[trigger] lists(m@, a) == (is_member(g, c, t, v, a)
                && g.label_digit(a) < d + 1) by {
                assert(lists(before, a) == (is_member(g, c, t, v, a) && g.label_digit(a) < d));
                if is_member(g, c, t, v, a) && g.label_digit(a) == d {
                    csp_tables::lemma_label_parts(g, a);
                    assert(a == x);
                }
            }
        }
        d += 1;
    }
    proof {
        assert forall|a: int| #[trigger] lists(m@, a) == is_member(g, c, t, v, a) by {
            if is_member(g, c, t, v, a) {
                csp_tables::lemma_label_parts(g, a);
            }
        }
    }
    m
}

/// The labels that are still possible of digit `d + 1` in a unit.
fn unit_members<const N: usize, const BR: usize, const BC: usize>(
    grid: &Grid<N, BR, BC>,
    u: usize,
    d: usize,
) -> (m: Vec<u32>)
    requires
        grid.wf(),
        u < 3 * N,
        d < N,
    ensures
        lists_members(
            Grid::<N, BR, BC>::shape(),
            grid.candidates@,
            solutions::digits_of(grid.solved@),
            Grid::<N, BR, BC>::shape().unit_var(u as int, d as int),
            m@,
        ),
{
    let ghost g = Grid::<N, BR, BC>::shape();
    let ghost c = grid.candidates@;
    let ghost t = solutions::digits_of(grid.solved@);
    let ghost ui = u as int;
    let ghost di = d as int;
    let ghost v = g.unit_var(ui, di);
    proof {
        csp_tables::lemma_label_bounds(g);
        csp_tables::lemma_unit_var(g, ui, di);
        assert(peer_tables::lists_unit(g, ui, grid.table.units@[ui]@));
    }
    let mut m: Vec<u32> = Vec::new();
    let (spot, placed) = unit_places::spot_mask(grid, u, (d + 1) as u8);
    if placed {
        assert forall|a: int| #[trigger] lists(m@, a) == is_member(g, c, t, v, a) by {}
        return m;
    }
    let mut k: usize = 0;
    while k < N
        invariant
            grid.wf(),
            g == Grid::<N, BR, BC>::shape(),
            g.labels() <= 29791,
            c == grid.candidates@,
            t == solutions::digits_of(grid.solved@),
            ui == u,
            di == d,
            d < N,
            g.is_unit(ui),
            u < grid.table.units@.len(),
            peer_tables::lists_unit(g, ui, grid.table.units@[ui]@),
            v == g.unit_var(ui, di),
            g.is_var(v),
            g.cells() <= v,
            g.var_unit(v) == ui,
            g.var_digit(v) == di,
            !unit_places::unit_placed(g, t, ui, di + 1),
            forall|p: int| #[trigger]
                masks::holds(spot, p) == unit_places::unit_has(g, c, t, ui, di + 1, p),
            k <= N,
            forall|i: int, j: int| 0 <= i < j < m@.len() ==> m@[i] < m@[j],
            forall|i: int|
                0 <= i < m@.len() ==> k < N ==> (#[trigger] m@[i]) < g.label_at(
                    g.unit_cell(ui, k as int),
                    di,
                ),
            forall|a: int| #[trigger]
                lists(m@, a) == (is_member(g, c, t, v, a) && g.unit_pos(ui, g.label_cell(a)) < k),
        decreases N - k,
    {
        let ghost before = m@;
        let ghost cell = g.unit_cell(ui, k as int);
        let ghost x = g.label_at(cell, di);
        proof {
            geometry::lemma_unit_cell(g, ui, k as int);
            assert(grid.table.units@[ui]@[k as int] == cell);
            csp_tables::lemma_label_at(g, cell, di);
            if k + 1 < N {
                geometry::lemma_unit_ascending(g, ui, k as int, k as int + 1);
                assert(cell * g.n < g.unit_cell(ui, k as int + 1) * g.n) by (nonlinear_arith)
                    requires
                        cell < g.unit_cell(ui, k as int + 1),
                        g.n > 0,
                ;
            }
            assert(0 <= cell * g.n) by (nonlinear_arith)
                requires
                    0 <= cell,
                    0 <= g.n,
            ;
        }
        let i: usize = grid.table.units[u][k] as usize;
        if spot & masks::digit_bit((k + 1) as u8) != 0 {
            assert(masks::holds(spot, k + 1));
            assert(is_member(g, c, t, v, x));
            m.push((i * N + d) as u32);
            proof {
                lemma_lists_push(before, x as u32);
            }
        } else {
            assert(!masks::holds(spot, k + 1));
        }
        proof {
            assert forall|a: int| #[trigger] lists(m@, a) == (is_member(g, c, t, v, a)
                && g.unit_pos(ui, g.label_cell(a)) < k + 1) by {
                assert(lists(before, a) == (is_member(g, c, t, v, a) && g.unit_pos(
                    ui,
                    g.label_cell(a),
                ) < k));
                if is_member(g, c, t, v, a) && g.unit_pos(ui, g.label_cell(a)) == k {
                    csp_tables::lemma_label_parts(g, a);
                    geometry::lemma_unit_pos(g, ui, g.label_cell(a));
                    assert(a == x);
                    assert(unit_places::unit_has(g, c, t, ui, di + 1, k + 1));
                }
            }
        }
        k += 1;
    }
    proof {
        assert forall|a: int| #[trigger] lists(m@, a) == is_member(g, c, t, v, a) by {
            if is_member(g, c, t, v, a) {
                csp_tables::lemma_label_parts(g, a);
                geometry::lemma_unit_pos(g, ui, g.label_cell(a));
            }
        }
    }
    m
}

/// The links of a grid.
pub struct AicGraph {
    pub strong: StampedLists,
    pub weak: StampedLists,
    /// The labels with a strong link, in the order in which chains are begun.
    pub starts: Vec<u32>,
}

impl AicGraph {
    /// There is room for the labels of the shape.
    pub open spec fn wf(&self, g: Dims) -> bool {
        &&& self.strong.wf()
        &&& self.weak.wf()
        &&& self.strong.size() == g.labels()
        &&& self.weak.size() == g.labels()
    }

    /// The lists hold the links of the first `k` variables.
    pub open spec fn shows_upto(&self, g: Dims, c: Seq<u32>, solved: Seq<int>, k: int) -> bool {
        &&& forall|a: int, b: int| #[trigger]
            lists(self.strong.at(a), b) == strong_upto(g, c, solved, k, a, b)
        &&& forall|a: int, b: int| #[trigger]
            lists(self.weak.at(a), b) == weak_upto(g, c, solved, k, a, b)
        &&& forall|a: int| #[trigger] lists(self.starts@, a) == paired_upto(g, c, solved, k, a)
        &&& forall|i: int, j: int|
            0 <= i < j < self.starts@.len() ==> start_before(
                g,
                c,
                solved,
                self.starts@[i] as int,
                self.starts@[j] as int,
            )
    }

    /// The lists hold the links of a grid.
    pub open spec fn shows(&self, g: Dims, c: Seq<u32>, solved: Seq<int>) -> bool {
        self.shows_upto(g, c, solved, g.vars())
    }

    /// Empty lists with room for `n` labels.
    pub fn new(n: usize) -> (r: Self)
        ensures
            r.strong.wf() && r.strong.size() == n,
            r.weak.wf() && r.weak.size() == n,
    {
        AicGraph { strong: StampedLists::new(n), weak: StampedLists::new(n), starts: Vec::new() }
    }

    /// Links all members of a variable weakly with one another.
    fn link_weakly(&mut self, m: &Vec<u32>)
        requires
            old(self).weak.wf(),
            forall|i: int| 0 <= i < m@.len() ==> (#[trigger] m@[i]) < old(self).weak.size(),
            forall|i: int, j: int| 0 <= i < j < m@.len() ==> m@[i] < m@[j],
        ensures
            final(self).strong == old(self).strong,
            final(self).starts == old(self).starts,
            final(self).weak.wf(),
            final(self).weak.size() == old(self).weak.size(),
            forall|a: int, b: int| #[trigger]
                lists(final(self).weak.at(a), b) == (lists(old(self).weak.at(a), b) || (a != b
                    && lists(m@, a) && lists(m@, b))),
    {
        let ghost w0 = self.weak;
        let mut i: usize = 0;
        while i < m.len()
            invariant
                self.strong == old(self).strong,
                self.starts == old(self).starts,
                w0 == old(self).weak,
                self.weak.wf(),
                self.weak.size() == w0.size(),
                forall|i: int| 0 <= i < m@.len() ==> (#[trigger] m@[i]) < w0.size(),
                forall|i: int, j: int| 0 <= i < j < m@.len() ==> m@[i] < m@[j],
                i <= m@.len(),
                forall|a: int, b: int| #[trigger]
                    lists(self.weak.at(a), b) == (lists(w0.at(a), b) || linked_upto(
                        m@,
                        i as int,
                        0,
                        a,
                        b,
                    )),
            decreases m@.len() - i,
        {
            let mut j: usize = 0;
            while j < m.len()
                invariant
                    self.strong == old(self).strong,
                    self.starts == old(self).starts,
                    w0 == old(self).weak,
                    self.weak.wf(),
                    self.weak.size() == w0.size(),
                    forall|i: int| 0 <= i < m@.len() ==> (#[trigger] m@[i]) < w0.size(),
                    i < m@.len(),
                    j <= m@.len(),
                    forall|a: int, b: int| #[trigger]
                        lists(self.weak.at(a), b) == (lists(w0.at(a), b) || linked_upto(
                            m@,
                            i as int,
                            j as int,
                            a,
                            b,
                        )),
                decreases m@.len() - j,
            {
                let ghost w = self.weak;
                let ghost x = m@[i as int];
                let ghost y = m@[j as int];
                if i != j {
                    assert(m@[i as int] < w0.size());
                    let _fresh = self.weak.push(m[i] as usize, m[j]);
                    proof {
                        lemma_lists_push(w.at(x as int), y);
                    }
                }
                proof {
                    assert forall|a: int, b: int| #[trigger] lists(self.weak.at(a), b) == (lists(
                        w0.at(a),
                        b,
                    ) || linked_upto(m@, i as int, j + 1, a, b)) by {
                        assert(lists(w.at(a), b) == (lists(w0.at(a), b) || linked_upto(
                            m@,
                            i as int,
                            j as int,
                            a,
                            b,
                        )));
                        if linked_upto(m@, i as int, j as int, a, b) {
                            let (p, q) = choose|p: int, q: int|
                                #[trigger] link_at(m@, p, q, a, b) && (p < i || (p == i && q < j));
                            assert(link_at(m@, p, q, a, b));
                        }
                        if i != j && a == x && b == y {
                            assert(link_at(m@, i as int, j as int, a, b));
                        }
                        if linked_upto(m@, i as int, j + 1, a, b) {
                            let (p, q) = choose|p: int, q: int|
                                #[trigger] link_at(m@, p, q, a, b) && (p < i || (p == i && q < j
                                    + 1));
                            assert(link_at(m@, p, q, a, b));
                        }
                    }
                }
                j += 1;
            }
            proof {
                assert forall|a: int, b: int| linked_upto(
                    m@,
                    i as int,
                    m@.len() as int,
                    a,
                    b,
                ) == #[trigger] linked_upto(m@, i + 1, 0, a, b) by {
                    if linked_upto(m@, i as int, m@.len() as int, a, b) {
                        let (p, q) = choose|p: int, q: int|
                            #[trigger] link_at(m@, p, q, a, b) && (p < i || (p == i && q
                                < m@.len()));
                        assert(link_at(m@, p, q, a, b));
                    }
                    if linked_upto(m@, i + 1, 0, a, b) {
                        let (p, q) = choose|p: int, q: int|
                            #[trigger] link_at(m@, p, q, a, b) && (p < i + 1 || (p == i + 1 && q
                                < 0));
                        assert(link_at(m@, p, q, a, b));
                    }
                }
            }
            i += 1;
        }
        proof {
            assert forall|a: int, b: int| #[trigger] lists(self.weak.at(a), b) == (lists(
                w0.at(a),
                b,
            ) || (a != b && lists(m@, a) && lists(m@, b))) by {
                if linked_upto(m@, m@.len() as int, 0, a, b) {
                    let (p, q) = choose|p: int, q: int| #[trigger] link_at(m@, p, q, a, b);
                    assert(m@[p] == a && m@[q] == b);
                }
                if a != b && lists(m@, a) && lists(m@, b) {
                    let p = choose|p: int| 0 <= p < m@.len() && #[trigger] m@[p] == a;
                    let q = choose|q: int| 0 <= q < m@.len() && #[trigger] m@[q] == b;
                    assert(link_at(m@, p, q, a, b));
                }
            }
        }
    }

    /// Takes up the links of the next variable, whose members are `m`.
    fn take_up(
        &mut self,
        Ghost(g): Ghost<Dims>,
        Ghost(c): Ghost<Seq<u32>>,
        Ghost(t): Ghost<Seq<int>>,
        Ghost(v): Ghost<int>,
        m: &Vec<u32>,
        in_cell: bool,
    )
        requires
            g.ok(),
            old(self).wf(g),
            g.is_var(v),
            in_cell == (v < g.cells()),
            old(self).shows_upto(g, c, t, v),
            lists_members(g, c, t, v, m@),
        ensures
            final(self).wf(g),
            final(self).shows_upto(g, c, t, v + 1),
    {
        let ghost s0 = self.strong;
        let ghost w0 = self.weak;
        let ghost l0 = self.starts@;
        proof {
            csp_tables::lemma_label_bounds(g);
            assert forall|i: int| 0 <= i < m@.len() implies (#[trigger] m@[i]) < g.labels() by {
                assert(lists(m@, m@[i] as int));
                assert(is_member(g, c, t, v, m@[i] as int));
            }
            lemma_pair_of(g, c, t, v, m@);
        }
        if !in_cell || m.len() == 2 {
            self.link_weakly(m);
        }
        proof {
            assert forall|a: int, b: int| #[trigger] lists(self.weak.at(a), b) == weak_upto(
                g,
                c,
                t,
                v + 1,
                a,
                b,
            ) by {
                assert(lists(w0.at(a), b) == weak_upto(g, c, t, v, a, b));
                assert(weak_in(g, c, t, v, a, b) == ((!in_cell || m@.len() == 2) && a != b && lists(
                    m@,
                    a,
                ) && lists(m@, b))) by {
                    assert(lists(m@, a) == is_member(g, c, t, v, a));
                    assert(lists(m@, b) == is_member(g, c, t, v, b));
                }
                if weak_upto(g, c, t, v, a, b) {
                    let w = choose|w: int| w < v && #[trigger] weak_in(g, c, t, w, a, b);
                    assert(weak_in(g, c, t, w, a, b));
                }
            }
        }
        if m.len() == 2 {
            let x: u32 = m[0];
            let y: u32 = m[1];
            let ghost xi = x as int;
            let ghost yi = y as int;
            assert(strong_in(g, c, t, v, xi, yi) && strong_in(g, c, t, v, yi, xi));
            assert(m@[0] < g.labels() && m@[1] < g.labels() && m@[0] < m@[1]);
            let x_fresh: bool = self.strong.push(x as usize, y);
            let ghost s1 = self.strong;
            let y_fresh: bool = self.strong.push(y as usize, x);
            if x_fresh {
                self.starts.push(x);
            }
            let ghost l1 = self.starts@;
            if y_fresh {
                self.starts.push(y);
            }
            proof {
                lemma_lists_push(s0.at(xi), y);
                lemma_lists_push(s1.at(yi), x);
                assert forall|a: int, b: int| #[trigger] lists(self.strong.at(a), b)
                    == strong_upto(g, c, t, v + 1, a, b) by {
                    assert(lists(s0.at(a), b) == strong_upto(g, c, t, v, a, b));
                    if strong_upto(g, c, t, v, a, b) {
                        let w = choose|w: int| w < v && #[trigger] strong_in(g, c, t, w, a, b);
                        assert(strong_in(g, c, t, w, a, b));
                    }
                    assert(strong_in(g, c, t, v, a, b) == ((a == xi && b == yi) || (a == yi && b
                        == xi)));
                }
                lemma_fresh(s0, g, c, t, v, xi);
                lemma_fresh(s0, g, c, t, v, yi);
                lemma_lists_push(l0, x);
                lemma_lists_push(l1, y);
                assert(paired(g, c, t, v, xi) && paired(g, c, t, v, yi));
                assert forall|a: int| #[trigger] lists(self.starts@, a) == paired_upto(
                    g,
                    c,
                    t,
                    v + 1,
                    a,
                ) by {
                    assert(lists(l0, a) == paired_upto(g, c, t, v, a));
                    lemma_paired_next(g, c, t, v, a);
                    assert(paired(g, c, t, v, a) == (a == xi || a == yi)) by {
                        if paired(g, c, t, v, a) {
                            let b = choose|b: int| #[trigger] strong_in(g, c, t, v, a, b);
                            assert(is_member(g, c, t, v, a));
                        }
                    }
                }
                let l = self.starts@;
                assert forall|i: int, j: int| 0 <= i < j < l.len() implies start_before(
                    g,
                    c,
                    t,
                    l[i] as int,
                    l[j] as int,
                ) by {
                    if j < l0.len() {
                        assert(l[i] == l0[i] && l[j] == l0[j]);
                    } else {
                        let b = l[j] as int;
                        assert(b == xi || b == yi);
                        assert(is_first_var(g, c, t, b, v));
                        if i < l0.len() {
                            assert(l[i] == l0[i]);
                            assert(lists(l0, l0[i] as int));
                            let w = choose|w: int|
                                w < v && #[trigger] paired(g, c, t, w, l0[i] as int);
                            let p = lemma_first_var(g, c, t, l0[i] as int, w);
                            assert(is_first_var(g, c, t, l[i] as int, p) && is_first_var(
                                g,
                                c,
                                t,
                                b,
                                v,
                            ));
                        } else {
                            assert(l[i] == x && l[j] == y);
                            assert(is_first_var(g, c, t, xi, v) && is_first_var(g, c, t, yi, v));
                        }
                    }
                }
            }
        } else {
            proof {
                assert forall|a: int, b: int| !#[trigger] strong_in(g, c, t, v, a, b) by {}
                assert forall|a: int, b: int| #[trigger] lists(self.strong.at(a), b)
                    == strong_upto(g, c, t, v + 1, a, b) by {
                    assert(lists(s0.at(a), b) == strong_upto(g, c, t, v, a, b));
                    if strong_upto(g, c, t, v, a, b) {
                        let w = choose|w: int| w < v && #[trigger] strong_in(g, c, t, w, a, b);
                        assert(strong_in(g, c, t, w, a, b));
                    }
                }
                assert forall|a: int| #[trigger] lists(self.starts@, a) == paired_upto(
                    g,
                    c,
                    t,
                    v + 1,
                    a,
                ) by {
                    assert(lists(l0, a) == paired_upto(g, c, t, v, a));
                    lemma_paired_next(g, c, t, v, a);
                }
            }
        }
    }

    /// Finds the links of a grid. What the lists held before does not count.
    pub fn build<const N: usize, const BR: usize, const BC: usize>(
        &mut self,
        grid: &Grid<N, BR, BC>,
    )
        requires
            grid.wf(),
            old(self).wf(Grid::<N, BR, BC>::shape()),
        ensures
            final(self).wf(Grid::<N, BR, BC>::shape()),
            final(self).shows(
                Grid::<N, BR, BC>::shape(),
                grid.candidates@,
                solutions::digits_of(grid.solved@),
            ),
    {
        let ghost g = Grid::<N, BR, BC>::shape();
        let ghost c = grid.candidates@;
        let ghost t = solutions::digits_of(grid.solved@);
        proof {
            csp_tables::lemma_label_bounds(g);
        }
        self.strong.clear();
        self.weak.clear();
        self.starts.clear();
        proof {
            assert forall|v: int, a: int, b: int| v < 0 implies !#[trigger] strong_in(
                g,
                c,
                t,
                v,
                a,
                b,
            ) && !#[trigger] weak_in(g, c, t, v, a, b) by {}
            assert forall|a: int, b: int| #[trigger] lists(self.strong.at(a), b) == strong_upto(
                g,
                c,
                t,
                0,
                a,
                b,
            ) by {
                assert(self.strong.at(a).len() == 0);
            }
            assert forall|a: int, b: int| #[trigger] lists(self.weak.at(a), b) == weak_upto(
                g,
                c,
                t,
                0,
                a,
                b,
            ) by {
                assert(self.weak.at(a).len() == 0);
            }
            assert forall|a: int| #[trigger] lists(self.starts@, a) == paired_upto(g, c, t, 0, a) by {
                if paired_upto(g, c, t, 0, a) {
                    let v = choose|v: int| v < 0 && #[trigger] paired(g, c, t, v, a);
                    let b = choose|b: int| #[trigger] strong_in(g, c, t, v, a, b);
                }
            }
        }
        let nn: usize = N * N;
        let mut cell: usize = 0;
        while cell < nn
            invariant
                grid.wf(),
                g == Grid::<N, BR, BC>::shape(),
                c == grid.candidates@,
                t == solutions::digits_of(grid.solved@),
                nn == N * N,
                nn == g.cells(),
                cell <= nn,
                self.wf(g),
                self.shows_upto(g, c, t, cell as int),
            decreases nn - cell,
        {
            let m: Vec<u32> = cell_members(grid, cell);
            self.take_up(Ghost(g), Ghost(c), Ghost(t), Ghost(cell as int), &m, true);
            cell += 1;
        }
        let mut u: usize = 0;
        while u < 3 * N
            invariant
                grid.wf(),
                g == Grid::<N, BR, BC>::shape(),
                c == grid.candidates@,
                t == solutions::digits_of(grid.solved@),
                u <= 3 * N,
                self.wf(g),
                self.shows_upto(g, c, t, g.unit_var(u as int, 0)),
            decreases 3 * N - u,
        {
            let mut d: usize = 0;
            while d < N
                invariant
                    grid.wf(),
                    g == Grid::<N, BR, BC>::shape(),
                    c == grid.candidates@,
                    t == solutions::digits_of(grid.solved@),
                    u < 3 * N,
                    d <= N,
                    self.wf(g),
                    self.shows_upto(g, c, t, g.unit_var(u as int, d as int)),
                decreases N - d,
            {
                let m: Vec<u32> = unit_members(grid, u, d);
                let ghost v = g.unit_var(u as int, d as int);
                proof {
                    csp_tables::lemma_unit_var(g, u as int, d as int);
                }
                self.take_up(Ghost(g), Ghost(c), Ghost(t), Ghost(v), &m, false);
                d += 1;
            }
            assert(u * g.n + g.n == (u + 1) * g.n) by (nonlinear_arith);
            u += 1;
        }
        assert(g.unit_var(u as int, 0) == g.vars()) by (nonlinear_arith)
            requires
                u == 3 * g.n,
                g.vars() == 4 * (g.n * g.n),
                g.unit_var(u as int, 0) == g.n * g.n + u * g.n + 0,
        ;
    }
}

/// The members at the positions `p` and `q`.
spec fn link_at(m: Seq<u32>, p: int, q: int, a: int, b: int) -> bool {
    &&& 0 <= p < m.len()
    &&& 0 <= q < m.len()
    &&& p != q
    &&& m[p] == a
    &&& m[q] == b
}

/// The members before row `i`, or in row `i` before `j`.
spec fn linked_upto(m: Seq<u32>, i: int, j: int, a: int, b: int) -> bool {
    exists|p: int, q: int| #[trigger] link_at(m, p, q, a, b) && (p < i || (p == i && q < j))
}

/// A variable has a strong link exactly if it has two members.
proof fn lemma_pair_of(g: Dims, c: Seq<u32>, t: Seq<int>, v: int, m: Seq<u32>)
    requires
        lists_members(g, c, t, v, m),
    ensures
        forall|a: int, b: int| #[trigger]
            strong_in(g, c, t, v, a, b) == (m.len() == 2 && ((a == m[0] && b == m[1]) || (a == m[1]
                && b == m[0]))),
{
    assert forall|i: int| 0 <= i < m.len() implies is_member(g, c, t, v, #[trigger] m[i] as int) by {
        assert(lists(m, m[i] as int));
    }
    assert forall|a: int, b: int| #[trigger] strong_in(g, c, t, v, a, b) == (m.len() == 2 && ((a
        == m[0] && b == m[1]) || (a == m[1] && b == m[0]))) by {
        if strong_in(g, c, t, v, a, b) {
            assert(lists(m, a) && lists(m, b));
            let p = choose|p: int| 0 <= p < m.len() && #[trigger] m[p] == a;
            let q = choose|q: int| 0 <= q < m.len() && #[trigger] m[q] == b;
            assert(m[p] == a && m[q] == b);
            if m.len() > 2 {
                assert(m[0] < m[1] && m[1] < m[2] && m[0] < m[2]);
                assert(is_member(g, c, t, v, m[0] as int));
                assert(is_member(g, c, t, v, m[1] as int));
                assert(is_member(g, c, t, v, m[2] as int));
            }
        }
        if m.len() == 2 && ((a == m[0] && b == m[1]) || (a == m[1] && b == m[0])) {
            assert(m[0] < m[1]);
            assert(is_member(g, c, t, v, m[0] as int) && is_member(g, c, t, v, m[1] as int));
            assert forall|x: int| #[trigger] is_member(g, c, t, v, x) implies x == a || x == b by {
                assert(lists(m, x));
                let k = choose|k: int| 0 <= k < m.len() && #[trigger] m[k] == x;
            }
        }
    }
}

/// A label without an entry has no link of an earlier variable.
proof fn lemma_fresh(s: StampedLists, g: Dims, c: Seq<u32>, t: Seq<int>, v: int, a: int)
    requires
        forall|a: int, b: int| #[trigger] lists(s.at(a), b) == strong_upto(g, c, t, v, a, b),
        paired(g, c, t, v, a),
    ensures
        s.at(a).len() == 0 ==> is_first_var(g, c, t, a, v),
        s.at(a).len() > 0 ==> paired_upto(g, c, t, v, a),
{
    if s.at(a).len() == 0 {
        assert forall|w: int| w < v implies !#[trigger] paired(g, c, t, w, a) by {
            if paired(g, c, t, w, a) {
                let b = choose|b: int| #[trigger] strong_in(g, c, t, w, a, b);
                assert(strong_upto(g, c, t, v, a, b));
                assert(lists(s.at(a), b));
            }
        }
    } else {
        let b = s.at(a)[0] as int;
        assert(lists(s.at(a), b));
        let w = choose|w: int| w < v && #[trigger] strong_in(g, c, t, w, a, b);
        assert(paired(g, c, t, w, a));
    }
}

proof fn lemma_paired_next(g: Dims, c: Seq<u32>, t: Seq<int>, v: int, a: int)
    ensures
        paired_upto(g, c, t, v + 1, a) == (paired_upto(g, c, t, v, a) || paired(g, c, t, v, a)),
{
    if paired_upto(g, c, t, v, a) {
        let w = choose|w: int| w < v && #[trigger] paired(g, c, t, w, a);
        assert(paired(g, c, t, w, a));
    }
}

} // verus!
