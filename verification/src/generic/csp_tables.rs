//! Constraint variables, their labels, and which labels exclude each other.
//!
//! A label is a candidate: `label = cell * N + digit - 1`. There are four families
//! of variables with `N * N` members each, in this order: one for each cell, and one
//! for each digit in each row, in each column and in each box. Each variable takes
//! exactly one of its `N` labels.

use super::bitboard::BitSet;
use super::chain_model::{CspVarId, CspVarKind, Label};
use super::geometry;
use super::geometry::Dims;
use super::peer_tables;
use super::peer_tables::PeerTable;
use std::sync::Arc;
use vstd::prelude::*;

verus! {

/// Words of a set of labels of the 9x9 grid.
pub const W9: usize = 12;

/// Words of a set of labels of the 16x16 grid.
pub const W16: usize = 64;

/// Number of labels of the 9x9 grid.
pub const N_LABELS_9X9: usize = 729;

/// Number of variables of the 9x9 grid.
pub const N_CSP_VARS_9X9: usize = 324;

/// Variables and their labels.
#[derive(Clone, Debug)]
pub struct CspVarTable {
    /// The labels of each variable, in ascending order.
    pub labels_of: Vec<Vec<Label>>,
    /// The variables of each label: cell, row, column, box.
    pub vars_of: Vec<[CspVarId; 4]>,
    /// The family of each variable.
    pub kind_of: Vec<CspVarKind>,
    pub n: usize,
}

/// For each label the labels that it excludes.
#[derive(Clone, Debug)]
pub struct LinkGraph<const W: usize> {
    pub linked: Vec<BitSet<W>>,
}

/// For each label and each of its four variables the other labels of that variable.
#[derive(Clone, Debug)]
pub struct CspLinkGraph {
    pub alternatives: Vec<[Vec<Label>; 4]>,
    pub n: usize,
}

impl Dims {
    pub open spec fn labels(self) -> int {
        self.cells() * self.n
    }

    pub open spec fn is_label(self, l: int) -> bool {
        0 <= l < self.labels()
    }

    pub open spec fn vars(self) -> int {
        4 * self.cells()
    }

    pub open spec fn is_var(self, v: int) -> bool {
        0 <= v < self.vars()
    }

    /// The cell of a label.
    pub open spec fn label_cell(self, l: int) -> int {
        l / self.n
    }

    /// The digit of a label, less one.
    pub open spec fn label_digit(self, l: int) -> int {
        l % self.n
    }

    /// The label of a cell and a digit less one.
    pub open spec fn label_at(self, cell: int, d: int) -> int {
        cell * self.n + d
    }

    /// The variable of digit `d + 1` in unit `u`.
    pub open spec fn unit_var(self, u: int, d: int) -> int {
        self.cells() + u * self.n + d
    }

    /// The variables of a label: cell, row, column, box.
    pub open spec fn label_var(self, l: int, slot: int) -> int {
        let cell = self.label_cell(l);
        let d = self.label_digit(l);
        if slot == 0 {
            cell
        } else if slot == 1 {
            self.unit_var(self.row(cell), d)
        } else if slot == 2 {
            self.unit_var(self.n + self.col(cell), d)
        } else {
            self.unit_var(2 * self.n + self.box_of(cell), d)
        }
    }

    /// The `k`-th label of a variable.
    pub open spec fn var_label(self, v: int, k: int) -> int {
        if v < self.cells() {
            self.label_at(v, k)
        } else {
            let w = v - self.cells();
            self.label_at(self.unit_cell(w / self.n, k), w % self.n)
        }
    }

    /// The position of a label among those of a variable.
    pub open spec fn var_pos(self, v: int, l: int) -> int {
        if v < self.cells() {
            self.label_digit(l)
        } else {
            self.unit_pos((v - self.cells()) / self.n, self.label_cell(l))
        }
    }

    /// The family of a variable.
    pub open spec fn var_kind(self, v: int) -> CspVarKind {
        if v < self.cells() {
            CspVarKind::Rc
        } else if v < 2 * self.cells() {
            CspVarKind::Rn
        } else if v < 3 * self.cells() {
            CspVarKind::Cn
        } else {
            CspVarKind::Bn
        }
    }

    /// Two labels that cannot both hold: the same cell with two digits, or the same
    /// digit in two peers.
    pub open spec fn linked(self, a: int, b: int) -> bool {
        if self.label_cell(a) == self.label_cell(b) {
            self.label_digit(a) != self.label_digit(b)
        } else {
            self.label_digit(a) == self.label_digit(b) && self.peer(
                self.label_cell(a),
                self.label_cell(b),
            )
        }
    }
}

impl CspVarTable {
    pub open spec fn wf(&self, g: Dims) -> bool {
        &&& g.ok()
        &&& self.n == g.n
        &&& self.labels_of@.len() == g.vars()
        &&& forall|v: int|
            0 <= v < self.labels_of@.len() ==> (#[trigger] self.labels_of@[v])@.len() == g.n
        &&& forall|v: int, k: int|
            0 <= v < self.labels_of@.len() && 0 <= k < g.n ==> (#[trigger] self.labels_of@[v]@[k])
                == g.var_label(v, k)
        &&& self.vars_of@.len() == g.labels()
        &&& forall|l: int, slot: int|
            0 <= l < self.vars_of@.len() && 0 <= slot < 4 ==> (#[trigger] self.vars_of@[l]@[slot])
                == g.label_var(l, slot)
        &&& self.kind_of@.len() == g.vars()
        &&& forall|v: int|
            0 <= v < self.kind_of@.len() ==> #[trigger] self.kind_of@[v] == g.var_kind(v)
    }
}

impl<const W: usize> LinkGraph<W> {
    pub open spec fn wf(&self, g: Dims) -> bool {
        &&& g.ok()
        &&& self.linked@.len() == g.labels()
        &&& forall|a: int, b: int|
            0 <= a < self.linked@.len() ==> #[trigger] self.linked@[a].contains(b) == (g.is_label(b)
                && g.linked(a, b))
    }

    /// Whether labels `a` and `b` exclude each other.
    pub fn is_linked(&self, a: Label, b: Label) -> (r: bool)
        requires
            a < self.linked@.len(),
            b < 64 * W,
        ensures
            r == self.linked@[a as int].contains(b as int),
    {
        self.linked[a as usize].test(b as usize)
    }

    /// Whether label `a` excludes some label of `bs`.
    pub fn is_linked_or_bitset(&self, a: Label, bs: &BitSet<W>) -> (r: bool)
        requires
            a < self.linked@.len(),
        ensures
            r == exists|i: int|
                #[trigger] self.linked@[a as int].contains(i) && bs.contains(i),
    {
        self.linked[a as usize].meets(bs)
    }
}

impl CspLinkGraph {
    pub open spec fn wf(&self, g: Dims) -> bool {
        &&& g.ok()
        &&& self.n == g.n
        &&& self.alternatives@.len() == g.labels()
        &&& forall|l: int, slot: int|
            0 <= l < self.alternatives@.len() && 0 <= slot < 4 ==> others(
                g,
                g.label_var(l, slot),
                l,
                (#[trigger] self.alternatives@[l]@[slot])@,
            )
    }
}

/// `s` lists the labels of variable `v` without `l`, in ascending order.
pub open spec fn others(g: Dims, v: int, l: int, s: Seq<Label>) -> bool {
    &&& s.len() == g.n - 1
    &&& forall|k: int|
        0 <= k < s.len() ==> (#[trigger] s[k]) == g.var_label(
            v,
            if k < g.var_pos(v, l) {
                k
            } else {
                k + 1
            },
        )
}

/// Sizes of the tables fit in a word.
pub proof fn lemma_label_bounds(g: Dims)
    requires
        g.ok(),
    ensures
        1 <= g.n <= g.cells() <= 961,
        g.cells() <= g.labels() <= 29791,
        g.vars() <= 3844,
        g.n * g.n * g.n == g.labels(),
{
    peer_tables::lemma_cells_bound(g);
    assert(g.cells() <= g.cells() * g.n <= 961 * 31) by (nonlinear_arith)
        requires
            1 <= g.n <= 31,
            0 <= g.cells() <= 961,
    ;
}

/// Cell and digit of a label are in range and make up the label.
pub proof fn lemma_label_parts(g: Dims, l: int)
    requires
        g.ok(),
        g.is_label(l),
    ensures
        g.is_cell(g.label_cell(l)),
        0 <= g.label_digit(l) < g.n,
        l == g.label_at(g.label_cell(l), g.label_digit(l)),
{
    vstd::arithmetic::div_mod::lemma_fundamental_div_mod(l, g.n);
    vstd::arithmetic::div_mod::lemma_mod_bound(l, g.n);
    assert(g.n * (l / g.n) == (l / g.n) * g.n) by (nonlinear_arith);
    assert(0 <= l / g.n < g.cells()) by (nonlinear_arith)
        requires
            0 <= l < g.cells() * g.n,
            0 < g.n,
            l == (l / g.n) * g.n + l % g.n,
            0 <= l % g.n < g.n,
    ;
}

pub proof fn lemma_label_at(g: Dims, cell: int, d: int)
    requires
        g.ok(),
        g.is_cell(cell),
        0 <= d < g.n,
    ensures
        g.is_label(g.label_at(cell, d)),
        g.label_cell(g.label_at(cell, d)) == cell,
        g.label_digit(g.label_at(cell, d)) == d,
{
    geometry::lemma_compose_bound(cell, d, g.cells(), g.n);
    geometry::lemma_div_mod_of(cell, d, g.n);
}

pub proof fn lemma_unit_var(g: Dims, u: int, d: int)
    requires
        g.ok(),
        g.is_unit(u),
        0 <= d < g.n,
    ensures
        g.cells() <= g.unit_var(u, d) < g.vars(),
        (g.unit_var(u, d) - g.cells()) / g.n == u,
        (g.unit_var(u, d) - g.cells()) % g.n == d,
        u < g.n <==> g.unit_var(u, d) < 2 * g.cells(),
        u < 2 * g.n <==> g.unit_var(u, d) < 3 * g.cells(),
{
    geometry::lemma_compose_bound(u, d, 3 * g.n, g.n);
    geometry::lemma_div_mod_of(u, d, g.n);
    assert(3 * g.n * g.n == 3 * g.cells()) by (nonlinear_arith)
        requires
            g.cells() == g.n * g.n,
    ;
    assert(u < g.n ==> u * g.n + d < g.n * g.n) by (nonlinear_arith)
        requires
            0 <= u,
            0 <= d < g.n,
    ;
    assert(u >= g.n ==> u * g.n + d >= g.n * g.n) by (nonlinear_arith)
        requires
            0 <= u,
            0 <= d < g.n,
    ;
    assert(u < 2 * g.n ==> u * g.n + d < 2 * (g.n * g.n)) by (nonlinear_arith)
        requires
            0 <= u,
            0 <= d < g.n,
    ;
    assert(u >= 2 * g.n ==> u * g.n + d >= 2 * (g.n * g.n)) by (nonlinear_arith)
        requires
            0 <= u,
            0 <= d < g.n,
    ;
}

/// The unit behind a slot of a label.
pub open spec fn slot_unit(g: Dims, cell: int, slot: int) -> int {
    if slot == 1 {
        g.row(cell)
    } else if slot == 2 {
        g.n + g.col(cell)
    } else {
        2 * g.n + g.box_of(cell)
    }
}

/// The variables of a label are variables, and the label is among their labels.
pub proof fn lemma_label_var(g: Dims, l: int, slot: int)
    requires
        g.ok(),
        g.is_label(l),
        0 <= slot < 4,
    ensures
        g.is_var(g.label_var(l, slot)),
        0 <= g.var_pos(g.label_var(l, slot), l) < g.n,
        g.var_label(g.label_var(l, slot), g.var_pos(g.label_var(l, slot), l)) == l,
        slot * g.cells() <= g.label_var(l, slot) < (slot + 1) * g.cells(),
{
    lemma_label_parts(g, l);
    lemma_label_bounds(g);
    let cell = g.label_cell(l);
    let d = g.label_digit(l);
    if slot > 0 {
        geometry::lemma_cell_units(g, cell);
        geometry::lemma_cell_parts(g, cell);
        let u = slot_unit(g, cell, slot);
        lemma_unit_var(g, u, d);
        geometry::lemma_unit_pos(g, u, cell);
        assert(g.label_var(l, slot) == g.unit_var(u, d));
    }
}

/// The labels of a variable are labels at their positions, and the variable is one of
/// the four of each.
pub proof fn lemma_var_label(g: Dims, v: int, k: int)
    requires
        g.ok(),
        g.is_var(v),
        0 <= k < g.n,
    ensures
        g.is_label(g.var_label(v, k)),
        g.var_pos(v, g.var_label(v, k)) == k,
        g.label_var(g.var_label(v, k), v / g.cells()) == v,
        0 <= v / g.cells() < 4,
{
    lemma_label_bounds(g);
    let c = g.cells();
    assert(0 <= v / c < 4) by (nonlinear_arith)
        requires
            0 <= v < 4 * c,
            0 < c,
    ;
    if v < c {
        lemma_label_at(g, v, k);
        assert(v / c == 0) by (nonlinear_arith)
            requires
                0 <= v < c,
        ;
    } else {
        let w = v - c;
        let u = w / g.n;
        let d = w % g.n;
        vstd::arithmetic::div_mod::lemma_fundamental_div_mod(w, g.n);
        vstd::arithmetic::div_mod::lemma_mod_bound(w, g.n);
        assert(g.n * u == u * g.n) by (nonlinear_arith);
        assert(0 <= u < 3 * g.n) by (nonlinear_arith)
            requires
                0 <= w < 3 * (g.n * g.n),
                0 < g.n,
                w == u * g.n + d,
                0 <= d < g.n,
        ;
        geometry::lemma_unit_cell(g, u, k);
        lemma_label_at(g, g.unit_cell(u, k), d);
        lemma_unit_var(g, u, d);
        assert(v == g.unit_var(u, d));
        let cell = g.unit_cell(u, k);
        geometry::lemma_cell_parts(g, cell);
        assert(v < 2 * c ==> v / c == 1) by (nonlinear_arith)
            requires
                c <= v,
                0 < c,
        ;
        assert(2 * c <= v < 3 * c ==> v / c == 2) by (nonlinear_arith)
            requires
                0 < c,
        ;
        assert(3 * c <= v < 4 * c ==> v / c == 3) by (nonlinear_arith)
            requires
                0 < c,
        ;
    }
}

/// Every variable has `n` different labels.
pub proof fn law_variable_labels_differ(g: Dims, v: int, k: int, j: int)
    requires
        g.ok(),
        g.is_var(v),
        0 <= k < g.n,
        0 <= j < g.n,
        k != j,
    ensures
        g.var_label(v, k) != g.var_label(v, j),
{
    lemma_var_label(g, v, k);
    lemma_var_label(g, v, j);
}

/// Every label belongs to four different variables.
pub proof fn law_label_variables_differ(g: Dims, l: int, s: int, t: int)
    requires
        g.ok(),
        g.is_label(l),
        0 <= s < 4,
        0 <= t < 4,
        s != t,
    ensures
        g.label_var(l, s) != g.label_var(l, t),
{
    lemma_label_var(g, l, s);
    lemma_label_var(g, l, t);
    lemma_label_bounds(g);
    assert(s < t ==> (s + 1) * g.cells() <= t * g.cells()) by (nonlinear_arith)
        requires
            0 <= g.cells(),
    ;
    assert(t < s ==> (t + 1) * g.cells() <= s * g.cells()) by (nonlinear_arith)
        requires
            0 <= g.cells(),
    ;
}

/// A label is among those of a variable exactly when the variable is among those of
/// the label.
pub proof fn law_labels_and_variables_agree(g: Dims, l: int, v: int)
    requires
        g.ok(),
        g.is_label(l),
        g.is_var(v),
    ensures
        (exists|k: int| 0 <= k < g.n && #[trigger] g.var_label(v, k) == l) <==> (exists|s: int|
            0 <= s < 4 && #[trigger] g.label_var(l, s) == v),
{
    if exists|k: int| 0 <= k < g.n && #[trigger] g.var_label(v, k) == l {
        let k = choose|k: int| 0 <= k < g.n && #[trigger] g.var_label(v, k) == l;
        lemma_var_label(g, v, k);
        assert(g.label_var(l, v / g.cells()) == v);
    }
    if exists|s: int| 0 <= s < 4 && #[trigger] g.label_var(l, s) == v {
        let s = choose|s: int| 0 <= s < 4 && #[trigger] g.label_var(l, s) == v;
        lemma_label_var(g, l, s);
        assert(g.var_label(v, g.var_pos(v, l)) == l);
    }
}

/// Two labels exclude each other exactly when they differ and share a variable.
pub proof fn law_linked_iff_shared_variable(g: Dims, a: int, b: int)
    requires
        g.ok(),
        g.is_label(a),
        g.is_label(b),
    ensures
        g.linked(a, b) <==> a != b && exists|s: int|
            0 <= s < 4 && #[trigger] g.label_var(a, s) == g.label_var(b, s),
{
    lemma_label_parts(g, a);
    lemma_label_parts(g, b);
    let ca = g.label_cell(a);
    let cb = g.label_cell(b);
    geometry::lemma_cell_units(g, ca);
    geometry::lemma_cell_units(g, cb);
    lemma_unit_var(g, slot_unit(g, ca, 1), g.label_digit(a));
    lemma_unit_var(g, slot_unit(g, ca, 2), g.label_digit(a));
    lemma_unit_var(g, slot_unit(g, ca, 3), g.label_digit(a));
    lemma_unit_var(g, slot_unit(g, cb, 1), g.label_digit(b));
    lemma_unit_var(g, slot_unit(g, cb, 2), g.label_digit(b));
    lemma_unit_var(g, slot_unit(g, cb, 3), g.label_digit(b));
    if g.linked(a, b) {
        if ca == cb {
            assert(g.label_var(a, 0) == g.label_var(b, 0));
        } else if g.row(ca) == g.row(cb) {
            assert(g.label_var(a, 1) == g.label_var(b, 1));
        } else if g.col(ca) == g.col(cb) {
            assert(g.label_var(a, 2) == g.label_var(b, 2));
        } else {
            assert(g.label_var(a, 3) == g.label_var(b, 3));
        }
    }
    if a != b && exists|s: int| 0 <= s < 4 && #[trigger] g.label_var(a, s) == g.label_var(b, s) {
        let s = choose|s: int| 0 <= s < 4 && #[trigger] g.label_var(a, s) == g.label_var(b, s);
        assert(s == 0 || s == 1 || s == 2 || s == 3);
        if s == 0 {
            assert(ca == cb);
        } else {
            let u = slot_unit(g, ca, s);
            let w = slot_unit(g, cb, s);
            assert(g.label_var(a, s) == g.unit_var(u, g.label_digit(a)));
            assert(g.label_var(b, s) == g.unit_var(w, g.label_digit(b)));
            assert(u == w && g.label_digit(a) == g.label_digit(b));
        }
    }
}

/// Exclusion is symmetric, and no label excludes itself.
pub proof fn law_link_symmetric(g: Dims, a: int, b: int)
    requires
        g.ok(),
        g.is_label(a),
        g.is_label(b),
    ensures
        g.linked(a, b) == g.linked(b, a),
        !g.linked(a, a),
{
    lemma_label_parts(g, a);
    lemma_label_parts(g, b);
}

fn build_var_labels(t: &PeerTable, Ghost(g): Ghost<Dims>, n: usize, v: usize) -> (s: Vec<Label>)
    requires
        t.wf(g),
        n == g.n,
        g.is_var(v as int),
    ensures
        s@.len() == n,
        forall|k: int| 0 <= k < n ==> (#[trigger] s@[k]) == g.var_label(v as int, k),
{
    proof {
        lemma_label_bounds(g);
    }
    let mut s: Vec<Label> = Vec::new();
    let mut k: usize = 0;
    let cells: usize = n * n;
    while k < n
        invariant
            t.wf(g),
            n == g.n,
            cells == g.cells(),
            g.cells() <= 961,
            g.labels() <= 29791,
            g.is_var(v as int),
            k <= n,
            s@.len() == k,
            forall|j: int| 0 <= j < k ==> (#[trigger] s@[j]) == g.var_label(v as int, j),
        decreases n - k,
    {
        proof {
            lemma_var_label(g, v as int, k as int);
        }
        let l: usize = if v < cells {
            proof {
                assert(0 <= v * n) by (nonlinear_arith)
                    requires
                        0 <= v,
                        0 <= n,
                ;
            }
            v * n + k
        } else {
            let w: usize = v - cells;
            proof {
                assert(0 <= w / n < 3 * n) by (nonlinear_arith)
                    requires
                        0 <= w < 3 * (n * n),
                        0 < n,
                ;
                let u = (w / n) as int;
                assert(peer_tables::lists_unit(g, u, t.units@[u]@));
                assert(t.units@[u]@[k as int] == g.unit_cell(u, k as int));
                let c = g.unit_cell(u, k as int);
                assert(0 <= c * n) by (nonlinear_arith)
                    requires
                        0 <= c,
                        0 <= n,
                ;
            }
            t.units[w / n][k] as usize * n + w % n
        };
        s.push(l as u32);
        k += 1;
    }
    s
}

fn build_label_vars(t: &PeerTable, Ghost(g): Ghost<Dims>, n: usize, l: usize) -> (r: [CspVarId; 4])
    requires
        t.wf(g),
        n == g.n,
        g.is_label(l as int),
    ensures
        forall|slot: int| 0 <= slot < 4 ==> (#[trigger] r@[slot]) == g.label_var(l as int, slot),
{
    proof {
        lemma_label_bounds(g);
        lemma_label_parts(g, l as int);
        lemma_label_var(g, l as int, 1);
        lemma_label_var(g, l as int, 2);
        lemma_label_var(g, l as int, 3);
        geometry::lemma_cell_parts(g, g.label_cell(l as int));
    }
    let cell: usize = l / n;
    let d: usize = l % n;
    let cells: usize = n * n;
    let c = &t.cells[cell];
    assert(c.wf(g, cell as int));
    proof {
        let r0 = c.row as int;
        let c0 = n + c.col;
        let b0 = 2 * n + c.block;
        assert(0 <= r0 * n && 0 <= c0 * n && 0 <= b0 * n) by (nonlinear_arith)
            requires
                0 <= r0,
                0 <= c0,
                0 <= b0,
                0 <= n,
        ;
    }
    let row_var: usize = cells + c.row as usize * n + d;
    let col_var: usize = cells + (n + c.col as usize) * n + d;
    let box_var: usize = cells + (2 * n + c.block as usize) * n + d;
    let r: [CspVarId; 4] = [cell as u32, row_var as u32, col_var as u32, box_var as u32];
    assert(r@[0] == g.label_var(l as int, 0));
    assert(r@[1] == g.label_var(l as int, 1));
    assert(r@[2] == g.label_var(l as int, 2));
    assert(r@[3] == g.label_var(l as int, 3));
    r
}

/// The labels of a variable without one of them.
fn build_others(labels: &Vec<Label>, Ghost(g): Ghost<Dims>, Ghost(v): Ghost<int>, l: u32) -> (s: Vec<
    Label,
>)
    requires
        g.ok(),
        g.is_var(v),
        g.is_label(l as int),
        labels@.len() == g.n,
        forall|k: int| 0 <= k < g.n ==> (#[trigger] labels@[k]) == g.var_label(v, k),
        0 <= g.var_pos(v, l as int) < g.n,
        g.var_label(v, g.var_pos(v, l as int)) == l,
    ensures
        others(g, v, l as int, s@),
{
    let ghost p = g.var_pos(v, l as int);
    let mut s: Vec<Label> = Vec::new();
    let mut k: usize = 0;
    while k < labels.len()
        invariant
            g.ok(),
            g.is_var(v),
            labels@.len() == g.n,
            forall|k: int| 0 <= k < g.n ==> (#[trigger] labels@[k]) == g.var_label(v, k),
            p == g.var_pos(v, l as int),
            0 <= p < g.n,
            g.var_label(v, p) == l,
            k <= labels@.len(),
            s@.len() == if k <= p {
                k as int
            } else {
                k - 1
            },
            forall|j: int|
                0 <= j < s@.len() ==> (#[trigger] s@[j]) == g.var_label(
                    v,
                    if j < p {
                        j
                    } else {
                        j + 1
                    },
                ),
        decreases labels@.len() - k,
    {
        proof {
            if k != p {
                law_variable_labels_differ(g, v, k as int, p);
            }
        }
        if labels[k] != l {
            s.push(labels[k]);
        }
        k += 1;
    }
    s
}

fn kind_at(n: usize, v: usize) -> (r: CspVarKind)
    requires
        1 <= n <= 31,
    ensures
        r == (Dims { n: n as int, br: 1, bc: 1 }).var_kind(v as int),
{
    assert(n * n <= 961) by (nonlinear_arith)
        requires
            1 <= n <= 31,
    ;
    let cells: usize = n * n;
    if v < cells {
        CspVarKind::Rc
    } else if v < 2 * cells {
        CspVarKind::Rn
    } else if v < 3 * cells {
        CspVarKind::Cn
    } else {
        CspVarKind::Bn
    }
}

/// The tables of the 9x9 grid.
pub fn build_csp_tables_n9() -> (r: (CspVarTable, LinkGraph<W9>, CspLinkGraph))
    ensures
        r.0.wf(Dims::of(9, 3, 3)),
        r.1.wf(Dims::of(9, 3, 3)),
        r.2.wf(Dims::of(9, 3, 3)),
{
    build_csp_tables_generic::<9, 3, 3, W9>()
}

/// The tables of a shape: variables and labels, excluded labels, and the other labels
/// of each variable. `W` is the number of words of a set of labels.
pub fn build_csp_tables_generic<
    const N: usize,
    const BR: usize,
    const BC: usize,
    const W: usize,
>() -> (r: (CspVarTable, LinkGraph<W>, CspLinkGraph))
    requires
        Dims::of(N, BR, BC).ok(),
        W == (N * N * N + 63) / 64,
    ensures
        r.0.wf(Dims::of(N, BR, BC)),
        r.1.wf(Dims::of(N, BR, BC)),
        r.2.wf(Dims::of(N, BR, BC)),
{
    let ghost g = Dims::of(N, BR, BC);
    proof {
        lemma_label_bounds(g);
    }
    let table = peer_tables::get(N, BR, BC);
    let cells: usize = N * N;
    let n_labels: usize = cells * N;
    let n_vars: usize = 4 * cells;

    let mut labels_of: Vec<Vec<Label>> = Vec::new();
    let mut kind_of: Vec<CspVarKind> = Vec::new();
    let mut v: usize = 0;
    while v < n_vars
        invariant
            g == Dims::of(N, BR, BC),
            g.ok(),
            table.wf(g),
            n_vars == g.vars(),
            v <= n_vars,
            labels_of@.len() == v,
            kind_of@.len() == v,
            forall|x: int| 0 <= x < v ==> (#[trigger] labels_of@[x])@.len() == g.n,
            forall|x: int, k: int|
                0 <= x < v && 0 <= k < g.n ==> (#[trigger] labels_of@[x]@[k]) == g.var_label(x, k),
            forall|x: int| 0 <= x < v ==> #[trigger] kind_of@[x] == g.var_kind(x),
        decreases n_vars - v,
    {
        labels_of.push(build_var_labels(&table, Ghost(g), N, v));
        kind_of.push(kind_at(N, v));
        v += 1;
    }

    let mut vars_of: Vec<[CspVarId; 4]> = Vec::new();
    let mut linked: Vec<BitSet<W>> = Vec::new();
    let mut alternatives: Vec<[Vec<Label>; 4]> = Vec::new();
    let mut l: usize = 0;
    while l < n_labels
        invariant
            g == Dims::of(N, BR, BC),
            g.ok(),
            table.wf(g),
            n_labels == g.labels(),
            n_labels <= 29791,
            n_labels <= 64 * W,
            n_vars == g.vars(),
            l <= n_labels,
            labels_of@.len() == n_vars,
            forall|x: int| 0 <= x < n_vars ==> (#[trigger] labels_of@[x])@.len() == g.n,
            forall|x: int, k: int|
                0 <= x < n_vars && 0 <= k < g.n ==> (#[trigger] labels_of@[x]@[k]) == g.var_label(
                    x,
                    k,
                ),
            vars_of@.len() == l,
            forall|x: int, slot: int|
                0 <= x < l && 0 <= slot < 4 ==> (#[trigger] vars_of@[x]@[slot]) == g.label_var(
                    x,
                    slot,
                ),
            linked@.len() == l,
            forall|a: int, b: int|
                0 <= a < l ==> #[trigger] linked@[a].contains(b) == (g.is_label(b) && g.linked(
                    a,
                    b,
                )),
            alternatives@.len() == l,
            forall|x: int, slot: int|
                0 <= x < l && 0 <= slot < 4 ==> others(
                    g,
                    g.label_var(x, slot),
                    x,
                    (#[trigger] alternatives@[x]@[slot])@,
                ),
        decreases n_labels - l,
    {
        let vars: [CspVarId; 4] = build_label_vars(&table, Ghost(g), N, l);
        proof {
            lemma_label_var(g, l as int, 0);
            lemma_label_var(g, l as int, 1);
            lemma_label_var(g, l as int, 2);
            lemma_label_var(g, l as int, 3);
            assert(vars@[0] == g.label_var(l as int, 0));
            assert(vars@[1] == g.label_var(l as int, 1));
            assert(vars@[2] == g.label_var(l as int, 2));
            assert(vars@[3] == g.label_var(l as int, 3));
        }
        let a0: Vec<Label> = build_others(
            &labels_of[vars[0] as usize],
            Ghost(g),
            Ghost(g.label_var(l as int, 0)),
            l as u32,
        );
        let a1: Vec<Label> = build_others(
            &labels_of[vars[1] as usize],
            Ghost(g),
            Ghost(g.label_var(l as int, 1)),
            l as u32,
        );
        let a2: Vec<Label> = build_others(
            &labels_of[vars[2] as usize],
            Ghost(g),
            Ghost(g.label_var(l as int, 2)),
            l as u32,
        );
        let a3: Vec<Label> = build_others(
            &labels_of[vars[3] as usize],
            Ghost(g),
            Ghost(g.label_var(l as int, 3)),
            l as u32,
        );
        let mut row: BitSet<W> = BitSet::empty();
        add_all(&mut row, &a0, n_labels, Ghost(g), Ghost(l as int), Ghost(0int));
        let ghost r0 = row;
        add_all(&mut row, &a1, n_labels, Ghost(g), Ghost(l as int), Ghost(1int));
        let ghost r1 = row;
        add_all(&mut row, &a2, n_labels, Ghost(g), Ghost(l as int), Ghost(2int));
        let ghost r2 = row;
        add_all(&mut row, &a3, n_labels, Ghost(g), Ghost(l as int), Ghost(3int));
        proof {
            assert forall|b: int| #[trigger] row.contains(b) == (g.is_label(b) && g.linked(
                l as int,
                b,
            )) by {
                assert(row.contains(b) == (r2.contains(b) || shares(g, l as int, b, 3)));
                assert(r2.contains(b) == (r1.contains(b) || shares(g, l as int, b, 2)));
                assert(r1.contains(b) == (r0.contains(b) || shares(g, l as int, b, 1)));
                assert(r0.contains(b) == shares(g, l as int, b, 0));
                if g.is_label(b) {
                    law_linked_iff_shared_variable(g, l as int, b);
                    if g.linked(l as int, b) {
                        let s = choose|s: int|
                            0 <= s < 4 && #[trigger] g.label_var(l as int, s) == g.label_var(b, s);
                        assert(shares(g, l as int, b, s));
                    }
                }
            }
        }
        vars_of.push(vars);
        linked.push(row);
        alternatives.push([a0, a1, a2, a3]);
        proof {
            let i = l as int;
            assert(alternatives@[i]@[0]@ == a0@);
            assert(alternatives@[i]@[1]@ == a1@);
            assert(alternatives@[i]@[2]@ == a2@);
            assert(alternatives@[i]@[3]@ == a3@);
        }
        l += 1;
    }
    (
        CspVarTable { labels_of, vars_of, kind_of, n: N },
        LinkGraph { linked },
        CspLinkGraph { alternatives, n: N },
    )
}

/// `b` is another label of the variable in slot `s` of `a`.
spec fn shares(g: Dims, a: int, b: int, s: int) -> bool {
    g.is_label(b) && a != b && g.label_var(a, s) == g.label_var(b, s)
}

fn add_all<const W: usize>(
    row: &mut BitSet<W>,
    s: &Vec<Label>,
    n_labels: usize,
    Ghost(g): Ghost<Dims>,
    Ghost(l): Ghost<int>,
    Ghost(slot): Ghost<int>,
)
    requires
        g.ok(),
        n_labels == g.labels(),
        n_labels <= 64 * W,
        g.is_label(l),
        0 <= slot < 4,
        others(g, g.label_var(l, slot), l, s@),
    ensures
        forall|b: int| #[trigger]
            final(row).contains(b) == (old(row).contains(b) || shares(g, l, b, slot)),
{
    let ghost v = g.label_var(l, slot);
    let ghost p = g.var_pos(v, l);
    let ghost before = *row;
    proof {
        lemma_label_var(g, l, slot);
    }
    let mut k: usize = 0;
    while k < s.len()
        invariant
            g.ok(),
            n_labels == g.labels(),
            n_labels <= 64 * W,
            g.is_label(l),
            0 <= slot < 4,
            v == g.label_var(l, slot),
            g.is_var(v),
            p == g.var_pos(v, l),
            others(g, v, l, s@),
            k <= s@.len(),
            forall|b: int| #[trigger]
                row.contains(b) == (before.contains(b) || exists|j: int|
                    0 <= j < k && #[trigger] s@[j] == b),
        decreases s@.len() - k,
    {
        let ghost mid = *row;
        proof {
            assert(s@[k as int] == g.var_label(
                v,
                if k < p {
                    k as int
                } else {
                    k + 1
                },
            ));
            lemma_var_label(
                g,
                v,
                if k < p {
                    k as int
                } else {
                    k + 1
                },
            );
        }
        row.set(s[k] as usize);
        proof {
            assert forall|b: int| #[trigger] row.contains(b) == (before.contains(b) || exists|j: int|
                0 <= j < k + 1 && #[trigger] s@[j] == b) by {
                assert(row.contains(b) == (b == s@[k as int] || mid.contains(b)));
                if mid.contains(b) && !before.contains(b) {
                    let j = choose|j: int| 0 <= j < k && #[trigger] s@[j] == b;
                    assert(s@[j] == b);
                }
            }
        }
        k += 1;
    }
    proof {
        assert forall|b: int| #[trigger] row.contains(b) == (before.contains(b) || shares(
            g,
            l,
            b,
            slot,
        )) by {
            if shares(g, l, b, slot) {
                lemma_label_var(g, b, slot);
                let q = g.var_pos(v, b);
                let j = if q < p {
                    q
                } else {
                    q - 1
                };
                assert(s@[j] == b);
            }
            if exists|j: int| 0 <= j < k && #[trigger] s@[j] == b {
                let j = choose|j: int| 0 <= j < k && #[trigger] s@[j] == b;
                let q = if j < p {
                    j
                } else {
                    j + 1
                };
                lemma_var_label(g, v, q);
                lemma_label_bounds(g);
                lemma_slot(g, l, slot);
                assert(shares(g, l, b, slot));
            }
        }
    }
}

/// The slot of a variable is its family.
proof fn lemma_slot(g: Dims, l: int, slot: int)
    requires
        g.ok(),
        g.is_label(l),
        0 <= slot < 4,
    ensures
        g.label_var(l, slot) / g.cells() == slot,
{
    lemma_label_var(g, l, slot);
    lemma_label_bounds(g);
    let v = g.label_var(l, slot);
    let c = g.cells();
    assert((slot + 1) * c == slot * c + c) by (nonlinear_arith);
    geometry::lemma_div_mod_of(slot, v - slot * c, c);
}

/// The tables of the 9x9 grid behind a shared handle.
pub fn get_csp_tables_9x9() -> (r: Arc<(CspVarTable, LinkGraph<W9>, CspLinkGraph)>)
    ensures
        r.0.wf(Dims::of(9, 3, 3)),
        r.1.wf(Dims::of(9, 3, 3)),
        r.2.wf(Dims::of(9, 3, 3)),
{
    Arc::new(build_csp_tables_n9())
}

} // verus!
