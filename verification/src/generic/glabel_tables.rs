//! Groups of labels: the cells of one box in one row or one column, with one digit.
//!
//! Groups are numbered with all row segments first and the column segments after
//! them. Within each kind they are ordered by digit, then by box, then by the row or
//! column inside the box.

use super::bitboard::BitSet;
use super::chain_model::{CspVarId, GLabel, Label, Rlc};
use super::csp_tables;
use super::csp_tables::{CspVarTable, W9};
use super::geometry;
use super::geometry::Dims;
use super::peer_tables;
use super::peer_tables::PeerTable;
use vstd::prelude::*;

verus! {

/// Words of a set of groups of the 9x9 grid.
pub const WG9: usize = 8;

/// Whether a group lies in a row or in a column.
#[derive(Copy, Clone, PartialEq, Eq, Structural, Debug)]
pub enum SegKind {
    Row,
    Col,
}

/// What is known of each group.
#[derive(Clone, Debug)]
pub struct GLabelTable<const WL: usize> {
    /// The labels of the group, in ascending order.
    pub members_of: Vec<Vec<Label>>,
    /// The digit, less one.
    pub digit_of: Vec<u8>,
    pub block_of: Vec<u8>,
    /// The row of a row segment, the column of a column segment.
    pub row_or_col_of: Vec<u8>,
    pub segment_kind: Vec<SegKind>,
    /// The variable of the row or column, then that of the box.
    pub csp_vars_of: Vec<[CspVarId; 2]>,
    /// The labels of the group as a set.
    pub member_bits: Vec<BitSet<WL>>,
    pub n: usize,
}

/// For each label the groups that it excludes.
#[derive(Clone, Debug)]
pub struct GLinkGraph<const WL: usize, const WG: usize> {
    pub glinked: Vec<BitSet<WG>>,
    /// The same groups in ascending order, each with the variable behind it.
    pub csp_glinked: Vec<Vec<(GLabel, CspVarId)>>,
}

impl Dims {
    /// The number of row segments.
    pub open spec fn row_segs(self) -> int {
        self.n * (self.n * self.br)
    }

    /// The number of column segments.
    pub open spec fn col_segs(self) -> int {
        self.n * (self.n * self.bc)
    }

    pub open spec fn segs(self) -> int {
        self.row_segs() + self.col_segs()
    }

    pub open spec fn is_seg(self, x: int) -> bool {
        0 <= x < self.segs()
    }

    pub open spec fn seg_kind(self, x: int) -> SegKind {
        if x < self.row_segs() {
            SegKind::Row
        } else {
            SegKind::Col
        }
    }

    /// The digit of a group, less one.
    pub open spec fn seg_digit(self, x: int) -> int {
        if x < self.row_segs() {
            x / (self.n * self.br)
        } else {
            (x - self.row_segs()) / (self.n * self.bc)
        }
    }

    pub open spec fn seg_block(self, x: int) -> int {
        if x < self.row_segs() {
            x % (self.n * self.br) / self.br
        } else {
            (x - self.row_segs()) % (self.n * self.bc) / self.bc
        }
    }

    /// The row or column inside the box.
    pub open spec fn seg_local(self, x: int) -> int {
        if x < self.row_segs() {
            x % (self.n * self.br) % self.br
        } else {
            (x - self.row_segs()) % (self.n * self.bc) % self.bc
        }
    }

    /// The row or column of the grid.
    pub open spec fn seg_line(self, x: int) -> int {
        if x < self.row_segs() {
            (self.seg_block(x) / self.br) * self.br + self.seg_local(x)
        } else {
            (self.seg_block(x) % self.br) * self.bc + self.seg_local(x)
        }
    }

    /// The number of members.
    pub open spec fn seg_len(self, x: int) -> int {
        if x < self.row_segs() {
            self.bc
        } else {
            self.br
        }
    }

    /// The `j`-th cell of a group.
    pub open spec fn seg_cell(self, x: int, j: int) -> int {
        self.unit_cell(
            2 * self.n + self.seg_block(x),
            if x < self.row_segs() {
                self.seg_local(x) * self.bc + j
            } else {
                j * self.bc + self.seg_local(x)
            },
        )
    }

    /// The `j`-th label of a group.
    pub open spec fn seg_label(self, x: int, j: int) -> int {
        self.label_at(self.seg_cell(x, j), self.seg_digit(x))
    }

    /// Label `l` belongs to group `x`.
    pub open spec fn seg_has(self, x: int, l: int) -> bool {
        exists|j: int| 0 <= j < self.seg_len(x) && #[trigger] self.seg_label(x, j) == l
    }

    /// The unit of the line of a group.
    pub open spec fn seg_unit(self, x: int) -> int {
        if x < self.row_segs() {
            self.seg_line(x)
        } else {
            self.n + self.seg_line(x)
        }
    }

    /// Cell `c` lies in the row or column of group `x`.
    pub open spec fn seg_on_line(self, x: int, c: int) -> bool {
        self.in_unit(self.seg_unit(x), c)
    }

    /// Label `l` excludes group `x`: it has the digit of the group without being one of
    /// its labels, and lies in its line or in its box.
    pub open spec fn glinked(self, l: int, x: int) -> bool {
        &&& self.label_digit(l) == self.seg_digit(x)
        &&& !self.seg_has(x, l)
        &&& (self.seg_on_line(x, self.label_cell(l)) || self.box_of(self.label_cell(l))
            == self.seg_block(x))
    }

    /// The variable behind the exclusion of a group by a label.
    pub open spec fn glink_var(self, l: int, x: int) -> int {
        if self.seg_on_line(x, self.label_cell(l)) {
            self.unit_var(self.seg_unit(x), self.seg_digit(x))
        } else {
            self.unit_var(2 * self.n + self.seg_block(x), self.seg_digit(x))
        }
    }
}

impl<const WL: usize> GLabelTable<WL> {
    pub open spec fn wf(&self, g: Dims) -> bool {
        &&& g.ok()
        &&& self.n == g.n
        &&& self.wf_upto(g, g.segs())
    }

    /// The first `upto` groups are entered.
    pub open spec fn wf_upto(&self, g: Dims, upto: int) -> bool {
        &&& self.members_of@.len() == upto
        &&& self.digit_of@.len() == upto
        &&& self.block_of@.len() == upto
        &&& self.row_or_col_of@.len() == upto
        &&& self.segment_kind@.len() == upto
        &&& self.csp_vars_of@.len() == upto
        &&& self.member_bits@.len() == upto
        &&& forall|x: int| 0 <= x < upto ==> (#[trigger] self.members_of@[x])@.len() == g.seg_len(x)
        &&& forall|x: int, j: int|
            0 <= x < upto && 0 <= j < g.seg_len(x) ==> (#[trigger] self.members_of@[x]@[j])
                == g.seg_label(x, j)
        &&& forall|x: int| 0 <= x < upto ==> (#[trigger] self.digit_of@[x]) == g.seg_digit(x)
        &&& forall|x: int| 0 <= x < upto ==> (#[trigger] self.block_of@[x]) == g.seg_block(x)
        &&& forall|x: int| 0 <= x < upto ==> (#[trigger] self.row_or_col_of@[x]) == g.seg_line(x)
        &&& forall|x: int| 0 <= x < upto ==> (#[trigger] self.segment_kind@[x]) == g.seg_kind(x)
        &&& forall|x: int|
            0 <= x < upto ==> (#[trigger] self.csp_vars_of@[x])@[0] == g.unit_var(
                g.seg_unit(x),
                g.seg_digit(x),
            ) && self.csp_vars_of@[x]@[1] == g.unit_var(
                2 * g.n + g.seg_block(x),
                g.seg_digit(x),
            )
        &&& forall|x: int, l: int|
            0 <= x < upto ==> #[trigger] self.member_bits@[x].contains(l) == g.seg_has(x, l)
    }
}

/// `s` lists the groups below `upto` that label `l` excludes, in ascending order, each
/// with the variable behind it.
pub open spec fn lists_glinks(g: Dims, l: int, s: Seq<(GLabel, CspVarId)>, upto: int) -> bool {
    &&& forall|k: int|
        0 <= k < s.len() ==> (#[trigger] s[k]).0 < upto && g.glinked(l, s[k].0 as int) && s[k].1
            == g.glink_var(l, s[k].0 as int)
    &&& forall|k: int, m: int| 0 <= k < m < s.len() ==> s[k].0 < s[m].0
    &&& forall|x: int|
        0 <= x < upto && #[trigger] g.glinked(l, x) ==> s.contains(
            (x as u32, g.glink_var(l, x) as u32),
        )
}

impl<const WL: usize, const WG: usize> GLinkGraph<WL, WG> {
    pub open spec fn wf(&self, g: Dims) -> bool {
        &&& g.ok()
        &&& self.glinked@.len() == g.labels()
        &&& forall|l: int, x: int|
            0 <= l < self.glinked@.len() ==> #[trigger] self.glinked@[l].contains(x) == (g.is_seg(x)
                && g.glinked(l, x))
        &&& self.csp_glinked@.len() == g.labels()
        &&& forall|l: int|
            0 <= l < self.csp_glinked@.len() ==> lists_glinks(
                g,
                l,
                (#[trigger] self.csp_glinked@[l])@,
                g.segs(),
            )
    }
}

/// Sizes of the tables.
pub proof fn lemma_seg_bounds(g: Dims)
    requires
        g.ok(),
    ensures
        0 < g.n * g.br <= 961,
        0 < g.n * g.bc <= 961,
        0 < g.row_segs() <= 29791,
        0 < g.col_segs() <= 29791,
{
    peer_tables::lemma_cells_bound(g);
    let p = g.n * g.br;
    let q = g.n * g.bc;
    assert(0 < p <= 31 * 31 && 0 < q <= 31 * 31) by (nonlinear_arith)
        requires
            1 <= g.n <= 31,
            1 <= g.br <= 31,
            1 <= g.bc <= 31,
            p == g.n * g.br,
            q == g.n * g.bc,
    ;
    assert(0 < g.n * p <= 31 * 961 && 0 < g.n * q <= 31 * 961) by (nonlinear_arith)
        requires
            1 <= g.n <= 31,
            0 < p <= 961,
            0 < q <= 961,
    ;
}

/// Splitting a number of the form `(d * n + b) * w + r`.
proof fn lemma_split(x: int, n: int, w: int, top: int)
    requires
        0 <= x < top * (n * w),
        0 < n,
        0 < w,
    ensures
        0 <= x / (n * w) < top,
        0 <= x % (n * w) / w < n,
        0 <= x % (n * w) % w < w,
{
    let m = n * w;
    assert(0 < m) by (nonlinear_arith)
        requires
            0 < n,
            0 < w,
            m == n * w,
    ;
    assert(0 <= x / m < top) by (nonlinear_arith)
        requires
            0 <= x < top * m,
            0 < m,
    ;
    vstd::arithmetic::div_mod::lemma_mod_bound(x, m);
    let y = x % m;
    assert(0 <= y / w < n) by (nonlinear_arith)
        requires
            0 <= y < n * w,
            0 < w,
    ;
    vstd::arithmetic::div_mod::lemma_mod_bound(y, w);
}

/// Digit, box and line of a group are in range.
pub proof fn lemma_seg_parts(g: Dims, x: int)
    requires
        g.ok(),
        g.is_seg(x),
    ensures
        0 <= g.seg_digit(x) < g.n,
        0 <= g.seg_block(x) < g.n,
        g.seg_kind(x) is Row ==> 0 <= g.seg_local(x) < g.br,
        g.seg_kind(x) is Col ==> 0 <= g.seg_local(x) < g.bc,
        0 <= g.seg_line(x) < g.n,
        g.is_unit(g.seg_unit(x)),
{
    lemma_seg_bounds(g);
    if x < g.row_segs() {
        lemma_split(x, g.n, g.br, g.n);
    } else {
        lemma_split(x - g.row_segs(), g.n, g.bc, g.n);
    }
    let b = g.seg_block(x);
    vstd::arithmetic::div_mod::lemma_mod_bound(b, g.br);
    assert(0 <= b / g.br < g.bc) by (nonlinear_arith)
        requires
            0 <= b < g.br * g.bc,
            0 < g.br,
    ;
    if x < g.row_segs() {
        geometry::lemma_compose_bound(b / g.br, g.seg_local(x), g.bc, g.br);
        assert(g.bc * g.br == g.br * g.bc) by (nonlinear_arith);
    } else {
        geometry::lemma_compose_bound(b % g.br, g.seg_local(x), g.br, g.bc);
    }
}

/// The position of the `j`-th cell of a group in its box.
pub open spec fn seg_pos(g: Dims, x: int, j: int) -> int {
    if x < g.row_segs() {
        g.seg_local(x) * g.bc + j
    } else {
        j * g.bc + g.seg_local(x)
    }
}

/// The cells of a group lie in its box and in its line.
pub proof fn lemma_seg_cell(g: Dims, x: int, j: int)
    requires
        g.ok(),
        g.is_seg(x),
        0 <= j < g.seg_len(x),
    ensures
        0 <= seg_pos(g, x, j) < g.n,
        g.is_cell(g.seg_cell(x, j)),
        g.box_of(g.seg_cell(x, j)) == g.seg_block(x),
        g.seg_on_line(x, g.seg_cell(x, j)),
        g.is_label(g.seg_label(x, j)),
        g.label_cell(g.seg_label(x, j)) == g.seg_cell(x, j),
        g.label_digit(g.seg_label(x, j)) == g.seg_digit(x),
{
    lemma_seg_parts(g, x);
    let b = g.seg_block(x);
    let r = g.seg_local(x);
    let u = 2 * g.n + b;
    let p = seg_pos(g, x, j);
    let (q, s) = if x < g.row_segs() {
        (r, j)
    } else {
        (j, r)
    };
    geometry::lemma_compose_bound(q, s, g.br, g.bc);
    geometry::lemma_div_mod_of(q, s, g.bc);
    geometry::lemma_unit_cell(g, u, p);
    let c = g.unit_cell(u, p);
    csp_tables::lemma_label_at(g, c, g.seg_digit(x));
    geometry::lemma_cell_parts(g, c);
    // Row and column of the cell, from its box and its position.
    vstd::arithmetic::div_mod::lemma_mod_bound(b, g.br);
    assert(0 <= b / g.br < g.bc) by (nonlinear_arith)
        requires
            0 <= b < g.br * g.bc,
            0 < g.br,
    ;
    let row = (b / g.br) * g.br + q;
    let col = (b % g.br) * g.bc + s;
    geometry::lemma_compose_bound(b % g.br, s, g.br, g.bc);
    assert(c == row * g.n + col);
    geometry::lemma_div_mod_of(row, col, g.n);
}

/// Two positions of a group hold different cells, which differ in their column for a
/// row segment and in their row for a column segment.
proof fn lemma_seg_cells_differ(g: Dims, x: int, i: int, j: int)
    requires
        g.ok(),
        g.is_seg(x),
        0 <= i < j < g.seg_len(x),
    ensures
        g.seg_cell(x, i) != g.seg_cell(x, j),
        g.seg_kind(x) is Row ==> g.col(g.seg_cell(x, i)) != g.col(g.seg_cell(x, j)),
        g.seg_kind(x) is Col ==> g.row(g.seg_cell(x, i)) != g.row(g.seg_cell(x, j)),
{
    lemma_seg_parts(g, x);
    lemma_seg_cell(g, x, i);
    lemma_seg_cell(g, x, j);
    let u = 2 * g.n + g.seg_block(x);
    geometry::lemma_unit_cell(g, u, seg_pos(g, x, i));
    geometry::lemma_unit_cell(g, u, seg_pos(g, x, j));
    if x < g.row_segs() {
    } else {
        assert(i * g.bc < j * g.bc) by (nonlinear_arith)
            requires
                i < j,
                0 < g.bc,
        ;
    }
    let a = g.seg_cell(x, i);
    let b = g.seg_cell(x, j);
    geometry::lemma_cell_parts(g, a);
    geometry::lemma_cell_parts(g, b);
}

/// A label excludes a group exactly when it is not one of its labels and excludes all
/// of them. Groups of a single label are left out: there a label of the same cell
/// excludes all of them with another digit.
pub proof fn law_glink_excludes_all_members(g: Dims, l: int, x: int)
    requires
        g.ok(),
        g.is_label(l),
        g.is_seg(x),
        g.seg_len(x) >= 2,
    ensures
        g.glinked(l, x) <==> !g.seg_has(x, l) && forall|j: int|
            0 <= j < g.seg_len(x) ==> g.linked(l, #[trigger] g.seg_label(x, j)),
{
    let c = g.label_cell(l);
    csp_tables::lemma_label_parts(g, l);
    lemma_seg_parts(g, x);
    if g.glinked(l, x) {
        assert forall|j: int| 0 <= j < g.seg_len(x) implies g.linked(
            l,
            #[trigger] g.seg_label(x, j),
        ) by {
            lemma_seg_cell(g, x, j);
            assert(g.seg_label(x, j) != l);
        }
    }
    if !g.seg_has(x, l) && forall|j: int|
        0 <= j < g.seg_len(x) ==> g.linked(l, #[trigger] g.seg_label(x, j)) {
        lemma_seg_cell(g, x, 0);
        lemma_seg_cell(g, x, 1);
        lemma_seg_cells_differ(g, x, 0, 1);
        assert(g.linked(l, g.seg_label(x, 0)));
        assert(g.linked(l, g.seg_label(x, 1)));
    }
}

fn build_members<const WL: usize>(
    t: &PeerTable,
    Ghost(g): Ghost<Dims>,
    n: usize,
    bc: usize,
    x: usize,
    digit: usize,
    block: usize,
    local: usize,
    len: usize,
    row_kind: bool,
) -> (r: (Vec<Label>, BitSet<WL>))
    requires
        t.wf(g),
        n == g.n,
        bc == g.bc,
        g.is_seg(x as int),
        digit == g.seg_digit(x as int),
        block == g.seg_block(x as int),
        local == g.seg_local(x as int),
        len == g.seg_len(x as int),
        row_kind == (x < g.row_segs()),
        g.labels() <= 64 * WL,
    ensures
        r.0@.len() == len,
        forall|j: int| 0 <= j < len ==> (#[trigger] r.0@[j]) == g.seg_label(x as int, j),
        forall|l: int| #[trigger] r.1.contains(l) == g.seg_has(x as int, l),
{
    proof {
        csp_tables::lemma_label_bounds(g);
        lemma_seg_parts(g, x as int);
    }
    let mut members: Vec<Label> = Vec::new();
    let mut bits: BitSet<WL> = BitSet::empty();
    let mut j: usize = 0;
    while j < len
        invariant
            t.wf(g),
            n == g.n,
            bc == g.bc,
            g.is_seg(x as int),
            digit == g.seg_digit(x as int),
            block == g.seg_block(x as int),
            block < n,
            digit < n,
            local == g.seg_local(x as int),
            len == g.seg_len(x as int),
            row_kind == (x < g.row_segs()),
            g.labels() <= 64 * WL,
            g.labels() <= 29791,
            j <= len,
            members@.len() == j,
            forall|i: int| 0 <= i < j ==> (#[trigger] members@[i]) == g.seg_label(x as int, i),
            forall|l: int| #[trigger]
                bits.contains(l) == exists|i: int|
                    0 <= i < j && #[trigger] g.seg_label(x as int, i) == l,
        decreases len - j,
    {
        proof {
            lemma_seg_cell(g, x as int, j as int);
            assert(0 <= local * bc && 0 <= j * bc) by (nonlinear_arith)
                requires
                    0 <= local,
                    0 <= bc,
                    0 <= j,
            ;
        }
        let p: usize = if row_kind {
            local * bc + j
        } else {
            j * bc + local
        };
        let u: usize = 2 * n + block;
        assert(peer_tables::lists_unit(g, u as int, t.units@[u as int]@));
        assert(t.units@[u as int]@[p as int] == g.seg_cell(x as int, j as int));
        let c: usize = t.units[u][p] as usize;
        proof {
            assert(0 <= c * n) by (nonlinear_arith)
                requires
                    0 <= c,
                    0 <= n,
            ;
        }
        let label: usize = c * n + digit;
        let ghost before = bits;
        members.push(label as u32);
        bits.set(label);
        proof {
            assert forall|l: int| #[trigger] bits.contains(l) == exists|i: int|
                0 <= i < j + 1 && #[trigger] g.seg_label(x as int, i) == l by {
                assert(bits.contains(l) == (l == label || before.contains(l)));
                if before.contains(l) {
                    let i = choose|i: int|
                        0 <= i < j && #[trigger] g.seg_label(x as int, i) == l;
                    assert(g.seg_label(x as int, i) == l);
                }
                if l == label {
                    assert(g.seg_label(x as int, j as int) == l);
                }
            }
        }
        j += 1;
    }
    (members, bits)
}

/// The groups of the 9x9 grid.
pub fn build_glabel_tables_n9(_csp: &CspVarTable) -> (r: (GLabelTable<W9>, GLinkGraph<W9, WG9>))
    ensures
        r.0.wf(Dims::of(9, 3, 3)),
        r.1.wf(Dims::of(9, 3, 3)),
{
    build_glabel_tables_generic::<9, 3, 3, W9, WG9>(_csp)
}

/// The groups of a shape, and which labels exclude which groups. `WL` and `WG` are the
/// numbers of words of a set of labels and of a set of groups.
pub fn build_glabel_tables_generic<
    const N: usize,
    const BR: usize,
    const BC: usize,
    const WL: usize,
    const WG: usize,
>(_csp: &CspVarTable) -> (r: (GLabelTable<WL>, GLinkGraph<WL, WG>))
    requires
        Dims::of(N, BR, BC).ok(),
        N * N * N <= 64 * WL,
        N * N * (BR + BC) <= 64 * WG,
    ensures
        r.0.wf(Dims::of(N, BR, BC)),
        r.1.wf(Dims::of(N, BR, BC)),
{
    let ghost g = Dims::of(N, BR, BC);
    proof {
        csp_tables::lemma_label_bounds(g);
        lemma_seg_bounds(g);
        peer_tables::lemma_cells_bound(g);
        assert(N * N * (BR + BC) == N * (N * BR) + N * (N * BC)) by (nonlinear_arith);
    }
    let table = peer_tables::get(N, BR, BC);
    let per_row: usize = N * BR;
    let per_col: usize = N * BC;
    let row_segs: usize = N * per_row;
    let segs: usize = row_segs + N * per_col;
    let mut t: GLabelTable<WL> = GLabelTable {
        members_of: Vec::new(),
        digit_of: Vec::new(),
        block_of: Vec::new(),
        row_or_col_of: Vec::new(),
        segment_kind: Vec::new(),
        csp_vars_of: Vec::new(),
        member_bits: Vec::new(),
        n: N,
    };
    let mut x: usize = 0;
    while x < segs
        invariant
            g == Dims::of(N, BR, BC),
            g.ok(),
            table.wf(g),
            per_row == g.n * g.br,
            per_col == g.n * g.bc,
            0 < per_row <= 961,
            0 < per_col <= 961,
            row_segs == g.row_segs(),
            segs == g.segs(),
            row_segs <= segs <= 59582,
            g.labels() <= 64 * WL,
            N * N <= 961,
            BR <= N,
            BC <= N,
            x <= segs,
            t.n == N,
            t.wf_upto(g, x as int),
        decreases segs - x,
    {
        proof {
            lemma_seg_parts(g, x as int);
        }
        let row_kind: bool = x < row_segs;
        let (digit, block, local): (usize, usize, usize) = if row_kind {
            (x / per_row, x % per_row / BR, x % per_row % BR)
        } else {
            let y: usize = x - row_segs;
            (y / per_col, y % per_col / BC, y % per_col % BC)
        };
        assert(digit == g.seg_digit(x as int));
        assert(block == g.seg_block(x as int));
        assert(local == g.seg_local(x as int));
        proof {
            let q = block / BR;
            assert(0 <= q * BR) by (nonlinear_arith)
                requires
                    0 <= q,
                    0 <= BR,
            ;
            let m = block % BR;
            assert(0 <= m * BC) by (nonlinear_arith)
                requires
                    0 <= m,
                    0 <= BC,
            ;
        }
        let line: usize = if row_kind {
            (block / BR) * BR + local
        } else {
            (block % BR) * BC + local
        };
        assert(line == g.seg_line(x as int));
        let len: usize = if row_kind {
            BC
        } else {
            BR
        };
        let unit: usize = if row_kind {
            line
        } else {
            N + line
        };
        let (members, bits) = build_members::<WL>(
            &table,
            Ghost(g),
            N,
            BC,
            x,
            digit,
            block,
            local,
            len,
            row_kind,
        );
        proof {
            csp_tables::lemma_unit_var(g, unit as int, digit as int);
            csp_tables::lemma_unit_var(g, 2 * N + block, digit as int);
            assert(0 <= unit * N) by (nonlinear_arith)
                requires
                    0 <= unit,
                    0 <= N,
            ;
            let bu = 2 * N + block;
            assert(0 <= bu * N) by (nonlinear_arith)
                requires
                    0 <= bu,
                    0 <= N,
            ;
            csp_tables::lemma_label_bounds(g);
        }
        let line_var: usize = N * N + unit * N + digit;
        let box_var: usize = N * N + (2 * N + block) * N + digit;
        let vars: [CspVarId; 2] = [line_var as u32, box_var as u32];
        assert(vars@[0] == g.unit_var(g.seg_unit(x as int), g.seg_digit(x as int)));
        assert(vars@[1] == g.unit_var(2 * g.n + g.seg_block(x as int), g.seg_digit(x as int)));
        let ghost before = t;
        t.members_of.push(members);
        t.digit_of.push(digit as u8);
        t.block_of.push(block as u8);
        t.row_or_col_of.push(line as u8);
        t.segment_kind.push(if row_kind {
            SegKind::Row
        } else {
            SegKind::Col
        });
        t.csp_vars_of.push(vars);
        t.member_bits.push(bits);
        proof {
            let y = x as int;
            assert(forall|i: int| 0 <= i < y ==> #[trigger] t.members_of@[i] == before.members_of@[i]);
            assert(forall|i: int|
                0 <= i < y ==> #[trigger] t.csp_vars_of@[i] == before.csp_vars_of@[i]);
            assert(forall|i: int|
                0 <= i < y ==> #[trigger] t.member_bits@[i] == before.member_bits@[i]);
            assert(t.members_of@[y] == members);
            assert(t.member_bits@[y] == bits);
            assert(t.csp_vars_of@[y] == vars);
        }
        x += 1;
    }

    let n_labels: usize = N * N * N;
    let mut glinked: Vec<BitSet<WG>> = Vec::new();
    let mut csp_glinked: Vec<Vec<(GLabel, CspVarId)>> = Vec::new();
    let mut l: usize = 0;
    while l < n_labels
        invariant
            g == Dims::of(N, BR, BC),
            g.ok(),
            table.wf(g),
            segs == g.segs(),
            segs <= 59582,
            segs <= 64 * WG,
            g.labels() <= 64 * WL,
            n_labels == g.labels(),
            n_labels <= 29791,
            t.wf(g),
            l <= n_labels,
            glinked@.len() == l,
            csp_glinked@.len() == l,
            forall|m: int, x: int|
                0 <= m < l ==> #[trigger] glinked@[m].contains(x) == (g.is_seg(x) && g.glinked(
                    m,
                    x,
                )),
            forall|m: int|
                0 <= m < l ==> lists_glinks(g, m, (#[trigger] csp_glinked@[m])@, g.segs()),
        decreases n_labels - l,
    {
        let (bits, list) = build_glinks::<WL, WG>(&table, &t, Ghost(g), N, segs, l);
        glinked.push(bits);
        csp_glinked.push(list);
        l += 1;
    }
    (t, GLinkGraph { glinked, csp_glinked })
}

fn build_glinks<const WL: usize, const WG: usize>(
    table: &PeerTable,
    t: &GLabelTable<WL>,
    Ghost(g): Ghost<Dims>,
    n: usize,
    segs: usize,
    l: usize,
) -> (r: (BitSet<WG>, Vec<(GLabel, CspVarId)>))
    requires
        table.wf(g),
        t.wf(g),
        n == g.n,
        segs == g.segs(),
        segs <= 59582,
        segs <= 64 * WG,
        g.labels() <= 64 * WL,
        g.is_label(l as int),
    ensures
        forall|x: int| #[trigger] r.0.contains(x) == (g.is_seg(x) && g.glinked(l as int, x)),
        lists_glinks(g, l as int, r.1@, g.segs()),
{
    let ghost li = l as int;
    proof {
        csp_tables::lemma_label_parts(g, li);
        csp_tables::lemma_label_bounds(g);
        geometry::lemma_cell_parts(g, g.label_cell(li));
    }
    let digit: usize = l % n;
    let cell: usize = l / n;
    let info = &table.cells[cell];
    assert(info.wf(g, cell as int));
    let row: usize = info.row as usize;
    let col: usize = info.col as usize;
    let block: usize = info.block as usize;
    let mut bits: BitSet<WG> = BitSet::empty();
    let mut list: Vec<(GLabel, CspVarId)> = Vec::new();
    let mut x: usize = 0;
    while x < segs
        invariant
            t.wf(g),
            n == g.n,
            segs == g.segs(),
            segs <= 59582,
            segs <= 64 * WG,
            g.labels() <= 64 * WL,
            li == l,
            g.is_label(li),
            digit == g.label_digit(li),
            cell == g.label_cell(li),
            row == g.row(cell as int),
            col == g.col(cell as int),
            block == g.box_of(cell as int),
            row < n,
            col < n,
            x <= segs,
            forall|y: int| #[trigger]
                bits.contains(y) == (0 <= y < x && g.glinked(li, y)),
            lists_glinks(g, li, list@, x as int),
        decreases segs - x,
    {
        let ghost xi = x as int;
        proof {
            lemma_seg_parts(g, xi);
            csp_tables::lemma_unit_var(g, g.seg_unit(xi), g.seg_digit(xi));
            csp_tables::lemma_unit_var(g, 2 * g.n + g.seg_block(xi), g.seg_digit(xi));
        }
        let ghost list0 = list@;
        let ghost bits0 = bits;
        if t.digit_of[x] as usize == digit && !t.member_bits[x].test(l) {
            let line: usize = t.row_or_col_of[x] as usize;
            let on_line: bool = match t.segment_kind[x] {
                SegKind::Row => row == line,
                SegKind::Col => col == line,
            };
            assert(on_line == g.seg_on_line(xi, cell as int));
            if on_line || block == t.block_of[x] as usize {
                let var: CspVarId = if on_line {
                    t.csp_vars_of[x][0]
                } else {
                    t.csp_vars_of[x][1]
                };
                assert(g.glinked(li, xi));
                assert(var == g.glink_var(li, xi));
                bits.set(x);
                list.push((x as u32, var));
                assert(list@[list0.len() as int] == (x as u32, var));
            }
        }
        proof {
            assert forall|y: int| 0 <= y < x + 1 && #[trigger] g.glinked(li, y) implies list@.contains(
                (y as u32, g.glink_var(li, y) as u32),
            ) by {
                if y < x {
                    assert(list0.contains((y as u32, g.glink_var(li, y) as u32)));
                    let k = choose|k: int|
                        0 <= k < list0.len() && list0[k] == (y as u32, g.glink_var(li, y) as u32);
                    assert(list@[k] == list0[k]);
                } else {
                    assert(list@[list0.len() as int] == (y as u32, g.glink_var(li, y) as u32));
                }
            }
        }
        x += 1;
    }
    (bits, list)
}

/// Whether label `l` belongs to group `g`.
pub fn label_in_glabel<const WL: usize>(l: Label, g: GLabel, t: &GLabelTable<WL>) -> (r: bool)
    requires
        g < t.member_bits@.len(),
        l < 64 * WL,
    ensures
        r == t.member_bits@[g as int].contains(l as int),
{
    t.member_bits[g as usize].test(l as usize)
}

/// The entry can be looked up in the table.
pub open spec fn rlc_in_range<const WL: usize>(r: Rlc, t: GLabelTable<WL>) -> bool {
    match r {
        Rlc::Cand(l) => l < 64 * WL,
        Rlc::GCand(g) => g < t.member_bits@.len(),
    }
}

/// Group `g` contains the label, or shares a label with the group.
pub open spec fn touches<const WL: usize>(t: GLabelTable<WL>, g: GLabel, r: Rlc) -> bool {
    match r {
        Rlc::Cand(l) => t.member_bits@[g as int].contains(l as int),
        Rlc::GCand(h) => exists|l: int|
            #[trigger] t.member_bits@[g as int].contains(l) && t.member_bits@[h as int].contains(l),
    }
}

fn touches_one<const WL: usize>(t: &GLabelTable<WL>, g: GLabel, r: Rlc) -> (b: bool)
    requires
        g < t.member_bits@.len(),
        rlc_in_range(r, *t),
    ensures
        b == touches(*t, g, r),
{
    match r {
        Rlc::Cand(l) => t.member_bits[g as usize].test(l as usize),
        Rlc::GCand(h) => t.member_bits[g as usize].meets(&t.member_bits[h as usize]),
    }
}

/// Whether group `g` contains none of the labels and shares a label with none of the
/// groups in `rlcs`.
pub fn glabel_contains_none_of<const WL: usize>(
    g: GLabel,
    rlcs: &[Rlc],
    t: &GLabelTable<WL>,
) -> (r: bool)
    requires
        g < t.member_bits@.len(),
        forall|k: int| 0 <= k < rlcs@.len() ==> rlc_in_range(#[trigger] rlcs@[k], *t),
    ensures
        r == forall|k: int| 0 <= k < rlcs@.len() ==> !touches(*t, g, #[trigger] rlcs@[k]),
{
    !glabel_contains_some_of(g, rlcs, t)
}

/// Whether group `g` contains one of the labels or shares a label with one of the
/// groups in `rlcs`.
pub fn glabel_contains_some_of<const WL: usize>(
    g: GLabel,
    rlcs: &[Rlc],
    t: &GLabelTable<WL>,
) -> (r: bool)
    requires
        g < t.member_bits@.len(),
        forall|k: int| 0 <= k < rlcs@.len() ==> rlc_in_range(#[trigger] rlcs@[k], *t),
    ensures
        r == exists|k: int| 0 <= k < rlcs@.len() && touches(*t, g, #[trigger] rlcs@[k]),
{
    let mut k: usize = 0;
    while k < rlcs.len()
        invariant
            g < t.member_bits@.len(),
            forall|j: int| 0 <= j < rlcs@.len() ==> rlc_in_range(#[trigger] rlcs@[j], *t),
            k <= rlcs@.len(),
            forall|j: int| 0 <= j < k ==> !touches(*t, g, #[trigger] rlcs@[j]),
        decreases rlcs@.len() - k,
    {
        if touches_one(t, g, rlcs[k]) {
            return true;
        }
        k += 1;
    }
    false
}

} // verus!
