//! Which labels a group has.

use super::csp_tables;
use super::geometry;
use super::geometry::Dims;
use super::glabel_tables;
use super::glabel_tables::SegKind;
use vstd::prelude::*;

verus! {

/// A group has just the labels of its digit whose cells lie both in its box and in its line.
pub proof fn law_group_is_box_and_line(g: Dims, x: int, l: int)
    requires
        g.ok(),
        g.is_seg(x),
        g.is_label(l),
    ensures
        g.seg_has(x, l) <==> l % g.n == g.seg_digit(x) && g.box_of(l / g.n) == g.seg_block(x) && (
        if g.seg_kind(x) == SegKind::Row {
            g.row(l / g.n) == g.seg_line(x)
        } else {
            g.col(l / g.n) == g.seg_line(x)
        }),
{
    glabel_tables::lemma_seg_parts(g, x);
    csp_tables::lemma_label_parts(g, l);
    let c = g.label_cell(l);
    let b = g.seg_block(x);
    let r = g.seg_local(x);
    if g.seg_has(x, l) {
        let j = choose|j: int| 0 <= j < g.seg_len(x) && #[trigger] g.seg_label(x, j) == l;
        glabel_tables::lemma_seg_cell(g, x, j);
    }
    if l % g.n == g.seg_digit(x) && g.box_of(c) == b && g.seg_on_line(x, c) {
        let u = 2 * g.n + b;
        geometry::lemma_cell_parts(g, c);
        geometry::lemma_unit_pos(g, u, c);
        vstd::arithmetic::div_mod::lemma_mod_bound(g.col(c), g.bc);
        vstd::arithmetic::div_mod::lemma_mod_bound(g.row(c), g.br);
        let j = if x < g.row_segs() {
            g.col(c) % g.bc
        } else {
            g.row(c) % g.br
        };
        if x < g.row_segs() {
            geometry::lemma_div_mod_of(b / g.br, r, g.br);
        } else {
            geometry::lemma_div_mod_of(b % g.br, r, g.bc);
        }
        assert(g.seg_cell(x, j) == c);
        assert(g.seg_label(x, j) == l);
    }
}

} // verus!
