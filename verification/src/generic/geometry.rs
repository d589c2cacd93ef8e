//! The shape of a grid: rows, columns, boxes, units and peers.

use vstd::arithmetic::div_mod::*;
use vstd::prelude::*;

verus! {

/// The shape of a grid with `n` digits and boxes of `br` rows and `bc` columns.
///
/// Cells are numbered `0..n * n` by rows. Units are numbered `0..3 * n`: first
/// the rows, then the columns, then the boxes.
pub struct Dims {
    pub n: int,
    pub br: int,
    pub bc: int,
}

impl Dims {
    /// The shape with the given parameters.
    pub open spec fn of(n: usize, br: usize, bc: usize) -> Dims {
        Dims { n: n as int, br: br as int, bc: bc as int }
    }

    /// The boxes tile the grid and the digits fit in a mask.
    pub open spec fn ok(self) -> bool {
        &&& 1 <= self.n <= 31
        &&& 1 <= self.br
        &&& 1 <= self.bc
        &&& self.br * self.bc == self.n
    }

    /// The number of cells.
    pub open spec fn cells(self) -> int {
        self.n * self.n
    }

    pub open spec fn is_cell(self, i: int) -> bool {
        0 <= i < self.cells()
    }

    pub open spec fn is_unit(self, u: int) -> bool {
        0 <= u < 3 * self.n
    }

    pub open spec fn is_digit(self, d: int) -> bool {
        1 <= d <= self.n
    }

    pub open spec fn row(self, i: int) -> int {
        i / self.n
    }

    pub open spec fn col(self, i: int) -> int {
        i % self.n
    }

    /// The box of cell `i`. There are `n / bc`, that is `br`, boxes side by side.
    pub open spec fn box_of(self, i: int) -> int {
        (self.row(i) / self.br) * self.br + self.col(i) / self.bc
    }

    /// Cell `i` belongs to unit `u`.
    pub open spec fn in_unit(self, u: int, i: int) -> bool {
        if u < self.n {
            self.row(i) == u
        } else if u < 2 * self.n {
            self.col(i) == u - self.n
        } else {
            self.box_of(i) == u - 2 * self.n
        }
    }

    /// The `k`-th cell of unit `u`: rows from left to right, columns from top to
    /// bottom, boxes by rows.
    pub open spec fn unit_cell(self, u: int, k: int) -> int {
        if u < self.n {
            u * self.n + k
        } else if u < 2 * self.n {
            k * self.n + (u - self.n)
        } else {
            let b = u - 2 * self.n;
            ((b / self.br) * self.br + k / self.bc) * self.n + (b % self.br) * self.bc + k % self.bc
        }
    }

    /// The position of cell `i` in unit `u`.
    pub open spec fn unit_pos(self, u: int, i: int) -> int {
        if u < self.n {
            self.col(i)
        } else if u < 2 * self.n {
            self.row(i)
        } else {
            (self.row(i) % self.br) * self.bc + self.col(i) % self.bc
        }
    }

    /// Two different cells that share a row, a column or a box.
    pub open spec fn peer(self, i: int, j: int) -> bool {
        &&& self.is_cell(i)
        &&& self.is_cell(j)
        &&& i != j
        &&& (self.row(i) == self.row(j) || self.col(i) == self.col(j) || self.box_of(i)
            == self.box_of(j))
    }
}

/// Division with remainder, seen from the quotient and the remainder.
pub proof fn lemma_div_mod_of(q: int, r: int, n: int)
    requires
        0 <= r < n,
    ensures
        (q * n + r) / n == q,
        (q * n + r) % n == r,
{
    lemma_fundamental_div_mod_converse(q * n + r, n, q, r);
}

/// Bounds of a number that is put together from a quotient and a remainder.
pub proof fn lemma_compose_bound(q: int, r: int, m: int, n: int)
    requires
        0 <= q < m,
        0 <= r < n,
    ensures
        0 <= q * n + r < m * n,
{
    assert(0 <= q * n) by (nonlinear_arith)
        requires
            0 <= q,
            0 < n,
    ;
    assert(q * n + n <= m * n) by (nonlinear_arith)
        requires
            q + 1 <= m,
            0 < n,
    ;
}

/// Row, column and box of a cell are in range, and the cell is determined by
/// its row and column.
pub proof fn lemma_cell_parts(g: Dims, i: int)
    requires
        g.ok(),
        g.is_cell(i),
    ensures
        0 <= g.row(i) < g.n,
        0 <= g.col(i) < g.n,
        0 <= g.box_of(i) < g.n,
        i == g.row(i) * g.n + g.col(i),
        0 <= g.row(i) / g.br < g.bc,
        0 <= g.col(i) / g.bc < g.br,
        g.box_of(i) / g.br == g.row(i) / g.br,
        g.box_of(i) % g.br == g.col(i) / g.bc,
{
    let n = g.n;
    lemma_fundamental_div_mod(i, n);
    lemma_mod_bound(i, n);
    assert(n * (i / n) == (i / n) * n) by (nonlinear_arith);
    assert(0 <= i / n < n) by (nonlinear_arith)
        requires
            0 <= i < n * n,
            0 < n,
            i == n * (i / n) + i % n,
            0 <= i % n < n,
    ;
    let r = i / n;
    let c = i % n;
    assert(0 <= r / g.br < g.bc) by (nonlinear_arith)
        requires
            0 <= r < g.br * g.bc,
            0 < g.br,
    ;
    assert(0 <= c / g.bc < g.br) by (nonlinear_arith)
        requires
            0 <= c < g.br * g.bc,
            0 < g.bc,
    ;
    lemma_compose_bound(r / g.br, c / g.bc, g.bc, g.br);
    assert(g.bc * g.br == g.br * g.bc) by (nonlinear_arith);
    lemma_div_mod_of(r / g.br, c / g.bc, g.br);
}

/// The `k`-th cell of a unit is a cell of that unit at position `k`.
pub proof fn lemma_unit_cell(g: Dims, u: int, k: int)
    requires
        g.ok(),
        g.is_unit(u),
        0 <= k < g.n,
    ensures
        g.is_cell(g.unit_cell(u, k)),
        g.in_unit(u, g.unit_cell(u, k)),
        g.unit_pos(u, g.unit_cell(u, k)) == k,
{
    let n = g.n;
    if u < n {
        lemma_compose_bound(u, k, n, n);
        lemma_div_mod_of(u, k, n);
    } else if u < 2 * n {
        lemma_compose_bound(k, u - n, n, n);
        lemma_div_mod_of(k, u - n, n);
    } else {
        let b = u - 2 * n;
        lemma_fundamental_div_mod(b, g.br);
        lemma_mod_bound(b, g.br);
        lemma_fundamental_div_mod(k, g.bc);
        lemma_mod_bound(k, g.bc);
        assert(0 <= b / g.br < g.bc) by (nonlinear_arith)
            requires
                0 <= b < g.br * g.bc,
                0 < g.br,
        ;
        assert(0 <= k / g.bc < g.br) by (nonlinear_arith)
            requires
                0 <= k < g.br * g.bc,
                0 < g.bc,
        ;
        let r = (b / g.br) * g.br + k / g.bc;
        let c = (b % g.br) * g.bc + k % g.bc;
        assert(g.bc * g.br == g.br * g.bc) by (nonlinear_arith);
        lemma_compose_bound(b / g.br, k / g.bc, g.bc, g.br);
        lemma_compose_bound(b % g.br, k % g.bc, g.br, g.bc);
        lemma_div_mod_of(b / g.br, k / g.bc, g.br);
        lemma_div_mod_of(b % g.br, k % g.bc, g.bc);
        lemma_compose_bound(r, c, n, n);
        lemma_div_mod_of(r, c, n);
        assert(g.unit_cell(u, k) == r * n + c);
        assert((b / g.br) * g.br == g.br * (b / g.br)) by (nonlinear_arith);
        assert((k / g.bc) * g.bc == g.bc * (k / g.bc)) by (nonlinear_arith);
    }
}

/// The cells of a unit come in ascending order.
pub proof fn lemma_unit_ascending(g: Dims, u: int, k: int, l: int)
    requires
        g.ok(),
        g.is_unit(u),
        0 <= k < l < g.n,
    ensures
        g.unit_cell(u, k) < g.unit_cell(u, l),
{
    let n = g.n;
    if u < n {
    } else if u < 2 * n {
        assert(k * n < l * n) by (nonlinear_arith)
            requires
                k < l,
                0 < n,
        ;
    } else {
        let b = u - 2 * n;
        let p = k / g.bc;
        let q = l / g.bc;
        lemma_fundamental_div_mod(k, g.bc);
        lemma_fundamental_div_mod(l, g.bc);
        lemma_mod_bound(k, g.bc);
        lemma_mod_bound(l, g.bc);
        let base = (b / g.br) * g.br;
        assert(p <= q) by (nonlinear_arith)
            requires
                k < l,
                k == g.bc * p + k % g.bc,
                l == g.bc * q + l % g.bc,
                0 <= k % g.bc < g.bc,
                0 <= l % g.bc < g.bc,
        ;
        if p < q {
            assert((base + q) * n >= (base + p) * n + n) by (nonlinear_arith)
                requires
                    p + 1 <= q,
                    0 < n,
            ;
            assert(g.bc <= n) by (nonlinear_arith)
                requires
                    g.br * g.bc == n,
                    g.br >= 1,
                    g.bc >= 1,
            ;
        }
    }
}

/// Every cell of a unit is found at its position.
pub proof fn lemma_unit_pos(g: Dims, u: int, i: int)
    requires
        g.ok(),
        g.is_unit(u),
        g.is_cell(i),
        g.in_unit(u, i),
    ensures
        0 <= g.unit_pos(u, i) < g.n,
        g.unit_cell(u, g.unit_pos(u, i)) == i,
{
    lemma_cell_parts(g, i);
    let n = g.n;
    if u >= 2 * n {
        let r = g.row(i);
        let c = g.col(i);
        lemma_fundamental_div_mod(r, g.br);
        lemma_fundamental_div_mod(c, g.bc);
        lemma_mod_bound(r, g.br);
        lemma_mod_bound(c, g.bc);
        assert(g.br * (r / g.br) == (r / g.br) * g.br) by (nonlinear_arith);
        assert(g.bc * (c / g.bc) == (c / g.bc) * g.bc) by (nonlinear_arith);
        lemma_compose_bound(r % g.br, c % g.bc, g.br, g.bc);
        lemma_div_mod_of(r % g.br, c % g.bc, g.bc);
    }
}

/// Two different positions of a unit hold peers.
pub proof fn lemma_unit_peers(g: Dims, u: int, k: int, l: int)
    requires
        g.ok(),
        g.is_unit(u),
        0 <= k < g.n,
        0 <= l < g.n,
        k != l,
    ensures
        g.peer(g.unit_cell(u, k), g.unit_cell(u, l)),
{
    lemma_unit_cell(g, u, k);
    lemma_unit_cell(g, u, l);
}

/// The three units of a cell.
pub proof fn lemma_cell_units(g: Dims, i: int)
    requires
        g.ok(),
        g.is_cell(i),
    ensures
        g.is_unit(g.row(i)),
        g.in_unit(g.row(i), i),
        g.is_unit(g.n + g.col(i)),
        g.in_unit(g.n + g.col(i), i),
        g.is_unit(2 * g.n + g.box_of(i)),
        g.in_unit(2 * g.n + g.box_of(i), i),
{
    lemma_cell_parts(g, i);
}

/// Two cells are peers exactly when they differ and some unit holds both.
pub proof fn lemma_peer_unit(g: Dims, i: int, j: int)
    requires
        g.ok(),
        g.is_cell(i),
        g.is_cell(j),
    ensures
        g.peer(i, j) == (i != j && exists|u: int|
            g.is_unit(u) && #[trigger] g.in_unit(u, i) && g.in_unit(u, j)),
{
    lemma_cell_units(g, i);
    lemma_cell_units(g, j);
    if g.peer(i, j) {
        if g.row(i) == g.row(j) {
            assert(g.in_unit(g.row(i), i) && g.in_unit(g.row(i), j));
        } else if g.col(i) == g.col(j) {
            assert(g.in_unit(g.n + g.col(i), i) && g.in_unit(g.n + g.col(i), j));
        } else {
            assert(g.in_unit(2 * g.n + g.box_of(i), i) && g.in_unit(2 * g.n + g.box_of(i), j));
        }
    }
}

} // verus!
