//! Precomputed units and peers of a grid shape.

use super::geometry;
use super::geometry::Dims;
use std::sync::Arc;
use vstd::prelude::*;

verus! {

/// What the table knows of one cell.
pub struct CellInfo {
    pub row: u16,
    pub col: u16,
    pub block: u16,
    /// The peers of the cell in ascending order.
    pub peers: Vec<u16>,
}

/// Units and peers of every cell of one grid shape.
pub struct PeerTable {
    pub cells: Vec<CellInfo>,
    /// The cells of each unit: rows, then columns, then boxes.
    pub units: Vec<Vec<u16>>,
}

/// `s` lists the peers of cell `i` that are below `bound`, in ascending order.
pub open spec fn lists_peers(g: Dims, i: int, s: Seq<u16>, bound: int) -> bool {
    &&& forall|k: int| 0 <= k < s.len() ==> (#[trigger] s[k]) < bound && g.peer(i, s[k] as int)
    &&& forall|k: int, l: int| 0 <= k < l < s.len() ==> s[k] < s[l]
    &&& forall|j: int| j < bound && #[trigger] g.peer(i, j) ==> s.contains(j as u16)
}

impl CellInfo {
    pub open spec fn wf(self, g: Dims, i: int) -> bool {
        &&& self.row == g.row(i)
        &&& self.col == g.col(i)
        &&& self.block == g.box_of(i)
        &&& lists_peers(g, i, self.peers@, g.cells())
    }
}

/// `s` lists the cells of unit `u` in order.
pub open spec fn lists_unit(g: Dims, u: int, s: Seq<u16>) -> bool {
    &&& s.len() == g.n
    &&& forall|k: int| 0 <= k < g.n ==> #[trigger] s[k] == g.unit_cell(u, k)
}

impl PeerTable {
    /// The table is that of the shape `g`.
    pub open spec fn wf(self, g: Dims) -> bool {
        &&& g.ok()
        &&& self.cells@.len() == g.cells()
        &&& forall|i: int| 0 <= i < self.cells@.len() ==> #[trigger] self.cells@[i].wf(g, i)
        &&& self.units@.len() == 3 * g.n
        &&& forall|u: int| 0 <= u < self.units@.len() ==> lists_unit(g, u, #[trigger] self.units@[u]@)
    }
}

/// The cells of a shape can be counted in a `u16`.
pub proof fn lemma_cells_bound(g: Dims)
    requires
        g.ok(),
    ensures
        g.n <= g.cells() <= 961,
        g.br <= g.n,
        g.bc <= g.n,
{
    assert(g.n <= g.n * g.n <= 961) by (nonlinear_arith)
        requires
            1 <= g.n <= 31,
    ;
    assert(g.br <= g.br * g.bc && g.bc <= g.br * g.bc) by (nonlinear_arith)
        requires
            1 <= g.br,
            1 <= g.bc,
    ;
}

fn box_index(n: usize, br: usize, bc: usize, i: usize) -> (b: usize)
    requires
        Dims::of(n, br, bc).ok(),
        Dims::of(n, br, bc).is_cell(i as int),
    ensures
        b == Dims::of(n, br, bc).box_of(i as int),
        b < n,
{
    proof {
        geometry::lemma_cell_parts(Dims::of(n, br, bc), i as int);
        assert(0 <= (i / n / br) * br) by (nonlinear_arith)
            requires
                0 <= i / n / br,
                0 <= br,
        ;
    }
    (i / n / br) * br + (i % n) / bc
}

fn build_cell(n: usize, br: usize, bc: usize, i: usize) -> (c: CellInfo)
    requires
        Dims::of(n, br, bc).ok(),
        Dims::of(n, br, bc).is_cell(i as int),
    ensures
        c.wf(Dims::of(n, br, bc), i as int),
{
    let ghost g = Dims::of(n, br, bc);
    proof {
        lemma_cells_bound(g);
        geometry::lemma_cell_parts(g, i as int);
    }
    let row: usize = i / n;
    let col: usize = i % n;
    let block: usize = box_index(n, br, bc, i);
    let mut peers: Vec<u16> = Vec::new();
    let mut j: usize = 0;
    while j < n * n
        invariant
            g == Dims::of(n, br, bc),
            g.ok(),
            g.is_cell(i as int),
            n * n <= 961,
            j <= n * n,
            row == g.row(i as int),
            col == g.col(i as int),
            block == g.box_of(i as int),
            lists_peers(g, i as int, peers@, j as int),
        decreases n * n - j,
    {
        let ghost before = peers@;
        if j != i && (j / n == row || j % n == col || box_index(n, br, bc, j) == block) {
            peers.push(j as u16);
            proof {
                assert(g.peer(i as int, j as int));
                assert(peers@[before.len() as int] == j);
            }
        }
        proof {
            assert forall|k: int| 0 <= k < peers@.len() implies (#[trigger] peers@[k]) < j + 1
                && g.peer(i as int, peers@[k] as int) by {
                if k < before.len() {
                    assert(peers@[k] == before[k]);
                }
            }
            assert forall|l: int| l < j + 1 && #[trigger] g.peer(i as int, l) implies peers@.contains(
                l as u16,
            ) by {
                if l < j {
                    assert(before.contains(l as u16));
                    let k = choose|k: int| 0 <= k < before.len() && before[k] == l as u16;
                    assert(peers@[k] == l as u16);
                } else {
                    assert(peers@[before.len() as int] == l as u16);
                }
            }
        }
        j += 1;
    }
    CellInfo { row: row as u16, col: col as u16, block: block as u16, peers }
}

fn build_unit(n: usize, br: usize, bc: usize, u: usize) -> (s: Vec<u16>)
    requires
        Dims::of(n, br, bc).ok(),
        Dims::of(n, br, bc).is_unit(u as int),
    ensures
        lists_unit(Dims::of(n, br, bc), u as int, s@),
{
    let ghost g = Dims::of(n, br, bc);
    proof {
        lemma_cells_bound(g);
    }
    let mut s: Vec<u16> = Vec::new();
    let mut k: usize = 0;
    while k < n
        invariant
            g == Dims::of(n, br, bc),
            g.ok(),
            g.is_unit(u as int),
            n * n <= 961,
            k <= n,
            br <= n,
            bc <= n,
            s@.len() == k,
            forall|l: int| 0 <= l < k ==> #[trigger] s@[l] == g.unit_cell(u as int, l),
        decreases n - k,
    {
        proof {
            geometry::lemma_unit_cell(g, u as int, k as int);
        }
        let c: usize = if u < n {
            proof {
                geometry::lemma_compose_bound(u as int, k as int, n as int, n as int);
                assert(0 <= u * n) by (nonlinear_arith)
                    requires
                        0 <= u,
                        0 <= n,
                ;
            }
            u * n + k
        } else if u < 2 * n {
            proof {
                geometry::lemma_compose_bound(k as int, (u - n) as int, n as int, n as int);
                assert(0 <= k * n) by (nonlinear_arith)
                    requires
                        0 <= k,
                        0 <= n,
                ;
            }
            k * n + (u - n)
        } else {
            let b: usize = u - 2 * n;
            proof {
                let q = b / br;
                assert(0 <= q <= b) by (nonlinear_arith)
                    requires
                        q == b / br,
                        br >= 1,
                        b >= 0,
                ;
                assert(0 <= q * br <= b) by (nonlinear_arith)
                    requires
                        q == b / br,
                        br >= 1,
                        b >= 0,
                ;
                let p = k / bc;
                assert(0 <= p <= k) by (nonlinear_arith)
                    requires
                        p == k / bc,
                        bc >= 1,
                        k >= 0,
                ;
                let x = q * br + p;
                assert(0 <= x * n <= 62 * 31) by (nonlinear_arith)
                    requires
                        0 <= x <= 62,
                        0 <= n <= 31,
                ;
                let y = b % br;
                assert(0 <= y < br) by (nonlinear_arith)
                    requires
                        y == b % br,
                        br >= 1,
                ;
                assert(0 <= y * bc <= 31 * 31) by (nonlinear_arith)
                    requires
                        0 <= y <= 31,
                        0 <= bc <= 31,
                ;
            }
            ((b / br) * br + k / bc) * n + (b % br) * bc + k % bc
        };
        s.push(c as u16);
        k += 1;
    }
    s
}

/// The table of the shape with `n` digits and boxes of `br` by `bc` cells.
pub fn get(n: usize, br: usize, bc: usize) -> (t: Arc<PeerTable>)
    requires
        Dims::of(n, br, bc).ok(),
    ensures
        t.wf(Dims::of(n, br, bc)),
{
    let ghost g = Dims::of(n, br, bc);
    proof {
        lemma_cells_bound(g);
    }
    let mut cells: Vec<CellInfo> = Vec::new();
    let mut i: usize = 0;
    while i < n * n
        invariant
            g == Dims::of(n, br, bc),
            g.ok(),
            n * n <= 961,
            i <= n * n,
            cells@.len() == i,
            forall|j: int| 0 <= j < i ==> #[trigger] cells@[j].wf(g, j),
        decreases n * n - i,
    {
        cells.push(build_cell(n, br, bc, i));
        i += 1;
    }
    let mut units: Vec<Vec<u16>> = Vec::new();
    let mut u: usize = 0;
    while u < 3 * n
        invariant
            g == Dims::of(n, br, bc),
            g.ok(),
            u <= 3 * n,
            units@.len() == u,
            forall|v: int| 0 <= v < u ==> lists_unit(g, v, #[trigger] units@[v]@),
        decreases 3 * n - u,
    {
        units.push(build_unit(n, br, bc, u));
        u += 1;
    }
    Arc::new(PeerTable { cells, units })
}

} // verus!
