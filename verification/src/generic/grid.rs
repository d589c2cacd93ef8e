//! A grid of candidates with `N` digits and boxes of `BR` rows and `BC` columns.
//!
//! Each cell holds the mask of the digits that are still possible in it, and the
//! digit that was placed in it, if any.

use super::geometry;
use super::geometry::Dims;
use super::masks;
use super::peer_tables;
use super::peer_tables::PeerTable;
use super::solutions;
use std::sync::Arc;
use vstd::prelude::*;
use vstd::string::StringSliceAdditionalSpecFns;

verus! {

broadcast use masks::group_masks;

/// Why a placement or an elimination was refused.
#[derive(Debug, Clone, Copy)]
pub enum AssignErr {
    Contradiction,
}

/// A candidate grid.
pub struct Grid<const N: usize, const BR: usize, const BC: usize> {
    /// Mask of the digits that are possible in each cell.
    pub candidates: Vec<u32>,
    /// Digit placed in each cell, `0` where none is.
    pub solved: Vec<u8>,
    /// Number of placements so far.
    pub solved_count: u32,
    /// The peer table of the shape.
    pub table: Arc<PeerTable>,
}

/// `Arc::clone`: a second handle on the same table.
#[verifier::external_body]
fn share(t: &Arc<PeerTable>) -> (r: Arc<PeerTable>)
    ensures
        r == *t,
{
    t.clone()
}

/// The digit that a character of a puzzle string stands for, `0` for an open cell.
pub open spec fn cell_value(b: u8) -> Option<int> {
    if b == 0x2e || b == 0x30 {
        Some(0)
    } else if 0x31 <= b <= 0x39 {
        Some(b - 0x30)
    } else if 0x41 <= b <= 0x5a {
        Some(b - 0x41 + 10)
    } else if 0x61 <= b <= 0x7a {
        Some(b - 0x61 + 10)
    } else {
        None
    }
}

/// The character that stands for digit `d` in a puzzle string.
pub open spec fn cell_char(d: int) -> char {
    if d == 0 {
        '.'
    } else if d <= 9 {
        (0x30 + d) as char
    } else {
        (0x41 + d - 10) as char
    }
}

/// `s` starts with one readable character for every cell.
pub open spec fn readable(g: Dims, s: Seq<u8>) -> bool {
    s.len() >= g.cells() && forall|i: int|
        0 <= i < g.cells() ==> cell_value(#[trigger] s[i]) is Some && cell_value(s[i])->0 <= g.n
}

/// The clues of a readable string.
pub open spec fn clues(g: Dims, s: Seq<u8>) -> Seq<int> {
    Seq::new(g.cells() as nat, |i: int| cell_value(s[i])->0)
}

/// Digit `d` is possible in cell `i` next to the clues `v`.
pub open spec fn clue_leaves(g: Dims, v: Seq<int>, i: int, d: int) -> bool {
    g.is_digit(d) && if v[i] != 0 {
        d == v[i]
    } else {
        forall|j: int| #[trigger] g.peer(i, j) ==> v[j] != d
    }
}

/// No two peers hold the same clue, and every open cell has a possible digit.
pub open spec fn clues_agree(g: Dims, v: Seq<int>) -> bool {
    &&& forall|i: int, j: int| #[trigger] g.peer(i, j) && v[i] != 0 ==> v[i] != v[j]
    &&& forall|i: int|
        g.is_cell(i) && #[trigger] v[i] == 0 ==> exists|d: int| #[trigger] clue_leaves(g, v, i, d)
}

/// Digit `d` is possible in cell `j` next to the first `upto` clues of `v`.
spec fn prefix_leaves(g: Dims, v: Seq<int>, upto: int, j: int, d: int) -> bool {
    g.is_digit(d) && if j < upto && v[j] != 0 {
        d == v[j]
    } else {
        forall|k: int| k < upto && #[trigger] g.peer(j, k) ==> v[k] != d
    }
}

spec fn holds_prefix(g: Dims, v: Seq<int>, upto: int, c: Seq<u32>, solved: Seq<u8>) -> bool {
    &&& forall|j: int, d: int|
        g.is_cell(j) ==> #[trigger] masks::holds(c[j], d) == prefix_leaves(g, v, upto, j, d)
    &&& forall|j: int|
        g.is_cell(j) ==> (#[trigger] solved[j]) == if j < upto {
            v[j]
        } else {
            0
        }
}

/// A clue that can be placed extends the prefix by one.
proof fn lemma_prefix_step(g: Dims, v: Seq<int>, i: int, c: Seq<u32>, solved: Seq<u8>, d: u8)
    requires
        solutions::well_formed(g, c, solved),
        holds_prefix(g, v, i, c, solved),
        g.is_cell(i),
        v[i] == d,
        g.is_digit(d as int),
    ensures
        holds_prefix(
            g,
            v,
            i + 1,
            solutions::assigned(g, c, solved, i, d as int),
            solved.update(i, d),
        ),
{
    let b = solutions::assigned(g, c, solved, i, d as int);
    assert forall|j: int, e: int|
        g.is_cell(j) implies #[trigger] masks::holds(b[j], e) == prefix_leaves(g, v, i + 1, j, e) by {
        assert(masks::holds(c[j], e) == prefix_leaves(g, v, i, j, e));
        if j != i && (j >= i || v[j] == 0) {
            assert(solved[j] == 0);
            if g.peer(j, i) {
                assert(g.peer(i, j));
                if masks::holds(b[j], e) {
                    assert(e != d);
                    assert(prefix_leaves(g, v, i + 1, j, e));
                }
            } else {
                assert(!g.peer(i, j));
            }
        } else if j != i {
            assert(solved[j] != 0);
        }
    }
}

/// A clue that cannot be placed disagrees with the others.
proof fn lemma_prefix_blocked(g: Dims, v: Seq<int>, i: int, c: Seq<u32>, solved: Seq<u8>, d: int)
    requires
        solutions::well_formed(g, c, solved),
        holds_prefix(g, v, i, c, solved),
        v.len() == g.cells(),
        forall|j: int| g.is_cell(j) ==> 0 <= #[trigger] v[j] <= g.n,
        g.is_cell(i),
        v[i] == d,
        g.is_digit(d),
        !solutions::can_assign(g, c, solved, i, d),
    ensures
        !clues_agree(g, v),
{
    if clues_agree(g, v) {
        if !masks::holds(c[i], d) {
            assert(!prefix_leaves(g, v, i, i, d));
            let k = choose|k: int| k < i && #[trigger] g.peer(i, k) && v[k] == d;
            assert(g.peer(i, k));
            assert(false);
        }
        let p = choose|p: int|
            g.peer(i, p) && #[trigger] solutions::blocks(g, c, solved, i, d, p);
        assert(g.peer(p, i));
        if solved[p] == 0 {
            let e = if v[p] == 0 {
                choose|e: int| #[trigger] clue_leaves(g, v, p, e)
            } else {
                v[p]
            };
            assert(clue_leaves(g, v, p, e));
            assert(prefix_leaves(g, v, i, p, e)) by {
                assert forall|k: int| k < i && #[trigger] g.peer(p, k) implies v[k] != e by {
                    if v[p] != 0 {
                        assert(v[p] != v[k]);
                    }
                }
            }
            assert(masks::holds(c[p], e));
            assert(!masks::holds(c[p] & !masks::bit(d), e));
            assert(e == d);
            assert(v[i] != v[p]);
        } else {
            assert(masks::holds(c[p], d));
            assert(prefix_leaves(g, v, i, p, d));
        }
    }
}

impl<const N: usize, const BR: usize, const BC: usize> Clone for Grid<N, BR, BC> {
    fn clone(&self) -> (r: Self)
        ensures
            r.candidates@ == self.candidates@,
            r.solved@ == self.solved@,
            r.solved_count == self.solved_count,
            r.table == self.table,
    {
        let candidates = self.candidates.clone();
        let solved = self.solved.clone();
        assert(candidates@ =~= self.candidates@);
        assert(solved@ =~= self.solved@);
        Grid { candidates, solved, solved_count: self.solved_count, table: share(&self.table) }
    }
}

impl<const N: usize, const BR: usize, const BC: usize> Grid<N, BR, BC> {
    /// The shape of the grid.
    pub open spec fn shape() -> Dims {
        Dims::of(N, BR, BC)
    }

    /// The peer table is that of the shape.
    pub open spec fn table_ok(&self) -> bool {
        self.table.wf(Self::shape())
    }

    /// Lengths and masks are those of the shape, and a placed digit is the only
    /// candidate of its cell.
    pub open spec fn wf(&self) -> bool {
        &&& solutions::well_formed(Self::shape(), self.candidates@, self.solved@)
        &&& self.table_ok()
    }

    /// Every cell has a candidate, and no peer of a placed digit has that digit as a
    /// candidate.
    pub open spec fn settled(&self) -> bool {
        solutions::settled(Self::shape(), self.candidates@, self.solved@)
    }

    /// The placements were all made in open cells.
    pub open spec fn tallied(&self) -> bool {
        self.solved_count == solutions::placed(self.solved@)
    }

    /// All three: what a grid is that was built by placements which succeeded.
    pub open spec fn sound(&self) -> bool {
        self.wf() && self.settled() && self.tallied()
    }

    /// The grid shows the clues `v`: they are what is placed in it, and the candidates of
    /// an open cell are the digits that no peer holds as a clue.
    pub open spec fn shows(&self, v: Seq<int>) -> bool {
        &&& self.sound()
        &&& solutions::digits_of(self.solved@) == v
        &&& forall|i: int, d: int|
            Self::shape().is_cell(i) ==> #[trigger] masks::holds(self.candidates@[i], d)
                == clue_leaves(Self::shape(), v, i, d)
    }

    /// The solutions that the candidates leave open.
    pub open spec fn solutions(&self) -> Set<Seq<int>> {
        solutions::solutions(Self::shape(), self.candidates@)
    }

    /// `other` holds the same candidates and placements.
    pub open spec fn same(&self, other: &Self) -> bool {
        &&& self.candidates@ == other.candidates@
        &&& self.solved@ == other.solved@
        &&& self.solved_count == other.solved_count
    }

    /// The mask of all digits.
    pub fn all_digits_mask() -> (m: u32)
        requires
            N <= 31,
        ensures
            m == masks::full(N as int),
    {
        masks::full_mask(N)
    }

    /// The grid in which every digit is possible everywhere.
    pub fn empty() -> (g: Self)
        requires
            Self::shape().ok(),
        ensures
            g.sound(),
            g.candidates@ == Seq::new((N * N) as nat, |i: int| masks::full(N as int)),
            g.solved@ == Seq::new((N * N) as nat, |i: int| 0u8),
            g.solved_count == 0,
    {
        Self::empty_on(peer_tables::get(N, BR, BC))
    }

    /// The empty grid on a table that is already there.
    pub(crate) fn empty_on(table: Arc<PeerTable>) -> (g: Self)
        requires
            Self::shape().ok(),
            table.wf(Self::shape()),
        ensures
            g.sound(),
            g.candidates@ == Seq::new((N * N) as nat, |i: int| masks::full(N as int)),
            g.solved@ == Seq::new((N * N) as nat, |i: int| 0u8),
            g.solved_count == 0,
    {
            proof {
            peer_tables::lemma_cells_bound(Self::shape());
        }
        let nn: usize = N * N;
        let mask: u32 = Self::all_digits_mask();
        let g = Grid { candidates: vec![mask; nn], solved: vec![0u8; nn], solved_count: 0, table };
        proof {
            assert(g.candidates@ =~= Seq::new((N * N) as nat, |i: int| masks::full(N as int)));
            assert(g.solved@ =~= Seq::new((N * N) as nat, |i: int| 0u8));
            lemma_placed_zero(g.solved@);
            assert(masks::holds(masks::full(N as int), 1));
        }
        g
    }

    /// Reads one character per cell from the start of `s`: `.` or `0` is an open
    /// cell, `1` to `9` are those digits, letters of either case go on from ten.
    ///
    /// `None` if a character cannot be read or names a digit above `N`, if two
    /// peers hold the same clue, or if a cell has no possible digit left.
    pub fn from_str(s: &str) -> (r: Option<Self>)
        requires
            Self::shape().ok(),
        ensures
            r is Some == (readable(Self::shape(), s.spec_bytes()) && clues_agree(
                Self::shape(),
                clues(Self::shape(), s.spec_bytes()),
            )),
            r matches Some(g) ==> g.shows(clues(Self::shape(), s.spec_bytes())),
    {
        Self::from_bytes(s.as_bytes())
    }

    /// Reads a puzzle from the bytes of its string.
    pub fn from_bytes(bytes: &[u8]) -> (r: Option<Self>)
        requires
            Self::shape().ok(),
        ensures
            r is Some == (readable(Self::shape(), bytes@) && clues_agree(
                Self::shape(),
                clues(Self::shape(), bytes@),
            )),
            r matches Some(g) ==> g.shows(clues(Self::shape(), bytes@)),
    {
        let ghost sh = Self::shape();
        proof {
            peer_tables::lemma_cells_bound(sh);
        }
        let nn: usize = N * N;
        if bytes.len() < nn {
            return None;
        }
        let mut v: Vec<u8> = Vec::new();
        let mut i: usize = 0;
        while i < nn
            invariant
                sh == Self::shape(),
                nn == sh.cells(),
                bytes@.len() >= nn,
                i <= nn,
                v@.len() == i,
                forall|j: int|
                    0 <= j < i ==> cell_value(#[trigger] bytes@[j]) == Some(v@[j] as int) && v@[j] <= N,
            decreases nn - i,
        {
            let b: u8 = bytes[i];
            let d: u8 = if b == 0x2e || b == 0x30 {
                0
            } else if 0x31 <= b && b <= 0x39 {
                b - 0x30
            } else if 0x41 <= b && b <= 0x5a {
                10 + (b - 0x41)
            } else if 0x61 <= b && b <= 0x7a {
                10 + (b - 0x61)
            } else {
                assert(cell_value(bytes@[i as int]) is None);
                return None;
            };
            assert(cell_value(bytes@[i as int]) == Some(d as int));
            if d as usize > N {
                return None;
            }
            v.push(d);
            i += 1;
        }
        proof {
            assert(readable(sh, bytes@));
            assert(solutions::digits_of(v@) =~= clues(sh, bytes@)) by {
                assert forall|j: int| 0 <= j < nn implies v@[j] as int == clues(sh, bytes@)[j] by {
                    assert(cell_value(bytes@[j]) == Some(v@[j] as int));
                }
            }
            assert forall|j: int| 0 <= j < v@.len() implies (#[trigger] v@[j]) <= N by {
                assert(cell_value(bytes@[j]) == Some(v@[j] as int));
            }
        }
        Self::from_clues(&v)
    }

    /// The grid with the given clues, `0` for an open cell.
    pub fn from_clues(v: &Vec<u8>) -> (r: Option<Self>)
        requires
            Self::shape().ok(),
            v@.len() == N * N,
            forall|i: int| 0 <= i < v@.len() ==> (#[trigger] v@[i]) <= N,
        ensures
            r is Some == clues_agree(Self::shape(), solutions::digits_of(v@)),
            r matches Some(g) ==> g.shows(solutions::digits_of(v@)),
    {
        Self::from_clues_on(peer_tables::get(N, BR, BC), v)
    }

    /// The grid with the given clues, on a table that is already there.
    pub(crate) fn from_clues_on(table: Arc<PeerTable>, v: &Vec<u8>) -> (r: Option<Self>)
        requires
            Self::shape().ok(),
            table.wf(Self::shape()),
            v@.len() == N * N,
            forall|i: int| 0 <= i < v@.len() ==> (#[trigger] v@[i]) <= N,
        ensures
            r is Some == clues_agree(Self::shape(), solutions::digits_of(v@)),
            r matches Some(g) ==> g.shows(solutions::digits_of(v@)),
    {
        let ghost sh = Self::shape();
        let ghost w = solutions::digits_of(v@);
        proof {
            peer_tables::lemma_cells_bound(sh);
        }
        let nn: usize = N * N;
        let mut g = Grid::<N, BR, BC>::empty_on(table);
        let mut i: usize = 0;
        while i < nn
            invariant
                sh == Self::shape(),
                sh.ok(),
                nn == sh.cells(),
                nn <= 961,
                v@.len() == nn,
                w == solutions::digits_of(v@),
                forall|j: int| 0 <= j < v@.len() ==> (#[trigger] v@[j]) <= N,
                i <= nn,
                g.sound(),
                holds_prefix(sh, w, i as int, g.candidates@, g.solved@),
            decreases nn - i,
        {
            let d: u8 = v[i];
            let ghost c0 = g.candidates@;
            let ghost s0 = g.solved@;
            if d != 0 {
                assert(s0[i as int] == 0);
                proof {
                    solutions::lemma_placed_bound(s0);
                }
                if g.assign(i, d).is_err() {
                    proof {
                        assert forall|j: int| sh.is_cell(j) implies 0 <= #[trigger] w[j] <= sh.n by {
                            assert(v@[j] <= N);
                        }
                        lemma_prefix_blocked(sh, w, i as int, c0, s0, d as int);
                    }
                    return None;
                }
                proof {
                    lemma_prefix_step(sh, w, i as int, c0, s0, d);
                }
            } else {
                assert(holds_prefix(sh, w, i as int + 1, g.candidates@, g.solved@)) by {
                    assert forall|j: int, e: int|
                        sh.is_cell(j) implies #[trigger] masks::holds(g.candidates@[j], e)
                        == prefix_leaves(sh, w, i as int + 1, j, e) by {
                        assert(masks::holds(c0[j], e) == prefix_leaves(sh, w, i as int, j, e));
                        if prefix_leaves(sh, w, i as int, j, e) {
                            assert(prefix_leaves(sh, w, i as int + 1, j, e));
                        }
                    }
                }
            }
            i += 1;
        }
        proof {
            assert(solutions::digits_of(g.solved@) =~= w);
            assert forall|j: int, d: int| sh.is_cell(j) implies #[trigger] masks::holds(
                g.candidates@[j],
                d,
            ) == clue_leaves(sh, w, j, d) by {
                assert(masks::holds(g.candidates@[j], d) == prefix_leaves(sh, w, nn as int, j, d));
                if prefix_leaves(sh, w, nn as int, j, d) && w[j] == 0 {
                    assert forall|k: int| #[trigger] sh.peer(j, k) implies w[k] != d by {}
                }
            }
            lemma_sound_clues_agree(sh, w, g.candidates@, g.solved@);
        }
        Some(g)
    }

    /// One character per cell: `.` for an open cell, `1` to `9`, then `A` onwards.
    pub fn to_string_grid(&self) -> (r: String)
        requires
            self.wf(),
        ensures
            r@ == Seq::new((N * N) as nat, |i: int| cell_char(self.solved@[i] as int)),
    {
        proof {
            peer_tables::lemma_cells_bound(Self::shape());
        }
        let nn: usize = N * N;
        let mut s = String::new();
        let mut i: usize = 0;
        while i < nn
            invariant
                nn == N * N,
                self.wf(),
                i <= nn,
                s@ == Seq::new(i as nat, |j: int| cell_char(self.solved@[j] as int)),
            decreases nn - i,
        {
            let d: u8 = self.solved[i];
            if d == 0 {
                s.push('.');
            } else if d <= 9 {
                s.push((0x30 + d) as char);
            } else {
                s.push((0x41 + (d - 10)) as char);
            }
            assert(s@ =~= Seq::new((i + 1) as nat, |j: int| cell_char(self.solved@[j] as int)));
            i += 1;
        }
        s
    }

    /// As many placements as cells were made.
    pub fn is_solved(&self) -> (r: bool)
        requires
            Self::shape().ok(),
        ensures
            r == (self.solved_count == N * N),
    {
        proof {
            peer_tables::lemma_cells_bound(Self::shape());
        }
        self.solved_count as usize == N * N
    }

    /// The number of candidates of a cell.
    pub fn pop(&self, cell: usize) -> (r: u32)
        requires
            cell < self.candidates@.len(),
        ensures
            r == masks::digits(self.candidates@[cell as int]).len(),
    {
        self.candidates[cell].count_ones()
    }

    /// The peer table of the grid's shape.
    pub fn table(&self) -> (t: &PeerTable)
        requires
            self.wf(),
        ensures
            t.wf(Self::shape()),
    {
        &self.table
    }

    /// A second handle on the peer table.
    pub fn table_arc(&self) -> (t: Arc<PeerTable>)
        requires
            self.wf(),
        ensures
            t.wf(Self::shape()),
    {
        share(&self.table)
    }

    /// Places digit `d` in `cell` and takes it from the candidates of the open
    /// peers, in ascending order.
    ///
    /// Refused if `d` is no candidate of the cell; then nothing changes. Refused
    /// also at the first peer that would be left without a candidate or already
    /// holds `d`; then what was done up to that peer stays done.
    pub fn assign(&mut self, cell: usize, d: u8) -> (r: Result<(), AssignErr>)
        requires
            old(self).wf(),
            cell < N * N,
            1 <= d <= 32,
            old(self).solved_count < u32::MAX,
        ensures
            final(self).wf(),
            r is Ok == solutions::can_assign(
                Self::shape(),
                old(self).candidates@,
                old(self).solved@,
                cell as int,
                d as int,
            ),
            !masks::holds(old(self).candidates@[cell as int], d as int) ==> final(self).same(
                old(self),
            ),
            masks::holds(old(self).candidates@[cell as int], d as int) ==> {
                &&& final(self).solved@ == old(self).solved@.update(cell as int, d)
                &&& final(self).solved_count == old(self).solved_count + 1
            },
            r is Ok ==> final(self).candidates@ == solutions::assigned(
                Self::shape(),
                old(self).candidates@,
                old(self).solved@,
                cell as int,
                d as int,
            ),
            r is Ok && old(self).settled() ==> final(self).settled(),
            old(self).tallied() && old(self).solved@[cell as int] == 0 ==> final(self).tallied(),
            r is Err && masks::holds(old(self).candidates@[cell as int], d as int) ==> exists|p: int|
                {
                    &&& #[trigger] solutions::blocks(
                        Self::shape(),
                        old(self).candidates@,
                        old(self).solved@,
                        cell as int,
                        d as int,
                        p,
                    )
                    &&& forall|q: int|
                        q < p ==> !#[trigger] solutions::blocks(
                            Self::shape(),
                            old(self).candidates@,
                            old(self).solved@,
                            cell as int,
                            d as int,
                            q,
                        )
                    &&& final(self).candidates@ == solutions::placed_until(
                        Self::shape(),
                        old(self).candidates@,
                        old(self).solved@,
                        cell as int,
                        d as int,
                        p,
                    )
                },
    {
            let ghost sh = Self::shape();
        let ghost c0 = self.candidates@;
        let ghost s0 = self.solved@;
        let ghost ce = cell as int;
        let ghost di = d as int;
        proof {
            peer_tables::lemma_cells_bound(sh);
            solutions::lemma_placed_bound(s0);
            if 1 <= d <= N {
                solutions::lemma_placed_update(s0, ce, d);
            }
        }
        let bit: u32 = masks::digit_bit(d);
        if self.candidates[cell] & bit == 0 {
            assert(!masks::holds(c0[ce], di));
            return Err(AssignErr::Contradiction);
        }
        assert(masks::holds(c0[ce], di));
        assert(sh.is_digit(di));
        self.candidates.set(cell, bit);
        self.solved.set(cell, d);
        self.solved_count += 1;
        assert(self.candidates@ =~= solutions::placed_until(sh, c0, s0, ce, di, -1));
        let n_peers: usize = self.table.cells[cell].peers.len();
        let ghost peers = self.table.cells@[ce].peers@;
        let ghost last: int = -1;
        assert(self.table.cells@[ce].wf(sh, ce));
        let mut k: usize = 0;
        while k < n_peers
            invariant
                sh == Self::shape(),
                self.table.wf(sh),
                sh.ok(),
                cell < self.table.cells@.len(),
                ce == cell,
                di == d,
                sh.is_digit(di),
                c0.len() == sh.cells(),
                s0.len() == sh.cells(),
                solutions::well_formed(sh, c0, s0),
                masks::holds(c0[ce], di),
                bit == masks::bit(di),
                peers == self.table.cells@[ce].peers@,
                n_peers == peers.len(),
                peer_tables::lists_peers(sh, ce, peers, sh.cells()),
                k <= n_peers,
                last == if k == 0 {
                    -1
                } else {
                    peers[k - 1] as int
                },
                forall|q: int| q <= last ==> !#[trigger] solutions::blocks(sh, c0, s0, ce, di, q),
                self.candidates@ == solutions::placed_until(sh, c0, s0, ce, di, last),
                self.solved@ == s0.update(ce, d),
                self.solved_count == old(self).solved_count + 1,
                old(self).candidates@ == c0,
                old(self).solved@ == s0,
                old(self).tallied() && s0[ce] == 0 ==> self.tallied(),
            decreases n_peers - k,
        {
            let p: usize = self.table.cells[cell].peers[k] as usize;
            let ghost pi = p as int;
            assert(peers[k as int] == p && sh.peer(ce, pi));
            assert(last < pi);
            assert forall|q: int| last < q < pi implies !sh.peer(ce, q) by {
                if sh.peer(ce, q) {
                    assert(peers.contains(q as u16));
                    let l = choose|l: int| 0 <= l < peers.len() && peers[l] == q as u16;
                    if l >= k {
                        assert(peers[k as int] <= peers[l]);
                    } else {
                        assert(peers[l] <= peers[k - 1]);
                    }
                }
            }
            let ghost next = solutions::placed_until(sh, c0, s0, ce, di, pi);
            if self.solved[p] == 0 {
                let m: u32 = self.candidates[p] & !bit;
                self.candidates.set(p, m);
                assert(self.candidates@ =~= next);
                if m == 0 {
                    proof {
                        assert(solutions::blocks(sh, c0, s0, ce, di, pi));
                        solutions::lemma_assign_well_formed(sh, c0, s0, ce, d, pi);
                    }
                    return Err(AssignErr::Contradiction);
                }
            } else {
                assert(self.candidates@ =~= next);
                if self.candidates[p] == bit {
                    proof {
                        assert(solutions::blocks(sh, c0, s0, ce, di, pi));
                        solutions::lemma_assign_well_formed(sh, c0, s0, ce, d, pi);
                    }
                    return Err(AssignErr::Contradiction);
                }
            }
            proof {
                last = pi;
            }
            k += 1;
        }
        proof {
            assert forall|q: int| q > last implies !sh.peer(ce, q) by {
                if sh.peer(ce, q) {
                    assert(peers.contains(q as u16));
                    let l = choose|l: int| 0 <= l < peers.len() && peers[l] == q as u16;
                    assert(peers[l] <= peers[n_peers - 1]);
                }
            }
            assert(self.candidates@ =~= solutions::assigned(sh, c0, s0, ce, di));
            solutions::lemma_assign_well_formed(sh, c0, s0, ce, d, sh.cells());
            assert forall|p: int| sh.peer(ce, p) implies !#[trigger] solutions::blocks(
                sh,
                c0,
                s0,
                ce,
                di,
                p,
            ) by {
                if p > last {
                    assert(!sh.peer(ce, p));
                }
            }
            if solutions::settled(sh, c0, s0) {
                solutions::lemma_assign_settled(sh, c0, s0, ce, d);
            }
        }
        Ok(())
    }

    /// Takes digit `d` from the candidates of `cell`.
    ///
    /// `Ok(false)` if it was none of them. Refused, with nothing changed, if `d` is
    /// placed in the cell. Otherwise it is taken away, and refused if that leaves
    /// the cell without a candidate.
    pub fn eliminate(&mut self, cell: usize, d: u8) -> (r: Result<bool, AssignErr>)
        requires
            old(self).wf(),
            cell < N * N,
            1 <= d <= 32,
        ensures
            final(self).wf(),
            final(self).solved@ == old(self).solved@,
            final(self).solved_count == old(self).solved_count,
            r is Ok && old(self).settled() ==> final(self).settled(),
            ({
                let m = old(self).candidates@[cell as int];
                let open = old(self).solved@[cell as int] == 0;
                &&& r is Ok && r->Ok_0 == false <==> !masks::holds(m, d as int)
                &&& r is Ok && r->Ok_0 == true <==> masks::holds(m, d as int) && open && m
                    != masks::bit(d as int)
                &&& final(self).candidates@ == if masks::holds(m, d as int) && open {
                    old(self).candidates@.update(cell as int, m & !masks::bit(d as int))
                } else {
                    old(self).candidates@
                }
            }),
    {
            let ghost c0 = self.candidates@;
        let ghost sh = Self::shape();
        proof {
            masks::lemma_zero(c0[cell as int] & !masks::bit(d as int));
        }
        let bit: u32 = masks::digit_bit(d);
        let m: u32 = self.candidates[cell];
        if m & bit == 0 {
            assert(!masks::holds(m, d as int));
            return Ok(false);
        }
        assert(masks::holds(m, d as int));
        if self.solved[cell] != 0 {
            assert(self.candidates@ =~= c0);
            return Err(AssignErr::Contradiction);
        }
        self.candidates.set(cell, m & !bit);
        proof {
            assert forall|i: int, e: int|
                0 <= i < c0.len() && #[trigger] masks::holds(self.candidates@[i], e) implies sh.is_digit(
                e,
            ) by {
                assert(masks::holds(c0[i], e));
            }
            assert forall|i: int, j: int|
                #[trigger] sh.peer(i, j) && self.solved@[i] != 0 && solutions::settled(
                    sh,
                    c0,
                    self.solved@,
                ) implies !masks::holds(self.candidates@[j], self.solved@[i] as int) by {
                assert(!masks::holds(c0[j], self.solved@[i] as int));
            }
            if m == masks::bit(d as int) {
                assert forall|e: int| !masks::holds(m & !bit, e) by {}
            } else if m & !bit == 0 {
                assert forall|e: int| 1 <= e <= 32 implies masks::holds(m, e) == masks::holds(
                    bit,
                    e,
                ) by {
                    assert(!masks::holds(m & !bit, e));
                }
                masks::lemma_mask_ext(m, bit);
            }
        }
        if self.candidates[cell] == 0 {
            return Err(AssignErr::Contradiction);
        }
        Ok(true)
    }

    /// No unit holds the same placed digit twice.
    pub fn is_consistent(&self) -> (r: bool)
        requires
            self.wf(),
        ensures
            r == forall|i: int, j: int|
                #[trigger] Self::shape().peer(i, j) && self.solved@[i] != 0 ==> self.solved@[i]
                    != self.solved@[j],
    {
            let ghost sh = Self::shape();
        let n_units: usize = self.table.units.len();
        let mut u: usize = 0;
        while u < n_units
            invariant
                self.wf(),
                sh == Self::shape(),
                self.table.wf(sh),
                n_units == self.table.units@.len(),
                u <= n_units,
                forall|v: int, k: int, l: int|
                    0 <= v < u && 0 <= k < l < sh.n && self.solved@[#[trigger] sh.unit_cell(v, k)] != 0
                        ==> self.solved@[sh.unit_cell(v, k)] != self.solved@[#[trigger] sh.unit_cell(
                        v,
                        l,
                    )],
            decreases n_units - u,
        {
            let mut seen: u32 = 0;
            let mut k: usize = 0;
            assert(peer_tables::lists_unit(sh, u as int, self.table.units@[u as int]@));
            while k < N
                invariant
                    self.wf(),
                    sh == Self::shape(),
                    self.table.wf(sh),
                    u < self.table.units@.len(),
                    peer_tables::lists_unit(sh, u as int, self.table.units@[u as int]@),
                    k <= N,
                    forall|d: int|
                        #[trigger] masks::holds(seen, d) ==> exists|l: int|
                            0 <= l < k && self.solved@[#[trigger] sh.unit_cell(u as int, l)] == d,
                    forall|l: int|
                        0 <= l < k && self.solved@[#[trigger] sh.unit_cell(u as int, l)] != 0
                            ==> masks::holds(seen, self.solved@[sh.unit_cell(u as int, l)] as int),
                    forall|l: int, m: int|
                        0 <= l < m < k && self.solved@[#[trigger] sh.unit_cell(u as int, l)] != 0
                            ==> self.solved@[sh.unit_cell(u as int, l)]
                            != self.solved@[#[trigger] sh.unit_cell(u as int, m)],
                decreases N - k,
            {
                proof {
                    geometry::lemma_unit_cell(sh, u as int, k as int);
                    assert(self.table.units@[u as int]@[k as int] == sh.unit_cell(
                        u as int,
                        k as int,
                    ));
                }
                let ghost seen0 = seen;
                let c: usize = self.table.units[u][k] as usize;
                let d: u8 = self.solved[c];
                if d != 0 {
                    let bit: u32 = masks::digit_bit(d);
                    if seen & bit != 0 {
                        proof {
                            assert(masks::holds(seen, d as int));
                            let l = choose|l: int|
                                0 <= l < k && self.solved@[#[trigger] sh.unit_cell(u as int, l)]
                                    == d;
                            geometry::lemma_unit_peers(sh, u as int, l, k as int);
                        }
                        return false;
                    }
                    assert(!masks::holds(seen, d as int));
                    seen = seen | bit;
                    proof {
                        assert forall|e: int| #[trigger] masks::holds(seen, e) implies exists|l: int|
                            0 <= l < k + 1 && self.solved@[#[trigger] sh.unit_cell(u as int, l)]
                                == e by {
                            if e == d {
                                assert(self.solved@[sh.unit_cell(u as int, k as int)] == e);
                            } else {
                                assert(masks::holds(seen0, e));
                            }
                        }
                    }
                }
                k += 1;
            }
            u += 1;
        }
        proof {
            assert forall|i: int, j: int|
                #[trigger] sh.peer(i, j) && self.solved@[i] != 0 implies self.solved@[i]
                != self.solved@[j] by {
                geometry::lemma_peer_unit(sh, i, j);
                let v = choose|v: int|
                    sh.is_unit(v) && #[trigger] sh.in_unit(v, i) && sh.in_unit(v, j);
                geometry::lemma_unit_pos(sh, v, i);
                geometry::lemma_unit_pos(sh, v, j);
                let k = sh.unit_pos(v, i);
                let l = sh.unit_pos(v, j);
                assert(sh.unit_cell(v, k) == i && sh.unit_cell(v, l) == j);
            }
        }
        true
    }
}

/// `String::push`: appends one character.
pub assume_specification[ String::push ](s: &mut String, c: char)
    ensures
        final(s)@ == old(s)@.push(c),
;

proof fn lemma_placed_zero(s: Seq<u8>)
    requires
        forall|i: int| 0 <= i < s.len() ==> #[trigger] s[i] == 0,
    ensures
        solutions::placed(s) == 0,
    decreases s.len(),
{
    if s.len() > 0 {
        let t = s.drop_last();
        assert forall|i: int| 0 <= i < t.len() implies #[trigger] t[i] == 0 by {
            assert(t[i] == s[i]);
        }
        lemma_placed_zero(t);
    }
}

/// The solutions that hold the clues `v`.
pub open spec fn completions(g: Dims, v: Seq<int>) -> Set<Seq<int>> {
    Set::new(
        |s: Seq<int>|
            solutions::is_solution(g, s) && forall|i: int|
                0 <= i < s.len() && #[trigger] v[i] != 0 ==> s[i] == v[i],
    )
}

/// The solutions of a grid that shows clues are those that hold the clues.
pub proof fn lemma_shows_solutions<const N: usize, const BR: usize, const BC: usize>(
    x: Grid<N, BR, BC>,
    v: Seq<int>,
)
    requires
        x.shows(v),
    ensures
        x.solutions() =~= completions(Grid::<N, BR, BC>::shape(), v),
{
    let g = Grid::<N, BR, BC>::shape();
    let c = x.candidates@;
    assert forall|s: Seq<int>| x.solutions().contains(s) implies completions(g, v).contains(s) by {
        assert forall|i: int| 0 <= i < s.len() && #[trigger] v[i] != 0 implies s[i] == v[i] by {
            assert(masks::holds(c[i], s[i]));
            assert(clue_leaves(g, v, i, s[i]));
        }
    }
    assert forall|s: Seq<int>| completions(g, v).contains(s) implies x.solutions().contains(s) by {
        assert forall|i: int| 0 <= i < s.len() implies masks::holds(c[i], #[trigger] s[i]) by {
            assert(clue_leaves(g, v, i, s[i])) by {
                assert(g.is_digit(s[i]));
                if v[i] == 0 {
                    assert forall|j: int| #[trigger] g.peer(i, j) implies v[j] != s[i] by {
                        assert(s[i] != s[j]);
                    }
                }
            }
        }
    }
}

/// Clues that some solution holds agree.
pub proof fn lemma_held_clues_agree(g: Dims, v: Seq<int>, s: Seq<int>)
    requires
        g.ok(),
        completions(g, v).contains(s),
    ensures
        clues_agree(g, v),
{
    assert forall|i: int, j: int| #[trigger] g.peer(i, j) && v[i] != 0 implies v[i] != v[j] by {
        assert(s[i] != s[j]);
    }
    assert forall|i: int| g.is_cell(i) && #[trigger] v[i] == 0 implies exists|d: int|
        #[trigger] clue_leaves(g, v, i, d) by {
        assert(g.is_digit(s[i]));
        assert forall|j: int| #[trigger] g.peer(i, j) implies v[j] != s[i] by {
            assert(s[i] != s[j]);
        }
        assert(clue_leaves(g, v, i, s[i]));
    }
}

/// The clues of a grid that was read agree.
proof fn lemma_sound_clues_agree(g: Dims, v: Seq<int>, c: Seq<u32>, solved: Seq<u8>)
    requires
        solutions::well_formed(g, c, solved),
        solutions::settled(g, c, solved),
        solutions::digits_of(solved) == v,
        forall|i: int, d: int|
            g.is_cell(i) ==> #[trigger] masks::holds(c[i], d) == clue_leaves(g, v, i, d),
    ensures
        clues_agree(g, v),
{
    assert forall|i: int, j: int| #[trigger] g.peer(i, j) && v[i] != 0 implies v[i] != v[j] by {
        assert(!masks::holds(c[j], solved[i] as int));
        if v[j] == v[i] {
            assert(masks::holds(c[j], v[j]) == clue_leaves(g, v, j, v[j]));
        }
    }
    assert forall|i: int| g.is_cell(i) && #[trigger] v[i] == 0 implies exists|d: int|
        #[trigger] clue_leaves(g, v, i, d) by {
        assert(c[i] != 0);
        let d = masks::lemma_lowest(c[i]);
        assert(clue_leaves(g, v, i, d));
    }
}

/// A grid is read back from its text: the text is readable, and its clues are what is placed.
pub proof fn law_text_is_read_back<const N: usize, const BR: usize, const BC: usize>(
    x: Grid<N, BR, BC>,
    text: Seq<char>,
)
    requires
        x.wf(),
        text == Seq::new((N * N) as nat, |i: int| cell_char(x.solved@[i] as int)),
    ensures
        readable(Grid::<N, BR, BC>::shape(), vstd::utf8::encode_utf8(text)),
        clues(Grid::<N, BR, BC>::shape(), vstd::utf8::encode_utf8(text)) == solutions::digits_of(
            x.solved@,
        ),
{
    let g = Grid::<N, BR, BC>::shape();
    let bytes = vstd::utf8::encode_utf8(text);
    assert forall|i: int| 0 <= i < text.len() implies '\0' <= #[trigger] text[i] <= '\u{7f}' by {
        assert(x.solved@[i] <= N);
    }
    vstd::utf8::is_ascii_chars_encode_utf8(text);
    assert forall|i: int| 0 <= i < g.cells() implies cell_value(#[trigger] bytes[i]) == Some(
        x.solved@[i] as int,
    ) by {
        assert(bytes[i] == text[i] as u8);
        assert(x.solved@[i] <= N);
    }
    assert(clues(g, bytes) =~= solutions::digits_of(x.solved@));
}

} // verus!
