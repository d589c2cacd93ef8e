//! What is put out over a whole run: no puzzle twice, and no more than asked for.

use super::climb;
use super::climb::{BxbRater, Climb, ClimbRules};
use super::entries;
use super::entries::{puzzle_hash, BxbEntry};
use super::expand;
use super::tridagon::Tridagons;
use std::collections::HashSet;
use vstd::prelude::*;

verus! {

broadcast use vstd::std_specs::hash::group_hash_axioms;

/// The output of a run so far.
pub struct Stream {
    /// The hashes of what was put out.
    pub seen: HashSet<u128>,
    /// The number of puzzles that were put out.
    pub emitted: usize,
    /// The number of puzzles that are put out at most.
    pub max_outputs: usize,
}

/// Puzzles that are about to be put out, and their hashes.
pub struct Batch {
    pub entries: Vec<BxbEntry>,
    pub hashes: Vec<u128>,
}

/// Those of `es` that are put out: puzzles whose hash was not seen, each hash once, up to
/// `room` of them, in order.
pub open spec fn picked(es: Seq<BxbEntry>, seen: Set<u128>, room: int) -> Seq<BxbEntry>
    decreases es.len(),
{
    if es.len() == 0 || room <= 0 {
        Seq::empty()
    } else {
        let p = es[0].puzzle@;
        let h = entries::hash_text(p);
        if expand::is_puzzle(p) && !seen.contains(h) {
            seq![es[0]] + picked(es.drop_first(), seen.insert(h), room - 1)
        } else {
            picked(es.drop_first(), seen, room)
        }
    }
}

/// The hashes of puzzles.
pub open spec fn hashes_of(es: Seq<BxbEntry>) -> Seq<u128> {
    Seq::new(es.len(), |i: int| entries::hash_text(es[i].puzzle@))
}

impl Batch {
    /// The hashes are those of the puzzles.
    pub open spec fn wf(&self) -> bool {
        self.hashes@ == hashes_of(self.entries@)
    }
}

/// What is picked was not seen, differs from one another, and is no more than there is room
/// for.
pub proof fn law_picked(es: Seq<BxbEntry>, seen: Set<u128>, room: int)
    ensures
        picked(es, seen, room).len() <= es.len(),
        0 <= room ==> picked(es, seen, room).len() <= room,
        hashes_of(picked(es, seen, room)).no_duplicates(),
        forall|i: int|
            0 <= i < picked(es, seen, room).len() ==> expand::is_puzzle(
                (#[trigger] picked(es, seen, room)[i]).puzzle@,
            ) && !seen.contains(entries::hash_text(picked(es, seen, room)[i].puzzle@)),
    decreases es.len(),
{
    let r = picked(es, seen, room);
    if es.len() > 0 && room > 0 {
        let p = es[0].puzzle@;
        let h = entries::hash_text(p);
        if expand::is_puzzle(p) && !seen.contains(h) {
            let t = picked(es.drop_first(), seen.insert(h), room - 1);
            law_picked(es.drop_first(), seen.insert(h), room - 1);
            assert(r == seq![es[0]] + t);
            assert forall|i: int| 0 <= i < r.len() implies expand::is_puzzle(
                (#[trigger] r[i]).puzzle@,
            ) && !seen.contains(entries::hash_text(r[i].puzzle@)) by {
                if i > 0 {
                    assert(r[i] == t[i - 1]);
                }
            }
            assert forall|i: int, j: int| 0 <= i < j < r.len() implies hashes_of(r)[i] != hashes_of(
                r,
            )[j] by {
                assert(r[j] == t[j - 1]);
                if i > 0 {
                    assert(r[i] == t[i - 1]);
                    assert(hashes_of(t)[i - 1] != hashes_of(t)[j - 1]);
                } else {
                    assert(!seen.insert(h).contains(entries::hash_text(t[j - 1].puzzle@)));
                }
            }
        } else {
            law_picked(es.drop_first(), seen, room);
        }
    }
}

impl Stream {
    /// No more was put out than asked for.
    pub open spec fn wf(&self) -> bool {
        self.emitted <= self.max_outputs
    }

    /// The output before anything was put out. The seeds do not count as seen: one that rates
    /// high enough is to be put out too.
    pub fn new(max_outputs: usize) -> (r: Self)
        ensures
            r.wf(),
            r.seen@ == Set::<u128>::empty(),
            r.emitted == 0,
            r.max_outputs == max_outputs,
    {
        Stream { seen: HashSet::new(), emitted: 0, max_outputs }
    }

    /// Takes waiting puzzles over: those that are to be put out, which count as seen from now
    /// on. The rest is dropped.
    pub fn reserve(&mut self, waiting: &mut Vec<BxbEntry>) -> (b: Batch)
        requires
            old(self).wf(),
        ensures
            final(self).wf(),
            final(self).emitted == old(self).emitted,
            final(self).max_outputs == old(self).max_outputs,
            final(waiting)@.len() == 0,
            b.wf(),
            b.entries@ == picked(
                old(waiting)@,
                old(self).seen@,
                old(self).max_outputs - old(self).emitted,
            ),
            final(self).seen@ == old(self).seen@.union(b.hashes@.to_set()),
    {
        let ghost all = waiting@;
        let ghost first = self.seen@;
        let ghost room = self.max_outputs - self.emitted;
        let mut rest: Vec<BxbEntry> = Vec::new();
        std::mem::swap(&mut rest, waiting);
        let mut entries: Vec<BxbEntry> = Vec::new();
        let mut hashes: Vec<u128> = Vec::new();
        while rest.len() > 0 && entries.len() < self.max_outputs - self.emitted
            invariant
                self.emitted == old(self).emitted,
                self.max_outputs == old(self).max_outputs,
                self.emitted <= self.max_outputs,
                room == self.max_outputs - self.emitted,
                first == old(self).seen@,
                hashes@ == hashes_of(entries@),
                entries@.len() <= room,
                picked(all, first, room) == entries@ + picked(rest@, self.seen@, room - entries@.len()),
                self.seen@ == first.union(hashes@.to_set()),
            decreases rest@.len(),
        {
            let ghost was = rest@;
            let ghost seen = self.seen@;
            let ghost got = entries@;
            let ghost hs = hashes@;
            let e: BxbEntry = rest.remove(0);
            assert(rest@ =~= was.drop_first());
            assert(e == was[0]);
            match puzzle_hash(&e.puzzle) {
                Some(h) => {
                    if !self.seen.contains(&h) {
                        self.seen.insert(h);
                        hashes.push(h);
                        entries.push(e);
                        proof {
                            assert(hashes@ =~= hashes_of(entries@));
                            assert(entries@ =~= got + seq![was[0]]);
                            assert(got + (seq![was[0]] + picked(
                                rest@,
                                seen.insert(h),
                                room - got.len() - 1,
                            )) =~= entries@ + picked(rest@, seen.insert(h), room - got.len() - 1));
                            assert(self.seen@ =~= first.union(hashes@.to_set())) by {
                                assert forall|x: u128| hashes@.to_set().contains(x) == (
                                hs.to_set().contains(x) || x == h) by {
                                    if hs.contains(x) {
                                        let k = choose|k: int| 0 <= k < hs.len() && hs[k] == x;
                                        assert(hashes@[k] == x);
                                    }
                                    if hashes@.contains(x) && x != h {
                                        let k = choose|k: int|
                                            0 <= k < hashes@.len() && hashes@[k] == x;
                                        assert(hs[k] == x);
                                    }
                                    assert(hashes@[hs.len() as int] == h);
                                }
                            }
                        }
                    }
                },
                None => {},
            }
        }
        assert(entries@ + Seq::<BxbEntry>::empty() =~= entries@);
        Batch { entries, hashes }
    }

    /// A batch was put out.
    pub fn commit(&mut self, b: &Batch)
        requires
            b.entries@.len() <= old(self).max_outputs - old(self).emitted,
        ensures
            final(self).wf(),
            final(self).seen == old(self).seen,
            final(self).max_outputs == old(self).max_outputs,
            final(self).emitted == old(self).emitted + b.entries@.len(),
    {
        self.emitted = self.emitted + b.entries.len();
    }

    /// A batch could not be put out: its puzzles no longer count as seen.
    pub fn roll_back(&mut self, b: &Batch)
        requires
            old(self).wf(),
        ensures
            final(self).wf(),
            final(self).seen@ == old(self).seen@.difference(b.hashes@.to_set()),
            final(self).emitted == old(self).emitted,
            final(self).max_outputs == old(self).max_outputs,
    {
        let mut k: usize = 0;
        let ghost first = self.seen@;
        while k < b.hashes.len()
            invariant
                k <= b.hashes@.len(),
                self.emitted == old(self).emitted,
                self.max_outputs == old(self).max_outputs,
                self.seen@ == first.difference(b.hashes@.take(k as int).to_set()),
            decreases b.hashes@.len() - k,
        {
            let ghost was = self.seen@;
            self.seen.remove(&b.hashes[k]);
            proof {
                let t = b.hashes@.take(k as int);
                let u = b.hashes@.take(k + 1);
                assert forall|x: u128| u.to_set().contains(x) == (t.to_set().contains(x) || x
                    == b.hashes@[k as int]) by {
                    if t.contains(x) {
                        let j = choose|j: int| 0 <= j < t.len() && t[j] == x;
                        assert(u[j] == x);
                    }
                    if u.contains(x) && x != b.hashes@[k as int] {
                        let j = choose|j: int| 0 <= j < u.len() && u[j] == x;
                        assert(t[j] == x);
                    }
                    assert(u[k as int] == b.hashes@[k as int]);
                }
                assert(self.seen@ =~= first.difference(u.to_set()));
            }
            k += 1;
        }
        assert(b.hashes@.take(k as int) =~= b.hashes@);
    }
}

/// A puzzle at the head of what waits is put out first, if there is room and its hash was not
/// seen; where it waits alone, it is all that is put out.
pub proof fn law_first_is_put_out(es: Seq<BxbEntry>, seen: Set<u128>, room: int)
    requires
        es.len() > 0,
        expand::is_puzzle(es[0].puzzle@),
        !seen.contains(entries::hash_text(es[0].puzzle@)),
        room >= 1,
    ensures
        picked(es, seen, room).len() > 0,
        picked(es, seen, room)[0] == es[0],
        es.len() == 1 ==> picked(es, seen, room) == es,
{
    let h = entries::hash_text(es[0].puzzle@);
    let t = picked(es.drop_first(), seen.insert(h), room - 1);
    assert(picked(es, seen, room) == seq![es[0]] + t);
    if es.len() == 1 {
        assert(seq![es[0]] + t =~= es);
    }
}

/// A seed that rates high enough is put out: a climb from it begins with it waiting, and however
/// far the climb goes, the seed comes first of what a new stream puts out; if the climb takes no
/// step, it is all that is put out.
pub proof fn law_seed_is_put_out<R: BxbRater, T: Tridagons>(
    seed: BxbEntry,
    trace: Seq<Climb>,
    words: Seq<Seq<u64>>,
    rules: ClimbRules,
    before: Set<u128>,
    room: int,
)
    requires
        expand::is_puzzle(seed.puzzle@),
        climb::is_climb::<R, T>(trace, words, rules, before),
        trace[0].wf(),
        trace[0].outputs@.len() == 1,
        trace[0].outputs@[0].same(&seed),
        room >= 1,
    ensures
        ({
            let out = picked(trace.last().outputs@, Set::empty(), room);
            &&& out.len() > 0
            &&& out[0].same(&seed)
            &&& trace.len() == 1 ==> out.len() == 1
        }),
{
    climb::law_whole_climb::<R, T>(trace, words, rules, before);
    let es = trace.last().outputs@;
    assert(es[0] == trace[0].outputs@[0]);
    law_first_is_put_out(es, Set::empty(), room);
}

/// Rolling back a batch undoes reserving it: what counts as seen is what did before.
pub proof fn law_roll_back_undoes(es: Seq<BxbEntry>, seen: Set<u128>, room: int)
    ensures
        ({
            let h = hashes_of(picked(es, seen, room)).to_set();
            seen.union(h).difference(h) == seen
        }),
{
    law_picked(es, seen, room);
    let r = picked(es, seen, room);
    let h = hashes_of(r).to_set();
    assert forall|x: u128| seen.contains(x) implies !h.contains(x) by {
        if hashes_of(r).contains(x) {
            let i = choose|i: int| 0 <= i < hashes_of(r).len() && hashes_of(r)[i] == x;
            assert(!seen.contains(entries::hash_text(r[i].puzzle@)));
        }
    }
    assert(seen.union(h).difference(h) =~= seen);
}

/// The lowest and the highest rating of a batch, where it is not empty.
pub open spec fn is_range(es: Seq<BxbEntry>, lo: u16, hi: u16) -> bool {
    &&& forall|i: int| 0 <= i < es.len() ==> lo <= (#[trigger] es[i]).bxb <= hi
    &&& exists|i: int| 0 <= i < es.len() && (#[trigger] es[i]).bxb == lo
    &&& exists|i: int| 0 <= i < es.len() && (#[trigger] es[i]).bxb == hi
}

/// The lowest and the highest rating, where there is one.
pub fn rating_range(es: &Vec<BxbEntry>) -> (r: Option<(u16, u16)>)
    ensures
        r is Some == (es@.len() > 0),
        r matches Some(x) ==> is_range(es@, x.0, x.1),
{
    if es.len() == 0 {
        return None;
    }
    let mut lo: u16 = es[0].bxb;
    let mut hi: u16 = es[0].bxb;
    let mut i: usize = 1;
    assert(is_range(es@.take(1), lo, hi)) by {
        assert(es@.take(1)[0] == es@[0]);
    }
    while i < es.len()
        invariant
            1 <= i <= es@.len(),
            is_range(es@.take(i as int), lo, hi),
        decreases es@.len() - i,
    {
        let b: u16 = es[i].bxb;
        let ghost t = es@.take(i as int);
        let ghost u = es@.take(i + 1);
        let ghost a = choose|k: int| 0 <= k < t.len() && (#[trigger] t[k]).bxb == lo;
        let ghost z = choose|k: int| 0 <= k < t.len() && (#[trigger] t[k]).bxb == hi;
        if b < lo {
            lo = b;
        }
        if b > hi {
            hi = b;
        }
        proof {
            assert(u[a] == t[a] && u[z] == t[z] && u[i as int] == es@[i as int]);
            assert forall|k: int| 0 <= k < u.len() implies lo <= (#[trigger] u[k]).bxb <= hi by {
                if k < i {
                    assert(u[k] == t[k]);
                }
            }
        }
        i += 1;
    }
    assert(es@.take(i as int) =~= es@);
    Some((lo, hi))
}

} // verus!
