//! Buffers that are emptied at once: every slot carries the number of the round in which it
//! was last written, and what an earlier round wrote does not count.

use vstd::prelude::*;

verus! {

/// A set of indices below a fixed bound.
pub struct StampedSet {
    pub stamps: Vec<u32>,
    pub round: u32,
}

impl StampedSet {
    pub open spec fn wf(&self) -> bool {
        &&& 1 <= self.round
        &&& forall|i: int| 0 <= i < self.stamps@.len() ==> (#[trigger] self.stamps@[i]) <= self.round
    }

    pub open spec fn size(&self) -> nat {
        self.stamps@.len()
    }

    pub open spec fn contains(&self, i: int) -> bool {
        0 <= i < self.size() && self.stamps@[i] == self.round
    }

    /// The empty set of indices below `n`.
    pub fn new(n: usize) -> (r: Self)
        ensures
            r.wf(),
            r.size() == n,
            forall|i: int| !#[trigger] r.contains(i),
    {
        let stamps: Vec<u32> = zeros(n);
        StampedSet { stamps, round: 1 }
    }

    /// Empties the set.
    pub fn clear(&mut self)
        requires
            old(self).wf(),
        ensures
            final(self).wf(),
            final(self).size() == old(self).size(),
            forall|i: int| !#[trigger] final(self).contains(i),
    {
        if self.round == u32::MAX {
            self.stamps = zeros(self.stamps.len());
            self.round = 0;
        }
        self.round = self.round + 1;
    }

    pub fn insert(&mut self, i: usize)
        requires
            old(self).wf(),
            i < old(self).size(),
        ensures
            final(self).wf(),
            final(self).size() == old(self).size(),
            forall|j: int| #[trigger]
                final(self).contains(j) == (j == i || old(self).contains(j)),
    {
        let round: u32 = self.round;
        self.stamps.set(i, round);
    }

    pub fn test(&self, i: usize) -> (r: bool)
        requires
            i < self.size(),
        ensures
            r == self.contains(i as int),
    {
        self.stamps[i] == self.round
    }
}

/// As many zeros as asked for.
fn zeros(n: usize) -> (v: Vec<u32>)
    ensures
        v@.len() == n,
        forall|i: int| 0 <= i < n ==> #[trigger] v@[i] == 0,
{
    let mut v: Vec<u32> = Vec::new();
    while v.len() < n
        invariant
            v@.len() <= n,
            forall|i: int| 0 <= i < v@.len() ==> #[trigger] v@[i] == 0,
        decreases n - v@.len(),
    {
        v.push(0);
    }
    v
}

/// A list of numbers for each index below a fixed bound.
pub struct StampedLists {
    pub lists: Vec<Vec<u32>>,
    pub stamps: Vec<u32>,
    pub round: u32,
}

impl StampedLists {
    pub open spec fn wf(&self) -> bool {
        &&& self.lists@.len() == self.stamps@.len()
        &&& 1 <= self.round
        &&& forall|i: int| 0 <= i < self.stamps@.len() ==> (#[trigger] self.stamps@[i]) <= self.round
        &&& forall|i: int|
            0 <= i < self.stamps@.len() && #[trigger] self.stamps@[i] == self.round
                ==> self.lists@[i]@.len() > 0
    }

    pub open spec fn size(&self) -> nat {
        self.stamps@.len()
    }

    /// The list of an index.
    pub open spec fn at(&self, i: int) -> Seq<u32> {
        if 0 <= i < self.size() && self.stamps@[i] == self.round {
            self.lists@[i]@
        } else {
            Seq::empty()
        }
    }

    /// Empty lists for the indices below `n`.
    pub fn new(n: usize) -> (r: Self)
        ensures
            r.wf(),
            r.size() == n,
            forall|i: int| (#[trigger] r.at(i)).len() == 0,
    {
        let stamps: Vec<u32> = zeros(n);
        let mut lists: Vec<Vec<u32>> = Vec::new();
        while lists.len() < n
            invariant
                lists@.len() <= n,
            decreases n - lists@.len(),
        {
            lists.push(Vec::new());
        }
        StampedLists { lists, stamps, round: 1 }
    }

    /// Empties all lists.
    pub fn clear(&mut self)
        requires
            old(self).wf(),
        ensures
            final(self).wf(),
            final(self).size() == old(self).size(),
            forall|i: int| (#[trigger] final(self).at(i)).len() == 0,
    {
        if self.round == u32::MAX {
            self.stamps = zeros(self.stamps.len());
            self.round = 0;
        }
        self.round = self.round + 1;
    }

    /// Adds a number to the list of an index: whether it is the first there.
    pub fn push(&mut self, i: usize, x: u32) -> (fresh: bool)
        requires
            old(self).wf(),
            i < old(self).size(),
        ensures
            final(self).wf(),
            final(self).size() == old(self).size(),
            final(self).at(i as int) == old(self).at(i as int).push(x),
            forall|j: int| j != i ==> #[trigger] final(self).at(j) == old(self).at(j),
            fresh == (old(self).at(i as int).len() == 0),
    {
        let ghost before = *self;
        let round: u32 = self.round;
        let fresh: bool = self.stamps[i] != round;
        if fresh {
            self.stamps.set(i, round);
            self.lists.set(i, vec![x]);
        } else {
            self.lists[i].push(x);
        }
        assert(self.at(i as int) =~= before.at(i as int).push(x));
        assert forall|j: int| j != i implies #[trigger] self.at(j) == before.at(j) by {
            assert(0 <= j < self.size() ==> self.lists@[j] == before.lists@[j]);
        }
        fresh
    }

    /// The length of the list of an index.
    pub fn len_at(&self, i: usize) -> (r: usize)
        requires
            self.wf(),
            i < self.size(),
        ensures
            r == self.at(i as int).len(),
    {
        if self.stamps[i] == self.round {
            self.lists[i].len()
        } else {
            0
        }
    }

    /// An item of the list of an index.
    pub fn item(&self, i: usize, k: usize) -> (r: u32)
        requires
            self.wf(),
            i < self.size(),
            k < self.at(i as int).len(),
        ensures
            r == self.at(i as int)[k as int],
    {
        self.lists[i][k]
    }
}

} // verus!
