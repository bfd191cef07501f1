//! The set of nodes that a search has met: one stamp per node, and the set is
//! emptied by moving on to the next stamp.

use vstd::prelude::*;

verus! {

pub struct Visited {
    stamps: Vec<u32>,
    epoch: u32,
}

impl View for Visited {
    type V = Set<u32>;

    closed spec fn view(&self) -> Set<u32> {
        Set::new(|id: u32| id < self.stamps@.len() && self.stamps@[id as int] == self.epoch)
    }
}

impl Visited {
    /// No stamp lies ahead of the current one.
    pub closed spec fn wf(&self) -> bool {
        forall|i: int| 0 <= i < self.stamps@.len() ==> #[trigger] self.stamps@[i] <= self.epoch
    }

    /// How many nodes the set has room for.
    pub closed spec fn room(&self) -> nat {
        self.stamps@.len()
    }

    /// A set with room for no node yet.
    pub fn new() -> (r: Self)
        ensures
            r.wf(),
            r@ == Set::<u32>::empty(),
            r.room() == 0,
    {
        let r = Visited { stamps: Vec::new(), epoch: 0 };
        assert(r@ =~= Set::<u32>::empty());
        r
    }

    /// Empty the set and make room for the ids below `n`.
    pub fn begin(&mut self, n: usize)
        requires
            old(self).wf(),
        ensures
            final(self).wf(),
            final(self)@ == Set::<u32>::empty(),
            final(self).room() == if n > old(self).room() {
                n as nat
            } else {
                old(self).room()
            },
    {
        if self.epoch == 0xFFFF_FFFF {
            let len = self.stamps.len();
            let mut i: usize = 0;
            while i < len
                invariant
                    i <= len == self.stamps@.len() == old(self).stamps@.len(),
                    forall|j: int| 0 <= j < i ==> #[trigger] self.stamps@[j] == 0,
                decreases len - i,
            {
                self.stamps[i] = 0;
                i = i + 1;
            }
            self.epoch = 0;
        }
        assert(self.wf());
        let ghost before = self.stamps@;
        let ghost behind = self.epoch;
        self.epoch = self.epoch + 1;
        if self.stamps.len() < n {
            self.stamps.resize(n, 0);
            assert forall|i: int| 0 <= i < self.stamps@.len() implies #[trigger] self.stamps@[i]
                <= behind by {
                if i < before.len() {
                    assert(self.stamps@.subrange(0, before.len() as int)[i] == before[i]);
                }
            }
        }
        assert(forall|i: int| 0 <= i < self.stamps@.len() ==> #[trigger] self.stamps@[i] <= behind);
        assert(self@ =~= Set::<u32>::empty());
    }

    /// Whether `id` is in the set.
    pub fn contains(&self, id: u32) -> (r: bool)
        requires
            id < self.room(),
        ensures
            r == self@.contains(id),
    {
        self.stamps[id as usize] == self.epoch
    }

    /// Add `id` to the set.
    pub fn mark(&mut self, id: u32)
        requires
            old(self).wf(),
            id < old(self).room(),
        ensures
            final(self).wf(),
            final(self)@ == old(self)@.insert(id),
            final(self).room() == old(self).room(),
    {
        let epoch = self.epoch;
        self.stamps[id as usize] = epoch;
        assert(self@ =~= old(self)@.insert(id));
    }
}

} // verus!
