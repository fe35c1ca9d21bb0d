//! The remembered set: addresses of fields that the write barrier recorded
//! since the last collection.

use vstd::prelude::*;

verus! {

/// Field addresses in the order in which they were first recorded.
pub struct RememberedSet {
    entries: Vec<u32>,
}

impl View for RememberedSet {
    type V = Seq<u32>;

    closed spec fn view(&self) -> Seq<u32> {
        self.entries@
    }
}

impl RememberedSet {
    /// The empty set.
    pub fn new() -> (r: RememberedSet)
        ensures
            r@ == Seq::<u32>::empty(),
    {
        RememberedSet { entries: Vec::new() }
    }

    /// Number of recorded addresses.
    pub fn count(&self) -> (r: usize)
        ensures
            r == self@.len(),
    {
        self.entries.len()
    }

    /// The `i`-th recorded address.
    pub fn get(&self, i: usize) -> (r: u32)
        requires
            i < self@.len(),
        ensures
            r == self@[i as int],
    {
        self.entries[i]
    }

    /// Whether `addr` was recorded.
    pub fn contains(&self, addr: u32) -> (r: bool)
        ensures
            r == self@.contains(addr),
    {
        let mut i: usize = 0;
        while i < self.entries.len()
            invariant
                i <= self.entries@.len(),
                forall|j: int| 0 <= j < i ==> self.entries@[j] != addr,
            decreases self.entries@.len() - i,
        {
            if self.entries[i] == addr {
                return true;
            }
            i += 1;
        }
        false
    }

    /// Records `addr`: appends it unless it is there already.
    pub fn insert(&mut self, addr: u32)
        ensures
            old(self)@.contains(addr) ==> final(self)@ == old(self)@,
            !old(self)@.contains(addr) ==> final(self)@ == old(self)@.push(addr),
    {
        if !self.contains(addr) {
            self.entries.push(addr);
        }
    }
}

} // verus!
