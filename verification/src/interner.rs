//! Deduplicating stores that expose their values through dense integer
//! handles.
//!
//! During construction a `DedupInterner` assigns each distinct edge condition
//! the handle of its first insertion; once construction ends it is frozen
//! into a read-only `FixedSizeInterner` whose handle range becomes the key
//! space of the small bitmaps.

use crate::condition::Condition;
use vstd::prelude::*;

verus! {

/// A frozen handle-indexed store.
pub struct FixedSizeInterner<T> {
    stored: Vec<T>,
}

impl<T> FixedSizeInterner<T> {
    /// The stored values, in handle order.
    pub closed spec fn values(self) -> Seq<T> {
        self.stored@
    }

    pub fn from_vec(stored: Vec<T>) -> (r: FixedSizeInterner<T>)
        ensures
            r.values() == stored@,
    {
        FixedSizeInterner { stored }
    }

    pub fn len(&self) -> (r: usize)
        ensures
            r == self.values().len(),
    {
        self.stored.len()
    }

    pub fn get(&self, handle: u16) -> (r: &T)
        requires
            handle < self.values().len(),
        ensures
            *r == self.values()[handle as int],
    {
        &self.stored[handle as usize]
    }
}

impl<T: Copy> FixedSizeInterner<T> {
    /// A copy holding the same values under the same handles.
    pub fn duplicate(&self) -> (r: FixedSizeInterner<T>)
        ensures
            r.values() == self.values(),
    {
        let mut stored: Vec<T> = Vec::new();
        let n = self.stored.len();
        let mut k: usize = 0;
        while k < n
            invariant
                n == self.stored@.len(),
                k <= n,
                stored@ =~= self.stored@.subrange(0, k as int),
            decreases n - k,
        {
            stored.push(self.stored[k]);
            k = k + 1;
        }
        proof {
            assert(stored@ =~= self.stored@);
        }
        FixedSizeInterner { stored }
    }
}

/// A deduplicating interner for edge conditions, used during graph
/// construction.
pub struct DedupInterner {
    stored: Vec<Condition>,
}

impl DedupInterner {
    /// The stored values, in handle order.
    pub closed spec fn values(self) -> Seq<Condition> {
        self.stored@
    }

    pub fn new() -> (r: DedupInterner)
        ensures
            r.values().len() == 0,
    {
        DedupInterner { stored: Vec::new() }
    }

    /// Intern `v`: return its existing handle if already present, else assign
    /// the next dense handle.
    pub fn intern(&mut self, v: Condition) -> (h: u16)
        requires
            old(self).values().len() < 65535,
        ensures
            final(self).values() == if old(self).values().contains(v) {
                old(self).values()
            } else {
                old(self).values().push(v)
            },
            h < final(self).values().len(),
            final(self).values()[h as int] == v,
            forall|i: int| 0 <= i < h ==> final(self).values()[i] != v,
    {
        let mut k: usize = 0;
        let n = self.stored.len();
        while k < n
            invariant
                n == self.stored@.len(),
                n < 65535,
                k <= n,
                forall|i: int| 0 <= i < k ==> self.stored@[i] != v,
            decreases n - k,
        {
            if self.stored[k] == v {
                return k as u16;
            }
            k = k + 1;
        }
        proof {
            assert(!self.stored@.contains(v));
        }
        let h = self.stored.len() as u16;
        self.stored.push(v);
        h
    }

    pub fn len(&self) -> (r: usize)
        ensures
            r == self.values().len(),
    {
        self.stored.len()
    }

    pub fn get(&self, handle: u16) -> (r: &Condition)
        requires
            handle < self.values().len(),
        ensures
            *r == self.values()[handle as int],
    {
        &self.stored[handle as usize]
    }

    /// Freeze into a fixed-size interner; handles keep their meaning.
    pub fn freeze(self) -> (r: FixedSizeInterner<Condition>)
        ensures
            r.values() == self.values(),
    {
        FixedSizeInterner::from_vec(self.stored)
    }
}

} // verus!
