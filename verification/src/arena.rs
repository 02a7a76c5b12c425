//! Slot arena: values addressed by stable indices.
//!
//! The containers of this crate keep their nodes here instead of linking
//! them by address. A handle is the index of a slot; it names the same
//! value from the `insert` that returned it until that value is removed.

use vstd::prelude::*;

verus! {

/// Growable table of optional values plus the list of its vacant slots.
pub struct Arena<T> {
    pub slots: Vec<Option<T>>,
    pub free: Vec<usize>,
}

/// A sequence of distinct indices below `n` has at most `n` entries.
proof fn lemma_distinct_below(s: Seq<usize>, n: nat)
    requires
        s.no_duplicates(),
        forall|k: int| 0 <= k < s.len() ==> s[k] < n,
    ensures
        s.len() <= n,
    decreases n,
{
    if s.len() > 0 {
        assert(s[0] < n);
        let top = (n - 1) as usize;
        if s.contains(top) {
            let i = choose|i: int| 0 <= i < s.len() && s[i] == top;
            let rest = s.remove(i);
            assert forall|k: int| 0 <= k < rest.len() implies rest[k] < n - 1 by {
                if k < i {
                    assert(rest[k] == s[k]);
                } else {
                    assert(rest[k] == s[k + 1]);
                }
            }
            lemma_distinct_below(rest, (n - 1) as nat);
        } else {
            assert forall|k: int| 0 <= k < s.len() implies s[k] < n - 1 by {
                assert(s.contains(s[k]));
            }
            lemma_distinct_below(s, (n - 1) as nat);
        }
    }
}

impl<T> View for Arena<T> {
    type V = Map<usize, T>;

    /// The occupied slots: handle to stored value.
    closed spec fn view(&self) -> Map<usize, T> {
        Map::new(
            |h: usize| h < self.slots@.len() && self.slots@[h as int] is Some,
            |h: usize| self.slots@[h as int]->0,
        )
    }
}

impl<T> Arena<T> {
    /// Every entry of the free list names a vacant slot, and none twice.
    pub closed spec fn wf(&self) -> bool {
        &&& self.free@.len() <= self.slots@.len()
        &&& self.free@.no_duplicates()
        &&& forall|k: int|
            0 <= k < self.free@.len() ==> #[trigger] self.free@[k] < self.slots@.len()
                && self.slots@[self.free@[k] as int] is None
    }

    /// Number of slots that are not on the free list.
    pub closed spec fn len(&self) -> nat {
        (self.slots@.len() - self.free@.len()) as nat
    }

    /// An arena without slots.
    pub fn new() -> (arena: Self)
        ensures
            arena.wf(),
            arena@ == Map::<usize, T>::empty(),
            arena.len() == 0,
    {
        let arena = Arena { slots: Vec::new(), free: Vec::new() };
        assert(arena@ =~= Map::<usize, T>::empty());
        arena
    }

    /// Stores `value` in a vacant slot and returns its handle. Fails only
    /// when `usize::MAX` slots are occupied, and then changes nothing.
    pub fn insert(&mut self, value: T) -> (handle: Option<usize>)
        requires
            old(self).wf(),
        ensures
            final(self).wf(),
            match handle {
                Some(h) => {
                    &&& old(self).len() < usize::MAX
                    &&& !old(self)@.dom().contains(h)
                    &&& final(self)@ == old(self)@.insert(h, value)
                    &&& final(self).len() == old(self).len() + 1
                },
                None => old(self).len() == usize::MAX && *final(self) == *old(self),
            },
    {
        if self.free.len() > 0 {
            let h: usize = self.free.pop().unwrap();
            let ghost last = old(self).free@.len() - 1;
            assert(old(self).slots.len() <= usize::MAX);
            assert(old(self).free@[last] == h);
            self.slots[h] = Some(value);
            assert forall|k: int| 0 <= k < self.free@.len() implies #[trigger] self.free@[k]
                < self.slots@.len() && self.slots@[self.free@[k] as int] is None by {
                assert(self.free@[k] == old(self).free@[k]);
                assert(old(self).free@[k] != old(self).free@[last]);
            }
            assert(self@ =~= old(self)@.insert(h, value));
            Some(h)
        } else if self.slots.len() == usize::MAX {
            None
        } else {
            let h: usize = self.slots.len();
            self.slots.push(Some(value));
            assert(self@ =~= old(self)@.insert(h, value));
            Some(h)
        }
    }

    /// The value behind `handle`, if the slot is occupied.
    pub fn get(&self, handle: usize) -> (value: Option<&T>)
        ensures
            match value {
                Some(v) => self@.dom().contains(handle) && *v == self@[handle],
                None => !self@.dom().contains(handle),
            },
    {
        if handle < self.slots.len() {
            self.slots[handle].as_ref()
        } else {
            None
        }
    }

    /// Overwrites the value behind an occupied `handle`. Returns whether
    /// the slot was occupied; a vacant or unknown handle changes nothing.
    pub fn set(&mut self, handle: usize, value: T) -> (done: bool)
        requires
            old(self).wf(),
        ensures
            final(self).wf(),
            final(self).len() == old(self).len(),
            done == old(self)@.dom().contains(handle),
            done ==> final(self)@ == old(self)@.insert(handle, value),
            !done ==> *final(self) == *old(self),
    {
        if handle < self.slots.len() && self.slots[handle].is_some() {
            self.slots[handle] = Some(value);
            assert(self@ =~= old(self)@.insert(handle, value));
            true
        } else {
            false
        }
    }

    /// Vacates the slot behind `handle` and hands its value back. A vacant
    /// or unknown handle changes nothing.
    pub fn remove(&mut self, handle: usize) -> (value: Option<T>)
        requires
            old(self).wf(),
        ensures
            final(self).wf(),
            match value {
                Some(v) => {
                    &&& old(self)@.dom().contains(handle)
                    &&& v == old(self)@[handle]
                    &&& final(self)@ == old(self)@.remove(handle)
                    &&& final(self).len() + 1 == old(self).len()
                },
                None => !old(self)@.dom().contains(handle) && *final(self) == *old(self),
            },
    {
        if handle < self.slots.len() && self.slots[handle].is_some() {
            let taken: Option<T> = self.slots[handle].take();
            self.free.push(handle);
            assert forall|k: int| 0 <= k < self.free@.len() implies #[trigger] self.free@[k]
                < self.slots@.len() && self.slots@[self.free@[k] as int] is None by {
                if k < old(self).free@.len() {
                    assert(self.free@[k] == old(self).free@[k]);
                }
            }
            assert(self.free@.no_duplicates()) by {
                assert forall|a: int, b: int|
                    0 <= a < self.free@.len() && 0 <= b < self.free@.len() && a != b implies self.free@[a]
                    != self.free@[b] by {
                    if a < old(self).free@.len() {
                        assert(self.free@[a] == old(self).free@[a]);
                    }
                    if b < old(self).free@.len() {
                        assert(self.free@[b] == old(self).free@[b]);
                    }
                }
            }
            proof {
                lemma_distinct_below(self.free@, self.slots@.len());
            }
            assert(self@ =~= old(self)@.remove(handle));
            taken
        } else {
            None
        }
    }
}

} // verus!
