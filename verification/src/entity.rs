//! The identity allocator: stable, never-reused handles mapped to
//! recyclable dense indices.
//!
//! A handle is a 64-bit token from a monotonic counter; an index is a
//! column-store slot, recycled through the bitset-backed free-index tracker
//! once freed. The handle-to-index map is the single source of truth for
//! liveness: a freed handle disappears from the map, so a later lookup
//! reports absence instead of resolving to a recycled index.

use crate::bitset::{BitSet, SLOT_CAP};
use crate::store::{MaskStore, VecStore};
use std::collections::HashMap;
use vstd::prelude::*;

verus! {

broadcast use vstd::std_specs::hash::group_hash_axioms;

/// Column mapping each live index back to its handle.
pub type Handles = MaskStore<VecStore<u64>>;

/// Allocates never-reused 64-bit handles from a monotonic counter.
pub struct HandleAlloc {
    next: u64,
}

impl HandleAlloc {
    /// The handle the next allocation will return; every handle issued so
    /// far is below it.
    pub closed spec fn next_spec(self) -> u64 {
        self.next
    }

    pub fn new() -> (a: HandleAlloc)
        ensures
            a.next_spec() == 0,
    {
        HandleAlloc { next: 0 }
    }

    /// Whether another handle can still be issued.
    pub fn has_next(&self) -> (r: bool)
        ensures
            r == (self.next_spec() < u64::MAX),
    {
        self.next < u64::MAX
    }

    /// Issues the next handle. The counter never wraps: exhausting it is
    /// fatal for the caller, so it is excluded here.
    pub fn allocate(&mut self) -> (h: u64)
        requires
            old(self).next_spec() < u64::MAX,
        ensures
            h == old(self).next_spec(),
            final(self).next_spec() == old(self).next_spec() + 1,
    {
        let h: u64 = self.next;
        self.next = self.next + 1;
        h
    }
}

/// Hands out dense indices, preferring ones freed earlier over fresh ones.
pub struct IndexAlloc {
    freed: BitSet,
    next: usize,
}

impl IndexAlloc {
    /// True iff `i` sits in the freed pool, ready for reuse.
    pub closed spec fn freed_set(self, i: int) -> bool {
        self.freed.has(i)
    }

    /// The next fresh index; every index handed out so far is below it.
    pub closed spec fn next_spec(self) -> usize {
        self.next
    }

    pub closed spec fn wf(self) -> bool {
        &&& self.freed.wf()
        &&& self.next <= SLOT_CAP
        &&& forall|i: int| #[trigger] self.freed.has(i) ==> i < self.next
    }

    /// An index is live while it has been handed out and not freed since.
    pub open spec fn live(self, i: int) -> bool {
        0 <= i < self.next_spec() && !self.freed_set(i)
    }

    /// No freed index remains and the counter's range is used up.
    pub open spec fn exhausted(self) -> bool {
        self.next_spec() == SLOT_CAP && (forall|i: int| !self.freed_set(i))
    }

    pub fn new() -> (a: IndexAlloc)
        ensures
            a.wf(),
            a.next_spec() == 0,
            forall|i: int| !a.freed_set(i),
            forall|i: int| !a.live(i),
    {
        IndexAlloc { freed: BitSet::new(), next: 0 }
    }

    /// Hands out an index: the lowest freed one if any, else a fresh one.
    /// Returns nothing exactly when the index space is exhausted, leaving
    /// the allocator untouched rather than wrapping.
    pub fn try_allocate(&mut self) -> (r: Option<usize>)
        requires
            old(self).wf(),
        ensures
            final(self).wf(),
            r is None <==> old(self).exhausted(),
            match r {
                Option::Some(i) => {
                    &&& i < SLOT_CAP
                    &&& !old(self).live(i as int)
                    &&& final(self).live(i as int)
                    &&& forall|j: int|
                        final(self).live(j) == (old(self).live(j) || j == i as int)
                    &&& forall|j: int|
                        final(self).freed_set(j) == (old(self).freed_set(j) && j != i as int)
                    &&& if old(self).freed_set(i as int) {
                        final(self).next_spec() == old(self).next_spec() && (forall|j: int|
                            0 <= j < i ==> !old(self).freed_set(j))
                    } else {
                        i == old(self).next_spec() && final(self).next_spec() == old(
                            self,
                        ).next_spec() + 1 && (forall|j: int| !old(self).freed_set(j))
                    }
                },
                Option::None => *final(self) == *old(self),
            },
    {
        let recycled: Option<usize> = self.freed.next_set_from(0);
        match recycled {
            Option::Some(i) => {
                proof {
                    assert(old(self).freed_set(i as int));
                    assert(!old(self).exhausted());
                }
                self.freed.remove(i);
                Some(i)
            },
            Option::None => {
                if self.next == SLOT_CAP {
                    return None;
                }
                let i: usize = self.next;
                self.next = self.next + 1;
                Some(i)
            },
        }
    }

    /// Hands out an index where the caller knows the space is not used up.
    pub fn allocate(&mut self) -> (i: usize)
        requires
            old(self).wf(),
            !old(self).exhausted(),
        ensures
            final(self).wf(),
            i < SLOT_CAP,
            !old(self).live(i as int),
            final(self).live(i as int),
            forall|j: int| final(self).live(j) == (old(self).live(j) || j == i as int),
            forall|j: int| final(self).freed_set(j) == (old(self).freed_set(j) && j != i as int),
            if old(self).freed_set(i as int) {
                final(self).next_spec() == old(self).next_spec() && (forall|j: int|
                    0 <= j < i ==> !old(self).freed_set(j))
            } else {
                i == old(self).next_spec() && final(self).next_spec() == old(self).next_spec() + 1
                    && (forall|j: int| !old(self).freed_set(j))
            },
    {
        let r: Option<usize> = self.try_allocate();
        match r {
            Option::Some(i) => i,
            Option::None => {
                proof {
                    assert(false);
                }
                vstd::pervasive::unreached()
            },
        }
    }

    /// Whether the index space is used up, decided at run time.
    pub fn is_exhausted(&self) -> (r: bool)
        requires
            self.wf(),
        ensures
            r == self.exhausted(),
    {
        if self.next < SLOT_CAP {
            return false;
        }
        let recycled: Option<usize> = self.freed.next_set_from(0);
        match recycled {
            Option::Some(i) => {
                proof {
                    assert(self.freed_set(i as int));
                }
                false
            },
            Option::None => true,
        }
    }

    /// Returns an index to the freed pool for reuse. Freeing an index that
    /// is already in the pool changes nothing.
    pub fn free(&mut self, index: usize)
        requires
            old(self).wf(),
            index < old(self).next_spec(),
        ensures
            final(self).wf(),
            final(self).next_spec() == old(self).next_spec(),
            forall|j: int| final(self).freed_set(j) == (old(self).freed_set(j) || j == index as int),
            forall|j: int| final(self).live(j) == (old(self).live(j) && j != index as int),
    {
        self.freed.insert(index);
    }
}

/// The handle-to-index lookup map, the sole staleness check in the system.
pub struct IndexMap {
    indices: HashMap<u64, usize>,
}

impl IndexMap {
    pub closed spec fn view(self) -> Map<u64, usize> {
        self.indices@
    }

    pub fn new() -> (m: IndexMap)
        ensures
            m@ == Map::<u64, usize>::empty(),
    {
        IndexMap { indices: HashMap::new() }
    }

    pub fn insert(&mut self, handle: u64, index: usize)
        ensures
            final(self)@ == old(self)@.insert(handle, index),
    {
        self.indices.insert(handle, index);
    }

    pub fn remove(&mut self, handle: u64) -> (r: Option<usize>)
        ensures
            final(self)@ == old(self)@.remove(handle),
            r == if old(self)@.contains_key(handle) {
                Option::Some(old(self)@[handle])
            } else {
                Option::None::<usize>
            },
    {
        self.indices.remove(&handle)
    }

    pub fn get(&self, handle: u64) -> (r: Option<usize>)
        ensures
            r == if self@.contains_key(handle) {
                Option::Some(self@[handle])
            } else {
                Option::None::<usize>
            },
    {
        let found: Option<&usize> = self.indices.get(&handle);
        match found {
            Option::Some(v) => Some(*v),
            Option::None => None,
        }
    }
}

/// The identity allocator: index allocator, handle counter, lookup map and
/// the reverse index-to-handle column, kept consistent together.
pub struct Entities {
    pub index_alloc: IndexAlloc,
    pub handle_alloc: HandleAlloc,
    pub index_map: IndexMap,
    pub handles: Handles,
}

impl Entities {
    /// Every mapped handle was issued, resolves to a live index, and the
    /// reverse column points back at it; no two handles share an index.
    pub open spec fn wf(self) -> bool {
        &&& self.index_alloc.wf()
        &&& self.handles.wf()
        &&& forall|h: u64| #[trigger] self.index_map@.contains_key(h) ==> h
            < self.handle_alloc.next_spec() && self.index_alloc.live(self.index_map@[h] as int)
            && self.handles@.contains_key(self.index_map@[h] as int) && self.handles@[
            self.index_map@[h] as int
        ] == h
        &&& forall|h1: u64, h2: u64|
            self.index_map@.contains_key(h1) && self.index_map@.contains_key(h2) && h1 != h2
                ==> self.index_map@[h1] != self.index_map@[h2]
    }

    /// Neither the handle counter nor the index space is used up.
    pub open spec fn can_allocate(self) -> bool {
        self.handle_alloc.next_spec() < u64::MAX && !self.index_alloc.exhausted()
    }

    /// Whether another identity can be created, decided at run time.
    pub fn can_allocate_now(&self) -> (r: bool)
        requires
            self.wf(),
        ensures
            r == self.can_allocate(),
    {
        self.handle_alloc.has_next() && !self.index_alloc.is_exhausted()
    }

    pub fn new() -> (e: Entities)
        ensures
            e.wf(),
            e.index_map@ == Map::<u64, usize>::empty(),
            e.handles@ == Map::<int, u64>::empty(),
            e.handle_alloc.next_spec() == 0,
            e.index_alloc.next_spec() == 0,
            forall|i: int| !e.index_alloc.freed_set(i),
            e.can_allocate(),
    {
        Entities {
            index_alloc: IndexAlloc::new(),
            handle_alloc: HandleAlloc::new(),
            index_map: IndexMap::new(),
            handles: MaskStore::new(),
        }
    }

    /// Creates an identity: a recycled or fresh index paired with a handle
    /// never issued before, recorded in the map and the reverse column.
    pub fn allocate(&mut self) -> (r: (u64, usize))
        requires
            old(self).wf(),
            old(self).can_allocate(),
        ensures
            final(self).wf(),
            r.0 == old(self).handle_alloc.next_spec(),
            !old(self).index_map@.contains_key(r.0),
            r.1 < SLOT_CAP,
            !old(self).index_alloc.live(r.1 as int),
            final(self).index_alloc.live(r.1 as int),
            final(self).index_map@ == old(self).index_map@.insert(r.0, r.1),
            final(self).handles@ == old(self).handles@.insert(r.1 as int, r.0),
            final(self).handle_alloc.next_spec() == old(self).handle_alloc.next_spec() + 1,
            forall|h: u64| #[trigger] old(self).index_map@.contains_key(h) ==> h < r.0,
            forall|j: int|
                final(self).index_alloc.live(j) == (old(self).index_alloc.live(j) || j
                    == r.1 as int),
            forall|j: int|
                final(self).index_alloc.freed_set(j) == (old(self).index_alloc.freed_set(j) && j
                    != r.1 as int),
            if old(self).index_alloc.freed_set(r.1 as int) {
                final(self).index_alloc.next_spec() == old(self).index_alloc.next_spec() && (
                forall|j: int| 0 <= j < r.1 ==> !old(self).index_alloc.freed_set(j))
            } else {
                r.1 == old(self).index_alloc.next_spec() && final(self).index_alloc.next_spec()
                    == old(self).index_alloc.next_spec() + 1 && (forall|j: int|
                    !old(self).index_alloc.freed_set(j))
            },
    {
        let index: usize = self.index_alloc.allocate();
        let handle: u64 = self.handle_alloc.allocate();
        self.index_map.insert(handle, index);
        self.handles.insert(index, handle);
        proof {
            assert forall|h: u64| #[trigger] self.index_map@.contains_key(h) implies h
                < self.handle_alloc.next_spec() && self.index_alloc.live(
                self.index_map@[h] as int,
            ) && self.handles@.contains_key(self.index_map@[h] as int) && self.handles@[
                self.index_map@[h] as int
            ] == h by {
                if h != handle {
                    assert(old(self).index_map@.contains_key(h));
                    assert(old(self).index_alloc.live(old(self).index_map@[h] as int));
                    assert(self.index_map@[h] != index as usize);
                }
            }
        }
        (handle, index)
    }

    /// Destroys the identity behind `handle`, if it is still live: the
    /// handle leaves the map for good, the reverse column entry is cleared,
    /// and the index returns to the free pool for reuse. The freed index is
    /// handed back so the caller can clear its attribute columns. A stale
    /// or unknown handle changes nothing.
    pub fn free(&mut self, handle: u64) -> (r: Option<usize>)
        requires
            old(self).wf(),
        ensures
            final(self).wf(),
            match r {
                Option::Some(index) => {
                    &&& old(self).index_map@.contains_key(handle)
                    &&& index == old(self).index_map@[handle]
                    &&& final(self).index_map@ == old(self).index_map@.remove(handle)
                    &&& final(self).handles@ == old(self).handles@.remove(index as int)
                    &&& !final(self).index_alloc.live(index as int)
                    &&& final(self).index_alloc.freed_set(index as int)
                    &&& final(self).index_alloc.next_spec() == old(
                        self,
                    ).index_alloc.next_spec()
                    &&& forall|j: int|
                        final(self).index_alloc.freed_set(j) == (old(
                            self,
                        ).index_alloc.freed_set(j) || j == index as int)
                    &&& forall|j: int|
                        final(self).index_alloc.live(j) == (old(self).index_alloc.live(j) && j
                            != index as int)
                    &&& final(self).handle_alloc.next_spec() == old(
                        self,
                    ).handle_alloc.next_spec()
                },
                Option::None => !old(self).index_map@.contains_key(handle)
                    && final(self).index_map@ == old(self).index_map@
                    && final(self).handles == old(self).handles
                    && final(self).index_alloc == old(self).index_alloc
                    && final(self).handle_alloc == old(self).handle_alloc,
            },
    {
        let removed: Option<usize> = self.index_map.remove(handle);
        match removed {
            Option::None => None,
            Option::Some(index) => {
                self.handles.remove(index);
                self.index_alloc.free(index);
                proof {
                    assert forall|h: u64| #[trigger] self.index_map@.contains_key(h) implies h
                        < self.handle_alloc.next_spec() && self.index_alloc.live(
                        self.index_map@[h] as int,
                    ) && self.handles@.contains_key(self.index_map@[h] as int) && self.handles@[
                        self.index_map@[h] as int
                    ] == h by {
                        assert(old(self).index_map@.contains_key(h));
                        assert(h != handle);
                        assert(old(self).index_map@[h] != index as usize);
                    }
                }
                Some(index)
            },
        }
    }

    /// Resolves a handle to its index, or nothing for a handle that was
    /// never allocated or has been freed since.
    pub fn get(&self, handle: u64) -> (r: Option<usize>)
        ensures
            r == if self.index_map@.contains_key(handle) {
                Option::Some(self.index_map@[handle])
            } else {
                Option::None::<usize>
            },
    {
        self.index_map.get(handle)
    }
}

impl Default for HandleAlloc {
    fn default() -> (a: Self)
        ensures
            a.next_spec() == 0,
    {
        HandleAlloc::new()
    }
}

impl Default for IndexAlloc {
    fn default() -> (a: Self)
        ensures
            a.wf(),
            a.next_spec() == 0,
            forall|i: int| !a.live(i),
    {
        IndexAlloc::new()
    }
}

impl Default for IndexMap {
    fn default() -> (m: Self)
        ensures
            m@ == Map::<u64, usize>::empty(),
    {
        IndexMap::new()
    }
}

impl Default for Entities {
    /// An empty world of identities.
    fn default() -> (e: Self)
        ensures
            e.wf(),
            e.index_map@ == Map::<u64, usize>::empty(),
            e.can_allocate(),
    {
        Entities::new()
    }
}

} // verus!
