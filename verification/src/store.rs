//! The masked dense-array column store.
//!
//! A column pairs one presence bitset with one dense, slot-addressed array.
//! The mask is the sole authority on validity: a slot's entry is meaningful
//! exactly while its mask bit is set, and entries are only ever read behind
//! a mask test (or a proof that the mask test already happened). The
//! column's value is the map from present slots to their stored values.

use crate::bitset::{BitSet, SLOT_CAP};
use vstd::prelude::*;

verus! {

/// Raw slot-addressed storage: a growable dense array whose entries carry
/// meaning only where the owning column's mask says so. `None` stands for
/// storage that holds no value.
pub trait RawStore: Sized {
    type Item;

    /// The stored slots.
    spec fn slots(&self) -> Seq<Option<Self::Item>>;

    /// Storage with no slots at all.
    fn empty() -> (s: Self)
        ensures
            s.slots() == Seq::<Option<Self::Item>>::empty(),
    ;

    /// Reads the value at a filled slot.
    fn get(&self, index: usize) -> (r: &Self::Item)
        requires
            index < self.slots().len(),
            self.slots()[index as int] is Some,
        ensures
            Some(*r) == self.slots()[index as int],
    ;

    /// Borrows the value at a filled slot for mutation.
    fn get_mut(&mut self, index: usize) -> (r: &mut Self::Item)
        requires
            index < old(self).slots().len(),
            old(self).slots()[index as int] is Some,
        ensures
            Some(*r) == old(self).slots()[index as int],
            final(self).slots() == old(self).slots().update(index as int, Some(*final(r))),
    ;

    /// Writes a value at a slot, growing the array as needed; newly exposed
    /// slots between the old end and `index` hold no value.
    fn insert(&mut self, index: usize, value: Self::Item)
        requires
            index < SLOT_CAP,
        ensures
            final(self).slots().len() == if old(self).slots().len() >= index + 1 {
                old(self).slots().len() as int
            } else {
                (index + 1) as int
            },
            final(self).slots()[index as int] == Some(value),
            forall|k: int|
                0 <= k < old(self).slots().len() && k != index as int ==> final(self).slots()[k]
                    == old(self).slots()[k],
            forall|k: int|
                old(self).slots().len() <= k < final(self).slots().len() && k != index as int
                    ==> final(self).slots()[k] is None,
    ;

    /// Moves the value out of a filled slot, leaving it with no value.
    fn remove(&mut self, index: usize) -> (r: Self::Item)
        requires
            index < old(self).slots().len(),
            old(self).slots()[index as int] is Some,
        ensures
            Some(r) == old(self).slots()[index as int],
            final(self).slots() == old(self).slots().update(index as int, None),
    ;
}

/// Dense array storage over a `Vec` of optional values.
pub struct VecStore<T> {
    vec: Vec<Option<T>>,
}

impl<T> RawStore for VecStore<T> {
    type Item = T;

    closed spec fn slots(&self) -> Seq<Option<T>> {
        self.vec@
    }

    fn empty() -> (s: Self) {
        VecStore { vec: Vec::new() }
    }

    fn get(&self, index: usize) -> (r: &T) {
        self.vec[index].as_ref().unwrap()
    }

    fn get_mut(&mut self, index: usize) -> (r: &mut T) {
        self.vec[index].as_mut().unwrap()
    }

    fn insert(&mut self, index: usize, value: T) {
        while self.vec.len() <= index
            invariant
                index < SLOT_CAP,
                old(self).vec@.len() <= self.vec@.len(),
                self.vec@.len() == old(self).vec@.len() || (old(self).vec@.len() <= index
                    && self.vec@.len() <= index + 1),
                forall|k: int|
                    0 <= k < old(self).vec@.len() ==> self.vec@[k] == old(self).vec@[k],
                forall|k: int|
                    old(self).vec@.len() <= k < self.vec@.len() ==> self.vec@[k] is None,
            decreases index + 1 - self.vec@.len(),
        {
            self.vec.push(None);
        }
        self.vec[index] = Some(value);
    }

    fn remove(&mut self, index: usize) -> (r: T) {
        let slot: &mut Option<T> = &mut self.vec[index];
        let taken: Option<T> = slot.take();
        taken.unwrap()
    }
}

impl<T> Default for VecStore<T> {
    /// Storage with no slots at all.
    fn default() -> (s: Self)
        ensures
            s.slots() == Seq::<Option<T>>::empty(),
    {
        VecStore { vec: Vec::new() }
    }
}

/// A column: a presence mask plus raw dense storage for one attribute.
pub struct MaskStore<S> {
    mask: BitSet,
    store: S,
}

impl<S: RawStore> MaskStore<S> {
    /// The mask only marks slots whose storage holds a value.
    pub closed spec fn wf(self) -> bool {
        &&& self.mask.wf()
        &&& forall|i: int| #[trigger] self.mask.has(i) ==> 0 <= i < self.store.slots().len()
            && self.store.slots()[i] is Some
    }

    /// The presence mask as a value, for contracts about `mask()`.
    pub closed spec fn mask_spec(self) -> BitSet {
        self.mask
    }

    /// The raw storage as a value, for contracts about `inner()`.
    pub closed spec fn store_spec(self) -> S {
        self.store
    }

    /// The column's value: present slots mapped to their stored values.
    pub closed spec fn view(self) -> Map<int, S::Item> {
        Map::new(|i: int| self.mask.has(i), |i: int| self.store.slots()[i]->0)
    }

    /// An empty column.
    pub fn new() -> (s: Self)
        ensures
            s.wf(),
            s@ == Map::<int, S::Item>::empty(),
    {
        let s = MaskStore { mask: BitSet::new(), store: S::empty() };
        proof {
            assert(s@ =~= Map::<int, S::Item>::empty());
        }
        s
    }

    /// Read-only access to the presence mask, for query composition.
    pub fn mask(&self) -> (r: &BitSet)
        ensures
            *r == self.mask_spec(),
            self.wf() ==> r.wf(),
            forall|i: int| r.has(i) == self@.contains_key(i),
    {
        &self.mask
    }

    /// Read-only access to the raw storage. Reading it at a slot is only
    /// meaningful where the mask is set; `get` bundles that test.
    pub fn inner(&self) -> (r: &S)
        ensures
            *r == self.store_spec(),
    {
        &self.store
    }

    /// The stored value at `index`, if the mask has it.
    pub fn get(&self, index: usize) -> (r: Option<&S::Item>)
        requires
            self.wf(),
            index < SLOT_CAP,
        ensures
            match r {
                Option::Some(v) => self@.contains_key(index as int) && *v == self@[index as int],
                Option::None => !self@.contains_key(index as int),
            },
    {
        if self.mask.contains(index) {
            Some(self.store.get(index))
        } else {
            None
        }
    }

    /// The unguarded fast accessor: reads a slot whose presence the caller
    /// has already proven, with no mask test of its own. This is the
    /// load-bearing contract between mask intersection and per-item fetch:
    /// the proof obligation here is exactly the membership the intersection
    /// step established.
    pub fn get_present(&self, index: usize) -> (r: &S::Item)
        requires
            self.wf(),
            index < SLOT_CAP,
            self@.contains_key(index as int),
        ensures
            *r == self@[index as int],
    {
        self.store.get(index)
    }

    /// The stored value at `index` for mutation, if the mask has it.
    pub fn get_mut(&mut self, index: usize) -> (r: Option<&mut S::Item>)
        requires
            old(self).wf(),
            index < SLOT_CAP,
        ensures
            final(self).wf(),
            match r {
                Option::Some(v) => old(self)@.contains_key(index as int) && *v == old(self)@[
                    index as int
                ] && final(self)@ =~= old(self)@.insert(index as int, *final(v)),
                Option::None => !old(self)@.contains_key(index as int) && *final(self) == *old(
                    self,
                ),
            },
    {
        if self.mask.contains(index) {
            Some(self.store.get_mut(index))
        } else {
            None
        }
    }

    /// Stores `value` at `index`. If the slot was occupied the previous
    /// value is exchanged out and returned; otherwise the mask bit is set.
    pub fn insert(&mut self, index: usize, value: S::Item) -> (prev: Option<S::Item>)
        requires
            old(self).wf(),
            index < SLOT_CAP,
        ensures
            final(self).wf(),
            final(self)@ == old(self)@.insert(index as int, value),
            prev == if old(self)@.contains_key(index as int) {
                Option::Some(old(self)@[index as int])
            } else {
                Option::None::<S::Item>
            },
    {
        let prev: Option<S::Item> = if self.mask.contains(index) {
            let prev_val: S::Item = self.store.remove(index);
            self.store.insert(index, value);
            Some(prev_val)
        } else {
            self.mask.insert(index);
            self.store.insert(index, value);
            None
        };
        proof {
            assert(self@ =~= old(self)@.insert(index as int, value));
        }
        prev
    }

    /// Clears the mask bit at `index` and moves the stored value out, if
    /// the slot was occupied.
    pub fn remove(&mut self, index: usize) -> (r: Option<S::Item>)
        requires
            old(self).wf(),
            index < SLOT_CAP,
        ensures
            final(self).wf(),
            final(self)@ == old(self)@.remove(index as int),
            r == if old(self)@.contains_key(index as int) {
                Option::Some(old(self)@[index as int])
            } else {
                Option::None::<S::Item>
            },
    {
        let r: Option<S::Item> = if self.mask.remove(index) {
            Some(self.store.remove(index))
        } else {
            None
        };
        proof {
            assert(self@ =~= old(self)@.remove(index as int));
        }
        r
    }
}

impl<S: RawStore> Default for MaskStore<S> {
    /// The empty column.
    fn default() -> (s: Self)
        ensures
            s.wf(),
            s@ == Map::<int, S::Item>::empty(),
    {
        MaskStore::new()
    }
}

} // verus!
