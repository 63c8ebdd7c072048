//! The query engine: intersects column masks and walks the members lazily.
//!
//! A required component narrows the result set to slots present in its
//! mask; an optional component leaves the result set alone and reports
//! presence or absence per visited slot. Enumeration follows the bitset's
//! ascending slot order, and each iterator carries its own cursor, so
//! re-running a composed query is independent of earlier runs.
//!
//! Fetching a required component at a slot the mask intersection has
//! already admitted uses the column's unguarded fast accessor; the
//! membership proof discharged there is the verified form of the contract
//! between the intersection step and the per-item fetch step.
//!
//! Required components compose at arities one to four; an optional
//! component is offered beside one required column (`MaybeQuery`) or two
//! (`MaybeQuery3`). Other shapes are the same walk spelled out: run the
//! required-only iterator over the required columns and look the optional
//! ones up per slot with `MaskStore::get`, which is all the optional fetch
//! here does.

use crate::bitset::SLOT_CAP;
use crate::store::{MaskStore, RawStore};
use vstd::prelude::*;

verus! {

/// A pair of columns composed as required components: the result set is
/// the intersection of their masks.
pub struct QueryTuple<'a, S1, S2> {
    pub first: &'a MaskStore<S1>,
    pub second: &'a MaskStore<S2>,
}

/// A pair of columns where the second is optional: every slot of the first
/// mask is yielded, with the second component present or absent per slot.
pub struct MaybeQuery<'a, S1, S2> {
    pub first: &'a MaskStore<S1>,
    pub second: &'a MaskStore<S2>,
}

/// Lazy ascending iterator over the intersection of two required columns.
pub struct QueryIter<'a, S1, S2> {
    first: &'a MaskStore<S1>,
    second: &'a MaskStore<S2>,
    pos: usize,
}

impl<'a, S1: RawStore, S2: RawStore> QueryIter<'a, S1, S2> {
    pub closed spec fn first_view(self) -> Map<int, S1::Item> {
        self.first@
    }

    pub closed spec fn second_view(self) -> Map<int, S2::Item> {
        self.second@
    }

    /// The cursor: slots below it have been visited.
    pub closed spec fn pos_spec(self) -> usize {
        self.pos
    }

    pub closed spec fn wf(self) -> bool {
        self.first.wf() && self.second.wf() && self.pos <= SLOT_CAP
    }

    /// True iff `j` belongs to the query's result set.
    pub open spec fn matches(self, j: int) -> bool {
        self.first_view().contains_key(j) && self.second_view().contains_key(j)
    }

    pub fn new(query: QueryTuple<'a, S1, S2>) -> (it: QueryIter<'a, S1, S2>)
        requires
            query.first.wf(),
            query.second.wf(),
        ensures
            it.wf(),
            it.first_view() == query.first@,
            it.second_view() == query.second@,
            it.pos_spec() == 0,
    {
        QueryIter { first: query.first, second: query.second, pos: 0 }
    }

    /// The next slot present in both masks, with both attribute references,
    /// in ascending slot order; nothing once the intersection is walked.
    pub fn next(&mut self) -> (r: Option<(usize, &'a S1::Item, &'a S2::Item)>)
        requires
            old(self).wf(),
        ensures
            final(self).wf(),
            final(self).first_view() == old(self).first_view(),
            final(self).second_view() == old(self).second_view(),
            match r {
                Option::Some(item) => {
                    &&& old(self).pos_spec() <= item.0 < SLOT_CAP
                    &&& old(self).matches(item.0 as int)
                    &&& *item.1 == old(self).first_view()[item.0 as int]
                    &&& *item.2 == old(self).second_view()[item.0 as int]
                    &&& forall|j: int|
                        old(self).pos_spec() <= j < item.0 ==> !old(self).matches(j)
                    &&& final(self).pos_spec() == item.0 + 1
                },
                Option::None => forall|j: int|
                    old(self).pos_spec() <= j < SLOT_CAP ==> !old(self).matches(j),
            },
    {
        while self.pos < SLOT_CAP
            invariant
                self.wf(),
                self.first == old(self).first,
                self.second == old(self).second,
                old(self).pos_spec() <= self.pos <= SLOT_CAP,
                forall|j: int| old(self).pos_spec() <= j < self.pos ==> !old(self).matches(j),
            decreases SLOT_CAP - self.pos,
        {
            let mask1 = self.first.mask();
            let found: Option<usize> = mask1.next_set_from(self.pos);
            match found {
                Option::None => {
                    proof {
                        assert forall|j: int|
                            self.pos <= j < SLOT_CAP implies !old(self).matches(j) by {
                            assert(!mask1.has(j));
                            assert(!self.first@.contains_key(j));
                        }
                    }
                    self.pos = SLOT_CAP;
                    return None;
                },
                Option::Some(s) => {
                    proof {
                        assert forall|j: int| self.pos <= j < s implies !old(self).matches(j) by {
                            assert(!mask1.has(j));
                            assert(!self.first@.contains_key(j));
                        }
                        assert(mask1.has(s as int));
                        assert(self.first@.contains_key(s as int));
                    }
                    if self.second.mask().contains(s) {
                        self.pos = s + 1;
                        let va: &'a S1::Item = self.first.get_present(s);
                        let vb: &'a S2::Item = self.second.get_present(s);
                        return Some((s, va, vb));
                    }
                    proof {
                        assert(!self.second@.contains_key(s as int));
                        assert(!old(self).matches(s as int));
                    }
                    self.pos = s + 1;
                },
            }
        }
        None
    }
}

/// Lazy ascending iterator over a required column with an optional one.
pub struct MaybeIter<'a, S1, S2> {
    first: &'a MaskStore<S1>,
    second: &'a MaskStore<S2>,
    pos: usize,
}

impl<'a, S1: RawStore, S2: RawStore> MaybeIter<'a, S1, S2> {
    pub closed spec fn first_view(self) -> Map<int, S1::Item> {
        self.first@
    }

    pub closed spec fn second_view(self) -> Map<int, S2::Item> {
        self.second@
    }

    /// The cursor: slots below it have been visited.
    pub closed spec fn pos_spec(self) -> usize {
        self.pos
    }

    pub closed spec fn wf(self) -> bool {
        self.first.wf() && self.second.wf() && self.pos <= SLOT_CAP
    }

    pub fn new(query: MaybeQuery<'a, S1, S2>) -> (it: MaybeIter<'a, S1, S2>)
        requires
            query.first.wf(),
            query.second.wf(),
        ensures
            it.wf(),
            it.first_view() == query.first@,
            it.second_view() == query.second@,
            it.pos_spec() == 0,
    {
        MaybeIter { first: query.first, second: query.second, pos: 0 }
    }

    /// The next slot present in the required mask, in ascending order; the
    /// optional component is looked up per slot and reported present or
    /// absent rather than narrowing the walk.
    pub fn next(&mut self) -> (r: Option<(usize, &'a S1::Item, Option<&'a S2::Item>)>)
        requires
            old(self).wf(),
        ensures
            final(self).wf(),
            final(self).first_view() == old(self).first_view(),
            final(self).second_view() == old(self).second_view(),
            match r {
                Option::Some(item) => {
                    &&& old(self).pos_spec() <= item.0 < SLOT_CAP
                    &&& old(self).first_view().contains_key(item.0 as int)
                    &&& *item.1 == old(self).first_view()[item.0 as int]
                    &&& match item.2 {
                        Option::Some(vb) => old(self).second_view().contains_key(item.0 as int)
                            && *vb == old(self).second_view()[item.0 as int],
                        Option::None => !old(self).second_view().contains_key(item.0 as int),
                    }
                    &&& forall|j: int|
                        old(self).pos_spec() <= j < item.0 ==> !old(self).first_view(
                        ).contains_key(j)
                    &&& final(self).pos_spec() == item.0 + 1
                },
                Option::None => forall|j: int|
                    old(self).pos_spec() <= j < SLOT_CAP ==> !old(self).first_view(
                    ).contains_key(j),
            },
    {
        let mask1 = self.first.mask();
        let found: Option<usize> = mask1.next_set_from(self.pos);
        match found {
            Option::None => {
                proof {
                    assert forall|j: int|
                        self.pos <= j < SLOT_CAP implies !old(self).first_view().contains_key(
                        j,
                    ) by {
                        assert(!mask1.has(j));
                    }
                }
                self.pos = SLOT_CAP;
                None
            },
            Option::Some(s) => {
                proof {
                    assert forall|j: int|
                        self.pos <= j < s implies !old(self).first_view().contains_key(j) by {
                        assert(!mask1.has(j));
                    }
                    assert(mask1.has(s as int));
                    assert(self.first@.contains_key(s as int));
                }
                self.pos = s + 1;
                let va: &'a S1::Item = self.first.get_present(s);
                let vb: Option<&'a S2::Item> = self.second.get(s);
                Some((s, va, vb))
            },
        }
    }
}

/// Lazy ascending iterator over a single column, the one-component query.
pub struct ColumnIter<'a, S1> {
    first: &'a MaskStore<S1>,
    pos: usize,
}

impl<'a, S1: RawStore> ColumnIter<'a, S1> {
    pub closed spec fn first_view(self) -> Map<int, S1::Item> {
        self.first@
    }

    /// The cursor: slots below it have been visited.
    pub closed spec fn pos_spec(self) -> usize {
        self.pos
    }

    pub closed spec fn wf(self) -> bool {
        self.first.wf() && self.pos <= SLOT_CAP
    }

    pub fn new(first: &'a MaskStore<S1>) -> (it: ColumnIter<'a, S1>)
        requires
            first.wf(),
        ensures
            it.wf(),
            it.first_view() == first@,
            it.pos_spec() == 0,
    {
        ColumnIter { first, pos: 0 }
    }

    /// The next slot present in the column, ascending, with its value.
    pub fn next(&mut self) -> (r: Option<(usize, &'a S1::Item)>)
        requires
            old(self).wf(),
        ensures
            final(self).wf(),
            final(self).first_view() == old(self).first_view(),
            match r {
                Option::Some(item) => {
                    &&& old(self).pos_spec() <= item.0 < SLOT_CAP
                    &&& old(self).first_view().contains_key(item.0 as int)
                    &&& *item.1 == old(self).first_view()[item.0 as int]
                    &&& forall|j: int|
                        old(self).pos_spec() <= j < item.0 ==> !old(self).first_view(
                        ).contains_key(j)
                    &&& final(self).pos_spec() == item.0 + 1
                },
                Option::None => forall|j: int|
                    old(self).pos_spec() <= j < SLOT_CAP ==> !old(self).first_view(
                    ).contains_key(j),
            },
    {
        let mask1 = self.first.mask();
        let found: Option<usize> = mask1.next_set_from(self.pos);
        match found {
            Option::None => {
                proof {
                    assert forall|j: int|
                        self.pos <= j < SLOT_CAP implies !old(self).first_view().contains_key(
                        j,
                    ) by {
                        assert(!mask1.has(j));
                    }
                }
                self.pos = SLOT_CAP;
                None
            },
            Option::Some(s) => {
                proof {
                    assert forall|j: int|
                        self.pos <= j < s implies !old(self).first_view().contains_key(j) by {
                        assert(!mask1.has(j));
                    }
                    assert(mask1.has(s as int));
                    assert(self.first@.contains_key(s as int));
                }
                self.pos = s + 1;
                let va: &'a S1::Item = self.first.get_present(s);
                Some((s, va))
            },
        }
    }
}

/// Three columns composed as required components.
pub struct QueryTuple3<'a, S1, S2, S3> {
    pub first: &'a MaskStore<S1>,
    pub second: &'a MaskStore<S2>,
    pub third: &'a MaskStore<S3>,
}

/// Lazy ascending iterator over the intersection of three required columns.
pub struct QueryIter3<'a, S1, S2, S3> {
    first: &'a MaskStore<S1>,
    second: &'a MaskStore<S2>,
    third: &'a MaskStore<S3>,
    pos: usize,
}

impl<'a, S1: RawStore, S2: RawStore, S3: RawStore> QueryIter3<'a, S1, S2, S3> {
    pub closed spec fn first_view(self) -> Map<int, S1::Item> {
        self.first@
    }

    pub closed spec fn second_view(self) -> Map<int, S2::Item> {
        self.second@
    }

    pub closed spec fn third_view(self) -> Map<int, S3::Item> {
        self.third@
    }

    /// The cursor: slots below it have been visited.
    pub closed spec fn pos_spec(self) -> usize {
        self.pos
    }

    pub closed spec fn wf(self) -> bool {
        self.first.wf() && self.second.wf() && self.third.wf() && self.pos <= SLOT_CAP
    }

    /// True iff `j` belongs to the query's result set.
    pub open spec fn matches(self, j: int) -> bool {
        self.first_view().contains_key(j) && self.second_view().contains_key(j)
            && self.third_view().contains_key(j)
    }

    pub fn new(query: QueryTuple3<'a, S1, S2, S3>) -> (it: QueryIter3<'a, S1, S2, S3>)
        requires
            query.first.wf(),
            query.second.wf(),
            query.third.wf(),
        ensures
            it.wf(),
            it.first_view() == query.first@,
            it.second_view() == query.second@,
            it.third_view() == query.third@,
            it.pos_spec() == 0,
    {
        QueryIter3 { first: query.first, second: query.second, third: query.third, pos: 0 }
    }

    /// The next slot present in all three masks, ascending, with all three
    /// attribute references.
    pub fn next(&mut self) -> (r: Option<(usize, &'a S1::Item, &'a S2::Item, &'a S3::Item)>)
        requires
            old(self).wf(),
        ensures
            final(self).wf(),
            final(self).first_view() == old(self).first_view(),
            final(self).second_view() == old(self).second_view(),
            final(self).third_view() == old(self).third_view(),
            match r {
                Option::Some(item) => {
                    &&& old(self).pos_spec() <= item.0 < SLOT_CAP
                    &&& old(self).matches(item.0 as int)
                    &&& *item.1 == old(self).first_view()[item.0 as int]
                    &&& *item.2 == old(self).second_view()[item.0 as int]
                    &&& *item.3 == old(self).third_view()[item.0 as int]
                    &&& forall|j: int|
                        old(self).pos_spec() <= j < item.0 ==> !old(self).matches(j)
                    &&& final(self).pos_spec() == item.0 + 1
                },
                Option::None => forall|j: int|
                    old(self).pos_spec() <= j < SLOT_CAP ==> !old(self).matches(j),
            },
    {
        while self.pos < SLOT_CAP
            invariant
                self.wf(),
                self.first == old(self).first,
                self.second == old(self).second,
                self.third == old(self).third,
                old(self).pos_spec() <= self.pos <= SLOT_CAP,
                forall|j: int| old(self).pos_spec() <= j < self.pos ==> !old(self).matches(j),
            decreases SLOT_CAP - self.pos,
        {
            let mask1 = self.first.mask();
            let found: Option<usize> = mask1.next_set_from(self.pos);
            match found {
                Option::None => {
                    proof {
                        assert forall|j: int|
                            self.pos <= j < SLOT_CAP implies !old(self).matches(j) by {
                            assert(!mask1.has(j));
                            assert(!self.first@.contains_key(j));
                        }
                    }
                    self.pos = SLOT_CAP;
                    return None;
                },
                Option::Some(s) => {
                    proof {
                        assert forall|j: int| self.pos <= j < s implies !old(self).matches(j) by {
                            assert(!mask1.has(j));
                            assert(!self.first@.contains_key(j));
                        }
                        assert(mask1.has(s as int));
                        assert(self.first@.contains_key(s as int));
                    }
                    if self.second.mask().contains(s) && self.third.mask().contains(s) {
                        self.pos = s + 1;
                        let va: &'a S1::Item = self.first.get_present(s);
                        let vb: &'a S2::Item = self.second.get_present(s);
                        let vc: &'a S3::Item = self.third.get_present(s);
                        return Some((s, va, vb, vc));
                    }
                    proof {
                        assert(!old(self).matches(s as int));
                    }
                    self.pos = s + 1;
                },
            }
        }
        None
    }
}

/// Four columns composed as required components.
pub struct QueryTuple4<'a, S1, S2, S3, S4> {
    pub first: &'a MaskStore<S1>,
    pub second: &'a MaskStore<S2>,
    pub third: &'a MaskStore<S3>,
    pub fourth: &'a MaskStore<S4>,
}

/// Lazy ascending iterator over the intersection of four required columns.
pub struct QueryIter4<'a, S1, S2, S3, S4> {
    first: &'a MaskStore<S1>,
    second: &'a MaskStore<S2>,
    third: &'a MaskStore<S3>,
    fourth: &'a MaskStore<S4>,
    pos: usize,
}

impl<'a, S1: RawStore, S2: RawStore, S3: RawStore, S4: RawStore> QueryIter4<'a, S1, S2, S3, S4> {
    pub closed spec fn first_view(self) -> Map<int, S1::Item> {
        self.first@
    }

    pub closed spec fn second_view(self) -> Map<int, S2::Item> {
        self.second@
    }

    pub closed spec fn third_view(self) -> Map<int, S3::Item> {
        self.third@
    }

    pub closed spec fn fourth_view(self) -> Map<int, S4::Item> {
        self.fourth@
    }

    /// The cursor: slots below it have been visited.
    pub closed spec fn pos_spec(self) -> usize {
        self.pos
    }

    pub closed spec fn wf(self) -> bool {
        self.first.wf() && self.second.wf() && self.third.wf() && self.fourth.wf() && self.pos
            <= SLOT_CAP
    }

    /// True iff `j` belongs to the query's result set.
    pub open spec fn matches(self, j: int) -> bool {
        self.first_view().contains_key(j) && self.second_view().contains_key(j)
            && self.third_view().contains_key(j) && self.fourth_view().contains_key(j)
    }

    pub fn new(query: QueryTuple4<'a, S1, S2, S3, S4>) -> (it: QueryIter4<'a, S1, S2, S3, S4>)
        requires
            query.first.wf(),
            query.second.wf(),
            query.third.wf(),
            query.fourth.wf(),
        ensures
            it.wf(),
            it.first_view() == query.first@,
            it.second_view() == query.second@,
            it.third_view() == query.third@,
            it.fourth_view() == query.fourth@,
            it.pos_spec() == 0,
    {
        QueryIter4 {
            first: query.first,
            second: query.second,
            third: query.third,
            fourth: query.fourth,
            pos: 0,
        }
    }

    /// The next slot present in all four masks, ascending, with all four
    /// attribute references.
    pub fn next(&mut self) -> (r: Option<
        (usize, &'a S1::Item, &'a S2::Item, &'a S3::Item, &'a S4::Item),
    >)
        requires
            old(self).wf(),
        ensures
            final(self).wf(),
            final(self).first_view() == old(self).first_view(),
            final(self).second_view() == old(self).second_view(),
            final(self).third_view() == old(self).third_view(),
            final(self).fourth_view() == old(self).fourth_view(),
            match r {
                Option::Some(item) => {
                    &&& old(self).pos_spec() <= item.0 < SLOT_CAP
                    &&& old(self).matches(item.0 as int)
                    &&& *item.1 == old(self).first_view()[item.0 as int]
                    &&& *item.2 == old(self).second_view()[item.0 as int]
                    &&& *item.3 == old(self).third_view()[item.0 as int]
                    &&& *item.4 == old(self).fourth_view()[item.0 as int]
                    &&& forall|j: int|
                        old(self).pos_spec() <= j < item.0 ==> !old(self).matches(j)
                    &&& final(self).pos_spec() == item.0 + 1
                },
                Option::None => forall|j: int|
                    old(self).pos_spec() <= j < SLOT_CAP ==> !old(self).matches(j),
            },
    {
        while self.pos < SLOT_CAP
            invariant
                self.wf(),
                self.first == old(self).first,
                self.second == old(self).second,
                self.third == old(self).third,
                self.fourth == old(self).fourth,
                old(self).pos_spec() <= self.pos <= SLOT_CAP,
                forall|j: int| old(self).pos_spec() <= j < self.pos ==> !old(self).matches(j),
            decreases SLOT_CAP - self.pos,
        {
            let mask1 = self.first.mask();
            let found: Option<usize> = mask1.next_set_from(self.pos);
            match found {
                Option::None => {
                    proof {
                        assert forall|j: int|
                            self.pos <= j < SLOT_CAP implies !old(self).matches(j) by {
                            assert(!mask1.has(j));
                            assert(!self.first@.contains_key(j));
                        }
                    }
                    self.pos = SLOT_CAP;
                    return None;
                },
                Option::Some(s) => {
                    proof {
                        assert forall|j: int| self.pos <= j < s implies !old(self).matches(j) by {
                            assert(!mask1.has(j));
                            assert(!self.first@.contains_key(j));
                        }
                        assert(mask1.has(s as int));
                        assert(self.first@.contains_key(s as int));
                    }
                    if self.second.mask().contains(s) && self.third.mask().contains(s)
                        && self.fourth.mask().contains(s) {
                        self.pos = s + 1;
                        let va: &'a S1::Item = self.first.get_present(s);
                        let vb: &'a S2::Item = self.second.get_present(s);
                        let vc: &'a S3::Item = self.third.get_present(s);
                        let vd: &'a S4::Item = self.fourth.get_present(s);
                        return Some((s, va, vb, vc, vd));
                    }
                    proof {
                        assert(!old(self).matches(s as int));
                    }
                    self.pos = s + 1;
                },
            }
        }
        None
    }
}

/// Two required columns with an optional third: the walk is the
/// intersection of the first two masks, and the third component is
/// reported present or absent per visited slot.
pub struct MaybeQuery3<'a, S1, S2, S3> {
    pub first: &'a MaskStore<S1>,
    pub second: &'a MaskStore<S2>,
    pub third: &'a MaskStore<S3>,
}

/// Lazy ascending iterator for `MaybeQuery3`.
pub struct MaybeIter3<'a, S1, S2, S3> {
    first: &'a MaskStore<S1>,
    second: &'a MaskStore<S2>,
    third: &'a MaskStore<S3>,
    pos: usize,
}

impl<'a, S1: RawStore, S2: RawStore, S3: RawStore> MaybeIter3<'a, S1, S2, S3> {
    pub closed spec fn first_view(self) -> Map<int, S1::Item> {
        self.first@
    }

    pub closed spec fn second_view(self) -> Map<int, S2::Item> {
        self.second@
    }

    pub closed spec fn third_view(self) -> Map<int, S3::Item> {
        self.third@
    }

    /// The cursor: slots below it have been visited.
    pub closed spec fn pos_spec(self) -> usize {
        self.pos
    }

    pub closed spec fn wf(self) -> bool {
        self.first.wf() && self.second.wf() && self.third.wf() && self.pos <= SLOT_CAP
    }

    /// True iff `j` belongs to the result set: present in both required
    /// masks, whatever the optional one says.
    pub open spec fn matches(self, j: int) -> bool {
        self.first_view().contains_key(j) && self.second_view().contains_key(j)
    }

    pub fn new(query: MaybeQuery3<'a, S1, S2, S3>) -> (it: MaybeIter3<'a, S1, S2, S3>)
        requires
            query.first.wf(),
            query.second.wf(),
            query.third.wf(),
        ensures
            it.wf(),
            it.first_view() == query.first@,
            it.second_view() == query.second@,
            it.third_view() == query.third@,
            it.pos_spec() == 0,
    {
        MaybeIter3 { first: query.first, second: query.second, third: query.third, pos: 0 }
    }

    /// The next slot present in both required masks, ascending, with both
    /// required references and the optional component present or absent.
    pub fn next(&mut self) -> (r: Option<
        (usize, &'a S1::Item, &'a S2::Item, Option<&'a S3::Item>),
    >)
        requires
            old(self).wf(),
        ensures
            final(self).wf(),
            final(self).first_view() == old(self).first_view(),
            final(self).second_view() == old(self).second_view(),
            final(self).third_view() == old(self).third_view(),
            match r {
                Option::Some(item) => {
                    &&& old(self).pos_spec() <= item.0 < SLOT_CAP
                    &&& old(self).matches(item.0 as int)
                    &&& *item.1 == old(self).first_view()[item.0 as int]
                    &&& *item.2 == old(self).second_view()[item.0 as int]
                    &&& match item.3 {
                        Option::Some(vc) => old(self).third_view().contains_key(item.0 as int)
                            && *vc == old(self).third_view()[item.0 as int],
                        Option::None => !old(self).third_view().contains_key(item.0 as int),
                    }
                    &&& forall|j: int|
                        old(self).pos_spec() <= j < item.0 ==> !old(self).matches(j)
                    &&& final(self).pos_spec() == item.0 + 1
                },
                Option::None => forall|j: int|
                    old(self).pos_spec() <= j < SLOT_CAP ==> !old(self).matches(j),
            },
    {
        while self.pos < SLOT_CAP
            invariant
                self.wf(),
                self.first == old(self).first,
                self.second == old(self).second,
                self.third == old(self).third,
                old(self).pos_spec() <= self.pos <= SLOT_CAP,
                forall|j: int| old(self).pos_spec() <= j < self.pos ==> !old(self).matches(j),
            decreases SLOT_CAP - self.pos,
        {
            let mask1 = self.first.mask();
            let found: Option<usize> = mask1.next_set_from(self.pos);
            match found {
                Option::None => {
                    proof {
                        assert forall|j: int|
                            self.pos <= j < SLOT_CAP implies !old(self).matches(j) by {
                            assert(!mask1.has(j));
                            assert(!self.first@.contains_key(j));
                        }
                    }
                    self.pos = SLOT_CAP;
                    return None;
                },
                Option::Some(s) => {
                    proof {
                        assert forall|j: int| self.pos <= j < s implies !old(self).matches(j) by {
                            assert(!mask1.has(j));
                            assert(!self.first@.contains_key(j));
                        }
                        assert(mask1.has(s as int));
                        assert(self.first@.contains_key(s as int));
                    }
                    if self.second.mask().contains(s) {
                        self.pos = s + 1;
                        let va: &'a S1::Item = self.first.get_present(s);
                        let vb: &'a S2::Item = self.second.get_present(s);
                        let vc: Option<&'a S3::Item> = self.third.get(s);
                        return Some((s, va, vb, vc));
                    }
                    proof {
                        assert(!self.second@.contains_key(s as int));
                        assert(!old(self).matches(s as int));
                    }
                    self.pos = s + 1;
                },
            }
        }
        None
    }
}

} // verus!
