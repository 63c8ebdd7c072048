//! Laws that tie several operations together, stated over the same spec
//! views the operations' contracts use.

use crate::bitset::{ascending_listing, BitSet, SLOT_CAP};
use crate::entity::Entities;
use vstd::prelude::*;

verus! {

/// Bitset round trip: after inserting a slot, the bitset holds it and any
/// ascending listing of the members shows it exactly once; after removing
/// it again, membership and listing both drop it. The two quantified
/// premises are what `insert` and `remove` ensure of the states they leave.
pub proof fn lemma_bitset_round_trip(
    pre: BitSet,
    ins: BitSet,
    rem: BitSet,
    slot: int,
    ins_out: Seq<usize>,
    rem_out: Seq<usize>,
)
    requires
        0 <= slot < SLOT_CAP,
        forall|j: int| #[trigger] ins.has(j) == (pre.has(j) || j == slot),
        forall|j: int| #[trigger] rem.has(j) == (ins.has(j) && j != slot),
        ascending_listing(ins, ins_out),
        ascending_listing(rem, rem_out),
    ensures
        ins.has(slot),
        ins_out.contains(slot as usize),
        forall|k1: int, k2: int|
            0 <= k1 < ins_out.len() && 0 <= k2 < ins_out.len() && ins_out[k1] == slot as usize
                && ins_out[k2] == slot as usize ==> k1 == k2,
        !rem.has(slot),
        !rem_out.contains(slot as usize),
{
    assert(ins.has(slot));
    assert(ins_out.contains(slot as usize));
    assert forall|k1: int, k2: int|
        0 <= k1 < ins_out.len() && 0 <= k2 < ins_out.len() && ins_out[k1] == slot as usize
            && ins_out[k2] == slot as usize implies k1 == k2 by {
        if k1 < k2 {
            assert(ins_out[k1] < ins_out[k2]);
        }
        if k2 < k1 {
            assert(ins_out[k2] < ins_out[k1]);
        }
    }
    if rem_out.contains(slot as usize) {
        let k = choose|k: int| 0 <= k < rem_out.len() && rem_out[k] == slot as usize;
        assert(rem.has(slot));
    }
}

/// Column insert/remove symmetry, over the column's map view: storing a
/// value makes it the one read at that slot; removing it afterwards leaves
/// the slot absent and every other slot as it was.
pub proof fn lemma_column_insert_remove<V>(before: Map<int, V>, slot: int, v: V)
    ensures
        before.insert(slot, v).contains_key(slot),
        before.insert(slot, v)[slot] == v,
        !before.insert(slot, v).remove(slot).contains_key(slot),
        forall|j: int|
            j != slot ==> before.insert(slot, v).remove(slot).contains_key(j)
                == before.contains_key(j),
        forall|j: int|
            j != slot && before.contains_key(j) ==> before.insert(slot, v).remove(slot)[j]
                == before[j],
{
}

/// Handle freshness: every handle the lookup map holds sits strictly below
/// the monotonic counter, so the handle `allocate` issues next can collide
/// neither with a live handle nor with any freed one, which was below the
/// counter when it was issued and the counter never moves back.
pub proof fn lemma_handle_fresh(e: Entities, h: u64)
    requires
        e.wf(),
        e.index_map@.contains_key(h),
    ensures
        h < e.handle_alloc.next_spec(),
{
}

} // verus!
