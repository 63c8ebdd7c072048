//! The three-level hierarchical presence bitset.
//!
//! A slot below `SLOT_CAP` decomposes into a top, middle and bottom index of
//! eight bits each. One top block is always present; middle and bottom
//! blocks are drawn from growable pools and addressed through compressed
//! child pointers (eight bits for top to middle, sixteen for middle to
//! bottom). A block whose bits have all been cleared is returned to its
//! pool's free list, which is threaded through the blocks themselves: the
//! first word of a freed block holds the pool index of the next free block,
//! `NO_BLOCK` closing the chain.

use crate::bits::Bits;
use vstd::prelude::*;
use vstd::seq_lib::*;

verus! {

/// Number of addressable slots: 256 top bits, each over 256 middle bits,
/// each over a 256-bit bottom block.
pub const SLOT_CAP: usize = 16777216;

/// Free-list terminator stored in a freed block's first word.
pub const NO_BLOCK: u64 = u64::MAX;

/// Sentinel for a level with no free block.
pub const NO_FREE: usize = usize::MAX;

/// Top index of a slot.
pub open spec fn slot_top(slot: int) -> int {
    slot / 65536
}

/// Middle index of a slot.
pub open spec fn slot_mid(slot: int) -> int {
    (slot % 65536) / 256
}

/// Bottom index of a slot.
pub open spec fn slot_bot(slot: int) -> int {
    slot % 256
}

/// The single top block: 256 presence bits and the compressed pointers to
/// the middle blocks of the set bits.
pub(crate) struct TopBlock {
    pub(crate) bits: Bits,
    pub(crate) indices: Vec<u8>,
}

/// A pooled middle block: 256 presence bits and the compressed pointers to
/// the bottom blocks of the set bits.
pub(crate) struct MiddleBlock {
    pub(crate) bits: Bits,
    pub(crate) indices: Vec<u16>,
}

/// A pooled bottom block: 256 slot presence bits.
pub(crate) struct BottomBlock {
    pub(crate) bits: Bits,
}

/// A slot's three level indices.
pub(crate) struct LevelIndices {
    pub(crate) top: usize,
    pub(crate) middle: usize,
    pub(crate) bottom: usize,
}

impl LevelIndices {
    pub(crate) fn new(slot: usize) -> (r: LevelIndices)
        requires
            slot < SLOT_CAP,
        ensures
            r.top == slot_top(slot as int),
            r.middle == slot_mid(slot as int),
            r.bottom == slot_bot(slot as int),
            r.top < 256,
            r.middle < 256,
            r.bottom < 256,
    {
        proof {
            lemma_slot_parts(slot as int);
        }
        let top: usize = slot / 65536;
        let top_rem: usize = slot % 65536;
        let middle: usize = top_rem / 256;
        let bottom: usize = top_rem % 256;
        proof {
            assert(top_rem % 256 == slot as int % 256) by (nonlinear_arith)
                requires
                    top_rem == slot as int % 65536,
            ;
        }
        LevelIndices { top, middle, bottom }
    }
}

/// Splitting a slot into its level indices.
pub proof fn lemma_slot_parts(j: int)
    by (nonlinear_arith)
    requires
        0 <= j < SLOT_CAP,
    ensures
        0 <= slot_top(j) < 256,
        0 <= slot_mid(j) < 256,
        0 <= slot_bot(j) < 256,
        j == slot_top(j) * 65536 + slot_mid(j) * 256 + slot_bot(j),
{
}

/// Composing level indices into a slot.
pub proof fn lemma_slot_compose(t: int, m: int, b: int)
    by (nonlinear_arith)
    requires
        0 <= t < 256,
        0 <= m < 256,
        0 <= b < 256,
    ensures
        0 <= t * 65536 + m * 256 + b < SLOT_CAP,
        slot_top(t * 65536 + m * 256 + b) == t,
        slot_mid(t * 65536 + m * 256 + b) == m,
        slot_bot(t * 65536 + m * 256 + b) == b,
{
}

/// The pool of middle blocks, with its embedded free list. `empty` is the
/// pool index of the first free block, `NO_FREE` when there is none; the
/// ghost `free` sequence mirrors the whole chain.
pub(crate) struct MidLevel {
    pub(crate) blocks: Vec<MiddleBlock>,
    pub(crate) empty: usize,
    pub(crate) free: Ghost<Seq<int>>,
}

/// The pool of bottom blocks, with its embedded free list.
pub(crate) struct BotLevel {
    pub(crate) blocks: Vec<BottomBlock>,
    pub(crate) empty: usize,
    pub(crate) free: Ghost<Seq<int>>,
}

impl MidLevel {
    /// Every block of the pool has well-formed bits and a full pointer table.
    pub(crate) open spec fn blocks_wf(self) -> bool {
        forall|k: int|
            0 <= k < self.blocks@.len() ==> (#[trigger] self.blocks@[k]).bits.wf()
                && self.blocks@[k].indices@.len() == 256
    }

    /// The word a free block at chain position `k` must hold in its link.
    pub(crate) open spec fn free_link(self, k: int) -> u64 {
        if k + 1 < self.free@.len() {
            self.free@[k + 1] as u64
        } else {
            NO_BLOCK
        }
    }

    /// The free list names distinct pool slots, the head matches `empty`,
    /// and each freed block is empty but for its link word.
    pub(crate) open spec fn free_wf(self) -> bool {
        &&& forall|k: int| 0 <= k < self.free@.len() ==> 0 <= #[trigger] self.free@[k]
            < self.blocks@.len()
        &&& self.free@.no_duplicates()
        &&& self.empty == if self.free@.len() == 0 {
            NO_FREE as int
        } else {
            self.free@[0]
        }
        &&& forall|k: int|
            0 <= k < self.free@.len() ==> {
                let w = (#[trigger] self.blocks@[self.free@[k]]).bits.words@;
                w[0] == self.free_link(k) && w[1] == 0 && w[2] == 0 && w[3] == 0
            }
    }

    pub(crate) open spec fn wf(self) -> bool {
        self.blocks_wf() && self.free_wf()
    }

    pub(crate) fn new() -> (lv: MidLevel)
        ensures
            lv.wf(),
            lv.blocks@.len() == 0,
            lv.free@.len() == 0,
    {
        MidLevel { blocks: Vec::new(), empty: NO_FREE, free: Ghost(Seq::empty()) }
    }

    /// Pops the head of the free list, if any, leaving that block all clear.
    pub(crate) fn pop_empty_block(&mut self) -> (r: Option<usize>)
        requires
            old(self).wf(),
            old(self).blocks@.len() <= 65536,
        ensures
            final(self).wf(),
            final(self).blocks@.len() == old(self).blocks@.len(),
            match r {
                Option::None => *final(self) == *old(self) && old(self).free@.len() == 0,
                Option::Some(idx) => {
                    &&& old(self).free@.len() > 0
                    &&& idx as int == old(self).free@[0]
                    &&& idx < old(self).blocks@.len()
                    &&& final(self).free@ == old(self).free@.subrange(
                        1,
                        old(self).free@.len() as int,
                    )
                    &&& final(self).blocks@[idx as int].bits.wf()
                    &&& final(self).blocks@[idx as int].bits.all_clear()
                    &&& final(self).blocks@[idx as int].bits.count() == 0
                    &&& final(self).blocks@[idx as int].indices == old(self).blocks@[
                        idx as int
                    ].indices
                    &&& forall|k: int|
                        0 <= k < final(self).blocks@.len() && k != idx as int
                            ==> final(self).blocks@[k] == old(self).blocks@[k]
                },
            },
    {
        if self.empty == NO_FREE {
            return None;
        }
        let idx: usize = self.empty;
        let word: u64 = self.blocks[idx].bits.take_empty_block();
        self.empty = if word == NO_BLOCK {
            NO_FREE
        } else {
            word as usize
        };
        let ghost tail = self.free@.subrange(1, self.free@.len() as int);
        self.free = Ghost(tail);
        proof {
            let blk = self.blocks@[idx as int];
            crate::bits::lemma_all_clear_words(blk.bits);
            crate::bits::lemma_count_zero(blk.bits);
            assert forall|k: int| 0 <= k < tail.len() implies 0 <= #[trigger] tail[k]
                < self.blocks@.len() && tail[k] != idx as int by {
                assert(tail[k] == old(self).free@[k + 1]);
            }
            assert forall|k: int|
                0 <= k < tail.len() implies {
                let w = (#[trigger] self.blocks@[tail[k]]).bits.words@;
                w[0] == self.free_link(k) && w[1] == 0 && w[2] == 0 && w[3] == 0
            } by {
                assert(tail[k] == old(self).free@[k + 1]);
                assert(old(self).free@.no_duplicates());
                assert(tail[k] != idx as int);
            }
        }
        Some(idx)
    }

    /// Takes a block for use: the recycled head of the free list if there is
    /// one, else a freshly pushed block.
    pub(crate) fn insert_block(&mut self) -> (idx: usize)
        requires
            old(self).wf(),
            old(self).blocks@.len() <= 256,
            old(self).free@.len() == 0 ==> old(self).blocks@.len() < 256,
        ensures
            final(self).wf(),
            idx < final(self).blocks@.len(),
            final(self).blocks@.len() == old(self).blocks@.len() + (if old(self).free@.len()
                == 0 {
                1int
            } else {
                0int
            }),
            old(self).free@.len() > 0 ==> idx as int == old(self).free@[0]
                && idx < old(self).blocks@.len()
                && final(self).free@ == old(self).free@.subrange(1, old(self).free@.len() as int),
            old(self).free@.len() == 0 ==> idx as int == old(self).blocks@.len()
                && final(self).free@ == old(self).free@,
            !final(self).free@.contains(idx as int),
            final(self).blocks@[idx as int].bits.wf(),
            final(self).blocks@[idx as int].bits.all_clear(),
            final(self).blocks@[idx as int].bits.count() == 0,
            final(self).blocks@[idx as int].indices@.len() == 256,
            forall|k: int|
                0 <= k < old(self).blocks@.len() && k != idx as int ==> final(self).blocks@[k]
                    == old(self).blocks@[k],
    {
        let popped: Option<usize> = self.pop_empty_block();
        match popped {
            Option::Some(idx) => {
                proof {
                    assert forall|k: int| 0 <= k < self.free@.len() implies self.free@[k]
                        != idx as int by {
                        assert(self.free@[k] == old(self).free@[k + 1]);
                        assert(old(self).free@.no_duplicates());
                    }
                    assert(!self.free@.contains(idx as int));
                }
                idx
            },
            Option::None => {
                let idx: usize = self.blocks.len();
                self.blocks.push(MiddleBlock::new());
                proof {
                    assert(self.free@.len() == 0);
                    assert(!self.free@.contains(idx as int));
                }
                idx
            },
        }
    }

    /// Returns an all-clear block to the free list, threading the link
    /// through the block's first word.
    pub(crate) fn free_block(&mut self, idx: usize)
        requires
            old(self).wf(),
            idx < old(self).blocks@.len(),
            old(self).blocks@.len() <= 65536,
            !old(self).free@.contains(idx as int),
            old(self).blocks@[idx as int].bits.all_clear(),
        ensures
            final(self).wf(),
            final(self).blocks@.len() == old(self).blocks@.len(),
            final(self).free@ == seq![idx as int] + old(self).free@,
            final(self).blocks@[idx as int].indices == old(self).blocks@[idx as int].indices,
            forall|k: int|
                0 <= k < old(self).blocks@.len() && k != idx as int ==> final(self).blocks@[k]
                    == old(self).blocks@[k],
    {
        proof {
            crate::bits::lemma_all_clear_words(self.blocks@[idx as int].bits);
        }
        let link: u64 = if self.empty == NO_FREE {
            NO_BLOCK
        } else {
            self.empty as u64
        };
        self.blocks[idx].bits.set_empty_block(link);
        self.empty = idx;
        let ghost newfree = seq![idx as int] + old(self).free@;
        self.free = Ghost(newfree);
        proof {
            assert forall|i: int, j: int| 0 <= i < j < newfree.len() implies newfree[i]
                != newfree[j] by {
                if i == 0 {
                    assert(newfree[j] == old(self).free@[j - 1]);
                    assert(old(self).free@.contains(old(self).free@[j - 1]));
                } else {
                    assert(newfree[i] == old(self).free@[i - 1]);
                    assert(newfree[j] == old(self).free@[j - 1]);
                    assert(old(self).free@.no_duplicates());
                }
            }
            assert(newfree.no_duplicates());
            assert forall|k: int|
                0 <= k < newfree.len() implies {
                let w = (#[trigger] self.blocks@[newfree[k]]).bits.words@;
                w[0] == self.free_link(k) && w[1] == 0 && w[2] == 0 && w[3] == 0
            } by {
                if k == 0 {
                    assert(self.blocks@[idx as int].bits.words@ == old(self).blocks@[
                        idx as int
                    ].bits.words@.update(0, link));
                } else {
                    assert(newfree[k] == old(self).free@[k - 1]);
                    assert(old(self).free@.contains(old(self).free@[k - 1]));
                    assert(newfree[k] != idx as int);
                    assert(self.blocks@[newfree[k]] == old(self).blocks@[newfree[k]]);
                }
            }
        }
    }
}

impl MiddleBlock {
    /// A fresh middle block: no set bits, a zeroed pointer table.
    pub(crate) fn new() -> (b: MiddleBlock)
        ensures
            b.bits.wf(),
            b.bits.all_clear(),
            b.bits.count() == 0,
            b.indices@.len() == 256,
    {
        let bits = Bits::new();
        let mut indices: Vec<u16> = Vec::new();
        let mut k: usize = 0;
        while k < 256
            invariant
                indices@.len() == k,
                k <= 256,
            decreases 256 - k,
        {
            indices.push(0);
            k = k + 1;
        }
        proof {
            crate::bits::lemma_count_zero(bits);
        }
        MiddleBlock { bits, indices }
    }
}

impl BotLevel {
    /// Every block of the pool has well-formed bits.
    pub(crate) open spec fn blocks_wf(self) -> bool {
        forall|k: int| 0 <= k < self.blocks@.len() ==> (#[trigger] self.blocks@[k]).bits.wf()
    }

    /// The word a free block at chain position `k` must hold in its link.
    pub(crate) open spec fn free_link(self, k: int) -> u64 {
        if k + 1 < self.free@.len() {
            self.free@[k + 1] as u64
        } else {
            NO_BLOCK
        }
    }

    /// The free list names distinct pool slots, the head matches `empty`,
    /// and each freed block is empty but for its link word.
    pub(crate) open spec fn free_wf(self) -> bool {
        &&& forall|k: int| 0 <= k < self.free@.len() ==> 0 <= #[trigger] self.free@[k]
            < self.blocks@.len()
        &&& self.free@.no_duplicates()
        &&& self.empty == if self.free@.len() == 0 {
            NO_FREE as int
        } else {
            self.free@[0]
        }
        &&& forall|k: int|
            0 <= k < self.free@.len() ==> {
                let w = (#[trigger] self.blocks@[self.free@[k]]).bits.words@;
                w[0] == self.free_link(k) && w[1] == 0 && w[2] == 0 && w[3] == 0
            }
    }

    pub(crate) open spec fn wf(self) -> bool {
        self.blocks_wf() && self.free_wf()
    }

    pub(crate) fn new() -> (lv: BotLevel)
        ensures
            lv.wf(),
            lv.blocks@.len() == 0,
            lv.free@.len() == 0,
    {
        BotLevel { blocks: Vec::new(), empty: NO_FREE, free: Ghost(Seq::empty()) }
    }

    /// Pops the head of the free list, if any, leaving that block all clear.
    pub(crate) fn pop_empty_block(&mut self) -> (r: Option<usize>)
        requires
            old(self).wf(),
            old(self).blocks@.len() <= 65536,
        ensures
            final(self).wf(),
            final(self).blocks@.len() == old(self).blocks@.len(),
            match r {
                Option::None => *final(self) == *old(self) && old(self).free@.len() == 0,
                Option::Some(idx) => {
                    &&& old(self).free@.len() > 0
                    &&& idx as int == old(self).free@[0]
                    &&& idx < old(self).blocks@.len()
                    &&& final(self).free@ == old(self).free@.subrange(
                        1,
                        old(self).free@.len() as int,
                    )
                    &&& final(self).blocks@[idx as int].bits.wf()
                    &&& final(self).blocks@[idx as int].bits.all_clear()
                    &&& final(self).blocks@[idx as int].bits.count() == 0
                    &&& forall|k: int|
                        0 <= k < final(self).blocks@.len() && k != idx as int
                            ==> final(self).blocks@[k] == old(self).blocks@[k]
                },
            },
    {
        if self.empty == NO_FREE {
            return None;
        }
        let idx: usize = self.empty;
        let word: u64 = self.blocks[idx].bits.take_empty_block();
        self.empty = if word == NO_BLOCK {
            NO_FREE
        } else {
            word as usize
        };
        let ghost tail = self.free@.subrange(1, self.free@.len() as int);
        self.free = Ghost(tail);
        proof {
            let blk = self.blocks@[idx as int];
            crate::bits::lemma_all_clear_words(blk.bits);
            crate::bits::lemma_count_zero(blk.bits);
            assert forall|k: int| 0 <= k < tail.len() implies 0 <= #[trigger] tail[k]
                < self.blocks@.len() && tail[k] != idx as int by {
                assert(tail[k] == old(self).free@[k + 1]);
            }
            assert forall|k: int|
                0 <= k < tail.len() implies {
                let w = (#[trigger] self.blocks@[tail[k]]).bits.words@;
                w[0] == self.free_link(k) && w[1] == 0 && w[2] == 0 && w[3] == 0
            } by {
                assert(tail[k] == old(self).free@[k + 1]);
                assert(old(self).free@.no_duplicates());
                assert(tail[k] != idx as int);
            }
        }
        Some(idx)
    }

    /// Takes a block for use: the recycled head of the free list if there is
    /// one, else a freshly pushed block.
    pub(crate) fn insert_block(&mut self) -> (idx: usize)
        requires
            old(self).wf(),
            old(self).blocks@.len() <= 65536,
            old(self).free@.len() == 0 ==> old(self).blocks@.len() < 65536,
        ensures
            final(self).wf(),
            idx < final(self).blocks@.len(),
            final(self).blocks@.len() == old(self).blocks@.len() + (if old(self).free@.len()
                == 0 {
                1int
            } else {
                0int
            }),
            old(self).free@.len() > 0 ==> idx as int == old(self).free@[0]
                && idx < old(self).blocks@.len()
                && final(self).free@ == old(self).free@.subrange(1, old(self).free@.len() as int),
            old(self).free@.len() == 0 ==> idx as int == old(self).blocks@.len()
                && final(self).free@ == old(self).free@,
            !final(self).free@.contains(idx as int),
            final(self).blocks@[idx as int].bits.wf(),
            final(self).blocks@[idx as int].bits.all_clear(),
            final(self).blocks@[idx as int].bits.count() == 0,
            forall|k: int|
                0 <= k < old(self).blocks@.len() && k != idx as int ==> final(self).blocks@[k]
                    == old(self).blocks@[k],
    {
        let popped: Option<usize> = self.pop_empty_block();
        match popped {
            Option::Some(idx) => {
                proof {
                    assert forall|k: int| 0 <= k < self.free@.len() implies self.free@[k]
                        != idx as int by {
                        assert(self.free@[k] == old(self).free@[k + 1]);
                        assert(old(self).free@.no_duplicates());
                    }
                    assert(!self.free@.contains(idx as int));
                }
                idx
            },
            Option::None => {
                let idx: usize = self.blocks.len();
                let bits = Bits::new();
                proof {
                    crate::bits::lemma_count_zero(bits);
                }
                self.blocks.push(BottomBlock { bits });
                proof {
                    assert(self.free@.len() == 0);
                    assert(!self.free@.contains(idx as int));
                }
                idx
            },
        }
    }

    /// Returns an all-clear block to the free list, threading the link
    /// through the block's first word.
    pub(crate) fn free_block(&mut self, idx: usize)
        requires
            old(self).wf(),
            idx < old(self).blocks@.len(),
            old(self).blocks@.len() <= 65536,
            !old(self).free@.contains(idx as int),
            old(self).blocks@[idx as int].bits.all_clear(),
        ensures
            final(self).wf(),
            final(self).blocks@.len() == old(self).blocks@.len(),
            final(self).free@ == seq![idx as int] + old(self).free@,
            forall|k: int|
                0 <= k < old(self).blocks@.len() && k != idx as int ==> final(self).blocks@[k]
                    == old(self).blocks@[k],
    {
        proof {
            crate::bits::lemma_all_clear_words(self.blocks@[idx as int].bits);
        }
        let link: u64 = if self.empty == NO_FREE {
            NO_BLOCK
        } else {
            self.empty as u64
        };
        self.blocks[idx].bits.set_empty_block(link);
        self.empty = idx;
        let ghost newfree = seq![idx as int] + old(self).free@;
        self.free = Ghost(newfree);
        proof {
            assert forall|i: int, j: int| 0 <= i < j < newfree.len() implies newfree[i]
                != newfree[j] by {
                if i == 0 {
                    assert(newfree[j] == old(self).free@[j - 1]);
                    assert(old(self).free@.contains(old(self).free@[j - 1]));
                } else {
                    assert(newfree[i] == old(self).free@[i - 1]);
                    assert(newfree[j] == old(self).free@[j - 1]);
                    assert(old(self).free@.no_duplicates());
                }
            }
            assert(newfree.no_duplicates());
            assert forall|k: int|
                0 <= k < newfree.len() implies {
                let w = (#[trigger] self.blocks@[newfree[k]]).bits.words@;
                w[0] == self.free_link(k) && w[1] == 0 && w[2] == 0 && w[3] == 0
            } by {
                if k == 0 {
                    assert(self.blocks@[idx as int].bits.words@ == old(self).blocks@[
                        idx as int
                    ].bits.words@.update(0, link));
                } else {
                    assert(newfree[k] == old(self).free@[k - 1]);
                    assert(old(self).free@.contains(old(self).free@[k - 1]));
                    assert(newfree[k] != idx as int);
                    assert(self.blocks@[newfree[k]] == old(self).blocks@[newfree[k]]);
                }
            }
        }
    }
}

/// The hierarchical presence bitset over slots `0 .. SLOT_CAP`.
pub struct BitSet {
    top: TopBlock,
    middle: MidLevel,
    bottom: BotLevel,
}

impl BitSet {
    /// Pool index of the middle block serving top index `t`.
    spec fn mid_idx(self, t: int) -> int {
        self.top.indices@[t] as int
    }

    /// The middle block serving top index `t`.
    spec fn mid_blk(self, t: int) -> MiddleBlock {
        self.middle.blocks@[self.mid_idx(t)]
    }

    /// Pool index of the bottom block serving path `(t, m)`.
    spec fn bot_idx(self, t: int, m: int) -> int {
        self.mid_blk(t).indices@[m] as int
    }

    /// The bottom block serving path `(t, m)`.
    spec fn bot_blk(self, t: int, m: int) -> BottomBlock {
        self.bottom.blocks@[self.bot_idx(t, m)]
    }

    /// Top bit `t` is set, so a middle block is attached there.
    spec fn live_mid(self, t: int) -> bool {
        0 <= t < 256 && self.top.bits.bit(t)
    }

    /// Middle bit `m` under top bit `t` is set, so a bottom block is
    /// attached along that path.
    spec fn live_bot(self, t: int, m: int) -> bool {
        self.live_mid(t) && 0 <= m < 256 && self.mid_blk(t).bits.bit(m)
    }

    /// The three bits along a slot's path are all set.
    pub closed spec fn has_path(self, slot: int) -> bool {
        &&& self.live_bot(slot_top(slot), slot_mid(slot))
        &&& self.bot_blk(slot_top(slot), slot_mid(slot)).bits.bit(slot_bot(slot))
    }

    /// True iff `slot` is present. Only slots inside the address space can
    /// be present.
    pub open spec fn has(self, slot: int) -> bool {
        0 <= slot < SLOT_CAP as int && self.has_path(slot)
    }

    /// Number of middle blocks the pool holds, live or freed.
    pub closed spec fn mid_pool_size(self) -> nat {
        self.middle.blocks@.len()
    }

    /// Number of bottom blocks the pool holds, live or freed.
    pub closed spec fn bot_pool_size(self) -> nat {
        self.bottom.blocks@.len()
    }

    /// Length of the middle pool's free list.
    pub closed spec fn mid_free_size(self) -> nat {
        self.middle.free@.len()
    }

    /// Length of the bottom pool's free list.
    pub closed spec fn bot_free_size(self) -> nat {
        self.bottom.free@.len()
    }

    /// Child pointers of set bits land inside their pool, never on the free
    /// list, and no two paths share a block.
    spec fn wf_ptrs(self) -> bool {
        &&& forall|t: int| #[trigger] self.live_mid(t) ==> 0 <= self.mid_idx(t)
            < self.middle.blocks@.len() && !self.middle.free@.contains(self.mid_idx(t))
        &&& forall|t1: int, t2: int|
            self.live_mid(t1) && self.live_mid(t2) && t1 != t2 ==> #[trigger] self.mid_idx(t1)
                != #[trigger] self.mid_idx(t2)
        &&& forall|t: int, m: int| #[trigger] self.live_bot(t, m) ==> 0 <= self.bot_idx(t, m)
            < self.bottom.blocks@.len() && !self.bottom.free@.contains(self.bot_idx(t, m))
        &&& forall|t1: int, m1: int, t2: int, m2: int|
            self.live_bot(t1, m1) && self.live_bot(t2, m2) && (t1 != t2 || m1 != m2)
                ==> #[trigger] self.bot_idx(t1, m1) != #[trigger] self.bot_idx(t2, m2)
    }

    /// Set middle bits of the block attached at top index `t`, zero if none.
    spec fn mid_count_at(self, t: int) -> nat {
        if self.live_mid(t) {
            self.mid_blk(t).bits.count()
        } else {
            0nat
        }
    }

    /// Set middle bits over all top indices below `n`.
    spec fn mid_count_prefix(self, n: int) -> nat
        decreases n,
    {
        if n <= 0 {
            0nat
        } else {
            self.mid_count_prefix(n - 1) + self.mid_count_at(n - 1)
        }
    }

    /// Each pool is exactly as large as its live blocks plus its free list:
    /// one middle block per set top bit, one bottom block per set middle bit.
    spec fn wf_account(self) -> bool {
        &&& self.middle.blocks@.len() == self.top.bits.count() + self.middle.free@.len()
        &&& self.bottom.blocks@.len() == self.mid_count_prefix(256) + self.bottom.free@.len()
    }

    /// The structural invariant. The pool caps keep every live pool index
    /// within what a compressed child pointer can express.
    spec fn wf_core(self) -> bool {
        &&& self.top.bits.wf()
        &&& self.top.indices@.len() == 256
        &&& self.middle.wf()
        &&& self.bottom.wf()
        &&& self.wf_ptrs()
        &&& self.wf_account()
        &&& self.middle.blocks@.len() <= 256
        &&& self.bottom.blocks@.len() <= 65536
    }

    /// Every live bottom block outside the one named path holds a set bit.
    spec fn blocks_nonempty_except(self, te: int, me: int) -> bool {
        forall|t: int, m: int|
            #[trigger] self.live_bot(t, m) && (t != te || m != me) ==> !self.bot_blk(
                t,
                m,
            ).bits.all_clear()
    }

    /// Every live bottom block holds at least one set bit: insertion sets a
    /// bit right after attaching a block, and removal recycles a block the
    /// moment it empties.
    spec fn blocks_nonempty(self) -> bool {
        forall|t: int, m: int| #[trigger] self.live_bot(t, m) ==> !self.bot_blk(
            t,
            m,
        ).bits.all_clear()
    }

    pub closed spec fn wf(self) -> bool {
        self.wf_core() && self.blocks_nonempty()
    }

    /// An empty bitset.
    pub fn new() -> (s: BitSet)
        ensures
            s.wf(),
            forall|j: int| !s.has(j),
            s.mid_pool_size() == 0,
            s.bot_pool_size() == 0,
            s.mid_free_size() == 0,
            s.bot_free_size() == 0,
    {
        let bits = Bits::new();
        let mut indices: Vec<u8> = Vec::new();
        let mut k: usize = 0;
        while k < 256
            invariant
                indices@.len() == k,
                k <= 256,
            decreases 256 - k,
        {
            indices.push(0);
            k = k + 1;
        }
        let s = BitSet { top: TopBlock { bits, indices }, middle: MidLevel::new(), bottom: BotLevel::new() };
        proof {
            assert forall|t: int| !s.live_mid(t) by {
                if 0 <= t < 256 {
                    assert(!s.top.bits.bit(t));
                }
            }
            assert forall|t2: int, m2: int| !s.live_bot(t2, m2) by {
                assert(!s.live_mid(t2));
            }
            lemma_prefix_zero(s, 256);
        }
        s
    }

    /// Membership: tests the three bits along the slot's path, stopping at
    /// the first clear ancestor without touching the compressed pointers.
    pub fn contains(&self, slot: usize) -> (r: bool)
        requires
            self.wf(),
            slot < SLOT_CAP,
        ensures
            r == self.has(slot as int),
    {
        let idx = LevelIndices::new(slot);
        if !self.top.bits.get(idx.top) {
            return false;
        }
        proof {
            assert(self.live_mid(idx.top as int));
        }
        let mi: usize = self.top.indices[idx.top] as usize;
        if !self.middle.blocks[mi].bits.get(idx.middle) {
            return false;
        }
        proof {
            assert(self.live_bot(idx.top as int, idx.middle as int));
        }
        let bi: usize = self.middle.blocks[mi].indices[idx.middle] as usize;
        self.bottom.blocks[bi].bits.get(idx.bottom)
    }
}

/// A prefix over all-zero terms is zero.
proof fn lemma_prefix_zero(s: BitSet, n: int)
    requires
        forall|t: int| 0 <= t < n ==> #[trigger] s.mid_count_at(t) == 0,
    ensures
        s.mid_count_prefix(n) == 0,
    decreases n,
{
    if n > 0 {
        lemma_prefix_zero(s, n - 1);
    }
}

/// Prefixes agree when all their terms agree.
proof fn lemma_prefix_frame(a: BitSet, b: BitSet, n: int)
    requires
        forall|t: int| 0 <= t < n ==> #[trigger] a.mid_count_at(t) == #[trigger] b.mid_count_at(t),
    ensures
        b.mid_count_prefix(n) == a.mid_count_prefix(n),
    decreases n,
{
    if n > 0 {
        lemma_prefix_frame(a, b, n - 1);
    }
}

/// A prefix moves exactly by the change of the one term that changed.
proof fn lemma_prefix_delta(a: BitSet, b: BitSet, t0: int, n: int)
    requires
        0 <= t0 < n,
        forall|t: int|
            0 <= t < n && t != t0 ==> #[trigger] a.mid_count_at(t) == #[trigger] b.mid_count_at(t),
    ensures
        b.mid_count_prefix(n) == a.mid_count_prefix(n) - a.mid_count_at(t0) + b.mid_count_at(t0),
    decreases n,
{
    if t0 == n - 1 {
        lemma_prefix_frame(a, b, n - 1);
    } else {
        lemma_prefix_delta(a, b, t0, n - 1);
    }
}

/// A prefix of `n` terms, each a block's count, stays below `n * 256`.
proof fn lemma_prefix_bound(s: BitSet, n: int)
    requires
        s.wf(),
        0 <= n <= 256,
    ensures
        s.mid_count_prefix(n) <= n * 256,
    decreases n,
{
    if n > 0 {
        lemma_prefix_bound(s, n - 1);
        if s.live_mid(n - 1) {
            crate::bits::lemma_count_le(s.mid_blk(n - 1).bits);
        }
    }
}

/// The same bound, one tighter when some term is known one short.
proof fn lemma_prefix_bound_unset(s: BitSet, t0: int, n: int)
    requires
        s.wf(),
        0 <= t0 < n <= 256,
        s.mid_count_at(t0) <= 255,
    ensures
        s.mid_count_prefix(n) <= n * 256 - 1,
    decreases n,
{
    if t0 == n - 1 {
        lemma_prefix_bound(s, n - 1);
    } else {
        lemma_prefix_bound_unset(s, t0, n - 1);
        if s.live_mid(n - 1) {
            crate::bits::lemma_count_le(s.mid_blk(n - 1).bits);
        }
    }
}

impl BitSet {
    /// Makes top bit `t` live, attaching a middle block from the pool
    /// (recycled first) if the bit was clear. Presence of every slot is
    /// unchanged: a fresh middle block has no set bits.
    fn ensure_mid(&mut self, t: usize)
        requires
            old(self).wf(),
            t < 256,
        ensures
            final(self).wf(),
            final(self).live_mid(t as int),
            forall|j: int| final(self).has(j) == old(self).has(j),
            final(self).bottom == old(self).bottom,
            old(self).mid_pool_size() <= final(self).mid_pool_size() <= old(self).mid_pool_size()
                + 1,
            final(self).mid_pool_size() > old(self).mid_pool_size() ==> old(
                self,
            ).mid_free_size() == 0,
            old(self).live_mid(t as int) ==> *final(self) == *old(self),
    {
        let was: bool = self.top.bits.get(t);
        if was {
            return;
        }
        proof {
            if self.middle.free@.len() == 0 {
                crate::bits::lemma_count_unset(self.top.bits, t as int);
            }
        }
        let mi: usize = self.middle.insert_block();
        self.top.indices[t] = mi as u8;
        self.top.bits.set(t);
        proof {
            let pre = *old(self);
            let post = *self;
            assert(post.mid_idx(t as int) == mi as int);
            // live paths other than `t` kept their pointers and blocks
            assert forall|t2: int| post.live_mid(t2) && t2 != t as int implies pre.live_mid(t2)
                && post.mid_idx(t2) == pre.mid_idx(t2) && post.mid_blk(t2) == pre.mid_blk(t2)
                && pre.mid_idx(t2) != mi as int by {
                assert(pre.live_mid(t2));
                assert(post.mid_idx(t2) == pre.mid_idx(t2));
                if pre.middle.free@.len() > 0 && mi as int == pre.middle.free@[0] {
                    assert(pre.middle.free@.contains(mi as int));
                }
                assert(pre.mid_idx(t2) != mi as int);
            }
            assert forall|t2: int| pre.live_mid(t2) implies post.live_mid(t2) by {}
            // the new middle block is clear, so nothing became present
            assert forall|j: int| post.has(j) == pre.has(j) by {
                if 0 <= j < SLOT_CAP {
                    lemma_slot_parts(j);
                    let jt = slot_top(j);
                    let jm = slot_mid(j);
                    if jt == t as int {
                        assert(!pre.live_mid(jt));
                        assert(post.mid_blk(jt).bits.all_clear());
                        assert(!post.mid_blk(jt).bits.bit(jm));
                    } else {
                        if post.live_mid(jt) {
                            assert(post.mid_blk(jt) == pre.mid_blk(jt));
                            if post.live_bot(jt, jm) {
                                assert(post.bot_idx(jt, jm) == pre.bot_idx(jt, jm));
                            }
                        }
                    }
                }
            }
            // free-list membership survives taking the head off
            assert forall|x: int| post.middle.free@.contains(x) implies pre.middle.free@.contains(
                x,
            ) by {
                let k = choose|k: int|
                    0 <= k < post.middle.free@.len() && post.middle.free@[k] == x;
                if pre.middle.free@.len() > 0 {
                    assert(pre.middle.free@[k + 1] == x);
                }
            }
            // pointer map stays injective and inside the pool
            assert(post.wf_ptrs()) by {
                assert forall|t2: int| #[trigger] post.live_mid(t2) implies 0 <= post.mid_idx(t2)
                    < post.middle.blocks@.len() && !post.middle.free@.contains(
                    post.mid_idx(t2),
                ) by {
                    if t2 != t as int {
                        assert(pre.live_mid(t2));
                    }
                }
                assert forall|t1: int, t2: int|
                    post.live_mid(t1) && post.live_mid(t2) && t1 != t2 implies #[trigger] post.mid_idx(
                    t1,
                ) != #[trigger] post.mid_idx(t2) by {
                    if t1 == t as int {
                        assert(post.mid_idx(t2) != mi as int);
                    } else if t2 == t as int {
                        assert(post.mid_idx(t1) != mi as int);
                    }
                }
                assert forall|t2: int, m2: int| #[trigger] post.live_bot(t2, m2) implies 0
                    <= post.bot_idx(t2, m2) < post.bottom.blocks@.len()
                    && !post.bottom.free@.contains(post.bot_idx(t2, m2)) by {
                    assert(t2 != t as int);
                    assert(pre.live_bot(t2, m2));
                    assert(post.bot_idx(t2, m2) == pre.bot_idx(t2, m2));
                }
                assert forall|t1: int, m1: int, t2: int, m2: int|
                    post.live_bot(t1, m1) && post.live_bot(t2, m2) && (t1 != t2 || m1 != m2)
                        implies #[trigger] post.bot_idx(t1, m1) != #[trigger] post.bot_idx(
                    t2,
                    m2,
                ) by {
                    assert(t1 != t as int && t2 != t as int);
                    assert(pre.live_bot(t1, m1) && pre.live_bot(t2, m2));
                    assert(post.bot_idx(t1, m1) == pre.bot_idx(t1, m1));
                    assert(post.bot_idx(t2, m2) == pre.bot_idx(t2, m2));
                }
            }
            // both pool accounts balance
            assert(post.wf_account()) by {
                assert forall|t2: int| 0 <= t2 < 256 implies #[trigger] post.mid_count_at(t2)
                    == #[trigger] pre.mid_count_at(t2) by {
                    if t2 == t as int {
                        assert(post.mid_blk(t2).bits.count() == 0);
                    } else if pre.live_mid(t2) {
                        assert(post.mid_blk(t2) == pre.mid_blk(t2));
                    }
                }
                lemma_prefix_frame(pre, post, 256);
            }
            // live bottom blocks are untouched, so none became empty
            assert(post.blocks_nonempty()) by {
                assert forall|t2: int, m2: int| #[trigger] post.live_bot(t2, m2) implies !post.bot_blk(
                    t2,
                    m2,
                ).bits.all_clear() by {
                    assert(t2 != t as int);
                    assert(pre.live_bot(t2, m2));
                    assert(post.mid_blk(t2) == pre.mid_blk(t2));
                    assert(post.bot_idx(t2, m2) == pre.bot_idx(t2, m2));
                }
            }
        }
    }
}

impl BitSet {
    /// Makes middle bit `m` under live top bit `t` live, attaching a bottom
    /// block from the pool (recycled first) if the bit was clear; returns
    /// the bottom block's pool index. Allocation happens before the bit and
    /// pointer are committed, and a fresh bottom block has no set bits, so
    /// presence of every slot is unchanged.
    fn ensure_bot(&mut self, t: usize, m: usize) -> (bi: usize)
        requires
            old(self).wf(),
            t < 256,
            m < 256,
            old(self).live_mid(t as int),
        ensures
            final(self).wf_core(),
            final(self).blocks_nonempty_except(t as int, m as int),
            final(self).live_mid(t as int),
            final(self).live_bot(t as int, m as int),
            bi as int == final(self).bot_idx(t as int, m as int),
            bi < final(self).bottom.blocks@.len(),
            forall|j: int| final(self).has(j) == old(self).has(j),
            final(self).top == old(self).top,
            final(self).middle.blocks@.len() == old(self).middle.blocks@.len(),
            final(self).middle.free@ == old(self).middle.free@,
            old(self).bot_pool_size() <= final(self).bot_pool_size() <= old(self).bot_pool_size()
                + 1,
            final(self).bot_pool_size() > old(self).bot_pool_size() ==> old(
                self,
            ).bot_free_size() == 0,
            old(self).live_bot(t as int, m as int) ==> *final(self) == *old(self) && bi as int
                == old(self).bot_idx(t as int, m as int),
    {
        let mi: usize = self.top.indices[t] as usize;
        if self.middle.blocks[mi].bits.get(m) {
            proof {
                assert(self.live_bot(t as int, m as int));
            }
            let bi: usize = self.middle.blocks[mi].indices[m] as usize;
            return bi;
        }
        proof {
            if self.bottom.free@.len() == 0 {
                crate::bits::lemma_count_unset(self.mid_blk(t as int).bits, m as int);
                assert(self.mid_count_at(t as int) <= 255);
                lemma_prefix_bound_unset(*self, t as int, 256);
            }
        }
        let bi: usize = self.bottom.insert_block();
        self.middle.blocks[mi].indices[m] = bi as u16;
        self.middle.blocks[mi].bits.set(m);
        proof {
            let pre = *old(self);
            let post = *self;
            assert(post.mid_idx(t as int) == mi as int);
            assert(post.mid_blk(t as int).bits.bit(m as int));
            assert(post.bot_idx(t as int, m as int) == bi as int);
            // middle blocks other than `mi` are untouched
            assert forall|t2: int| post.live_mid(t2) == pre.live_mid(t2) && (pre.live_mid(t2)
                ==> post.mid_idx(t2) == pre.mid_idx(t2)) by {}
            assert forall|t2: int| pre.live_mid(t2) && t2 != t as int implies post.mid_blk(t2)
                == pre.mid_blk(t2) by {
                assert(pre.mid_idx(t2) != pre.mid_idx(t as int));
            }
            // bottom blocks that were live are untouched
            assert forall|t2: int, m2: int| pre.live_bot(t2, m2) implies post.bot_idx(t2, m2)
                == pre.bot_idx(t2, m2) && pre.bot_idx(t2, m2) != bi as int
                && post.bottom.blocks@[pre.bot_idx(t2, m2)] == pre.bottom.blocks@[pre.bot_idx(
                t2,
                m2,
            )] by {
                if t2 == t as int {
                    assert(m2 != m as int);
                }
                if pre.bottom.free@.len() > 0 && bi as int == pre.bottom.free@[0] {
                    assert(pre.bottom.free@.contains(bi as int));
                }
                assert(pre.bot_idx(t2, m2) != bi as int);
            }
            // free-list membership survives taking the head off
            assert forall|x: int| post.bottom.free@.contains(x) implies pre.bottom.free@.contains(
                x,
            ) by {
                let k = choose|k: int|
                    0 <= k < post.bottom.free@.len() && post.bottom.free@[k] == x;
                if pre.bottom.free@.len() > 0 {
                    assert(pre.bottom.free@[k + 1] == x);
                }
            }
            // the new bottom block is clear, so nothing became present
            assert forall|j: int| post.has(j) == pre.has(j) by {
                if 0 <= j < SLOT_CAP {
                    lemma_slot_parts(j);
                    let jt = slot_top(j);
                    let jm = slot_mid(j);
                    if jt == t as int && jm == m as int {
                        assert(!pre.live_bot(jt, jm));
                        assert(post.bot_blk(jt, jm).bits.all_clear());
                    } else if jt == t as int {
                        assert(post.mid_blk(jt).bits.bit(jm) == pre.mid_blk(jt).bits.bit(jm));
                        assert(jm != m as int);
                        assert(post.mid_blk(jt).indices@[jm] == pre.mid_blk(jt).indices@[jm]);
                        if pre.live_bot(jt, jm) {
                            assert(post.bot_blk(jt, jm) == pre.bot_blk(jt, jm));
                        }
                    } else {
                        if pre.live_mid(jt) {
                            assert(post.mid_blk(jt) == pre.mid_blk(jt));
                            if pre.live_bot(jt, jm) {
                                assert(post.bot_blk(jt, jm) == pre.bot_blk(jt, jm));
                            }
                        }
                    }
                }
            }
            assert(post.wf_ptrs()) by {
                assert forall|t2: int, m2: int| #[trigger] post.live_bot(t2, m2) implies 0
                    <= post.bot_idx(t2, m2) < post.bottom.blocks@.len()
                    && !post.bottom.free@.contains(post.bot_idx(t2, m2)) by {
                    if t2 == t as int && m2 == m as int {
                    } else {
                        assert(pre.live_bot(t2, m2));
                    }
                }
                assert forall|t1: int, m1: int, t2: int, m2: int|
                    post.live_bot(t1, m1) && post.live_bot(t2, m2) && (t1 != t2 || m1 != m2)
                        implies #[trigger] post.bot_idx(t1, m1) != #[trigger] post.bot_idx(
                    t2,
                    m2,
                ) by {
                    if t1 == t as int && m1 == m as int {
                        assert(pre.live_bot(t2, m2));
                        assert(pre.bot_idx(t2, m2) != bi as int);
                    } else if t2 == t as int && m2 == m as int {
                        assert(pre.live_bot(t1, m1));
                        assert(pre.bot_idx(t1, m1) != bi as int);
                    } else {
                        assert(pre.live_bot(t1, m1) && pre.live_bot(t2, m2));
                    }
                }
            }
            assert(post.wf_account()) by {
                assert forall|t2: int|
                    0 <= t2 < 256 && t2 != t as int implies #[trigger] pre.mid_count_at(t2)
                    == #[trigger] post.mid_count_at(t2) by {
                    if pre.live_mid(t2) {
                        assert(post.mid_blk(t2) == pre.mid_blk(t2));
                    }
                }
                lemma_prefix_delta(pre, post, t as int, 256);
                assert(post.mid_count_at(t as int) == pre.mid_count_at(t as int) + 1);
            }
            // every other live bottom block is untouched and stays nonempty
            assert(post.blocks_nonempty_except(t as int, m as int)) by {
                assert forall|t2: int, m2: int|
                    #[trigger] post.live_bot(t2, m2) && (t2 != t as int || m2
                        != m as int) implies !post.bot_blk(t2, m2).bits.all_clear() by {
                    if t2 == t as int {
                        assert(pre.live_bot(t2, m2));
                    } else {
                        assert(post.mid_blk(t2) == pre.mid_blk(t2));
                        assert(pre.live_bot(t2, m2));
                    }
                    assert(post.bot_idx(t2, m2) == pre.bot_idx(t2, m2));
                    assert(post.bottom.blocks@[pre.bot_idx(t2, m2)] == pre.bottom.blocks@[
                        pre.bot_idx(t2, m2)
                    ]);
                }
            }
        }
        bi
    }
}

impl BitSet {
    /// Inserts `slot`, walking top to bottom and lazily attaching middle and
    /// bottom blocks (recycled from the free lists first) the first time the
    /// path is traversed. Inserting an already-present slot changes nothing.
    /// A pool only grows when its free list is exhausted.
    pub fn insert(&mut self, slot: usize)
        requires
            old(self).wf(),
            slot < SLOT_CAP,
        ensures
            final(self).wf(),
            forall|j: int| final(self).has(j) == (old(self).has(j) || j == slot as int),
            old(self).mid_pool_size() <= final(self).mid_pool_size() <= old(self).mid_pool_size()
                + 1,
            old(self).bot_pool_size() <= final(self).bot_pool_size() <= old(self).bot_pool_size()
                + 1,
            final(self).mid_pool_size() > old(self).mid_pool_size() ==> old(
                self,
            ).mid_free_size() == 0,
            final(self).bot_pool_size() > old(self).bot_pool_size() ==> old(
                self,
            ).bot_free_size() == 0,
            old(self).has(slot as int) ==> final(self).mid_pool_size() == old(self).mid_pool_size()
                && final(self).bot_pool_size() == old(self).bot_pool_size()
                && final(self).mid_free_size() == old(self).mid_free_size()
                && final(self).bot_free_size() == old(self).bot_free_size(),
    {
        let idx = LevelIndices::new(slot);
        self.ensure_mid(idx.top);
        let bi: usize = self.ensure_bot(idx.top, idx.middle);
        let ghost mid2 = *self;
        self.bottom.blocks[bi].bits.set(idx.bottom);
        proof {
            let pre = mid2;
            let post = *self;
            let st = slot_top(slot as int);
            let sm = slot_mid(slot as int);
            let sb = slot_bot(slot as int);
            lemma_slot_parts(slot as int);
            assert(post.top == pre.top && post.middle == pre.middle);
            assert(pre.bot_idx(st, sm) == bi as int);
            assert(post.has(slot as int)) by {
                assert(post.bot_blk(st, sm).bits.bit(sb));
            }
            assert(!pre.bottom.free@.contains(bi as int));
            assert forall|j: int| j != slot as int implies post.has(j) == pre.has(j) by {
                if 0 <= j < SLOT_CAP {
                    lemma_slot_parts(j);
                    let jt = slot_top(j);
                    let jm = slot_mid(j);
                    let jb = slot_bot(j);
                    if post.live_bot(jt, jm) {
                        if jt == st && jm == sm {
                            assert(jb != sb);
                            assert(post.bot_blk(jt, jm).bits.bit(jb) == pre.bot_blk(
                                jt,
                                jm,
                            ).bits.bit(jb));
                        } else {
                            assert(pre.live_bot(jt, jm));
                            assert(pre.live_bot(st, sm));
                            assert(0 <= pre.bot_idx(jt, jm) < pre.bottom.blocks@.len());
                            assert(pre.bot_idx(jt, jm) != bi as int);
                            assert(post.bot_blk(jt, jm) == pre.bot_blk(jt, jm));
                        }
                    }
                }
            }
            assert(post.blocks_nonempty()) by {
                assert forall|t2: int, m2: int| #[trigger] post.live_bot(t2, m2) implies !post.bot_blk(
                    t2,
                    m2,
                ).bits.all_clear() by {
                    if t2 == st && m2 == sm {
                        assert(post.bot_blk(st, sm).bits.bit(sb));
                    } else {
                        assert(pre.live_bot(t2, m2));
                        assert(0 <= pre.bot_idx(t2, m2) < pre.bottom.blocks@.len());
                        assert(pre.bot_idx(t2, m2) != bi as int);
                        assert(post.bot_blk(t2, m2) == pre.bot_blk(t2, m2));
                        assert(!pre.bot_blk(t2, m2).bits.all_clear());
                    }
                }
            }
            assert(post.wf_core()) by {
                assert forall|k: int|
                    0 <= k < post.bottom.free@.len() implies {
                    let w = (#[trigger] post.bottom.blocks@[post.bottom.free@[k]]).bits.words@;
                    w[0] == post.bottom.free_link(k) && w[1] == 0 && w[2] == 0 && w[3] == 0
                } by {
                    assert(pre.bottom.free@.contains(pre.bottom.free@[k]));
                    assert(pre.bottom.free@[k] != bi as int);
                }
                assert forall|t2: int| #[trigger] post.live_mid(t2) implies 0 <= post.mid_idx(t2)
                    < post.middle.blocks@.len() && !post.middle.free@.contains(
                    post.mid_idx(t2),
                ) by {
                    assert(pre.live_mid(t2));
                    assert(pre.mid_idx(t2) == post.mid_idx(t2));
                }
                assert forall|t1: int, t2: int|
                    post.live_mid(t1) && post.live_mid(t2) && t1 != t2 implies #[trigger] post.mid_idx(
                    t1,
                ) != #[trigger] post.mid_idx(t2) by {
                    assert(pre.live_mid(t1) && pre.live_mid(t2));
                    assert(pre.mid_idx(t1) != pre.mid_idx(t2));
                }
                assert forall|t2: int| 0 <= t2 < 256 implies #[trigger] pre.mid_count_at(t2)
                    == #[trigger] post.mid_count_at(t2) by {}
                lemma_prefix_frame(pre, post, 256);
                assert forall|t2: int, m2: int| #[trigger] post.live_bot(t2, m2) implies 0
                    <= post.bot_idx(t2, m2) < post.bottom.blocks@.len()
                    && !post.bottom.free@.contains(post.bot_idx(t2, m2)) by {
                    assert(pre.live_bot(t2, m2));
                }
                assert forall|t1: int, m1: int, t2: int, m2: int|
                    post.live_bot(t1, m1) && post.live_bot(t2, m2) && (t1 != t2 || m1 != m2)
                        implies #[trigger] post.bot_idx(t1, m1) != #[trigger] post.bot_idx(
                    t2,
                    m2,
                ) by {
                    assert(pre.live_bot(t1, m1) && pre.live_bot(t2, m2));
                }
            }
        }
    }
}

impl BitSet {
    /// Removes `slot`, returning whether it was present. A bottom block
    /// whose last bit clears is returned to its pool's free list and its
    /// middle bit cleared; a middle block emptied that way is recycled in
    /// turn. Pool sizes never change here: recycling only moves blocks to
    /// the free lists.
    pub fn remove(&mut self, slot: usize) -> (was: bool)
        requires
            old(self).wf(),
            slot < SLOT_CAP,
        ensures
            final(self).wf(),
            was == old(self).has(slot as int),
            forall|j: int| final(self).has(j) == (old(self).has(j) && j != slot as int),
            final(self).mid_pool_size() == old(self).mid_pool_size(),
            final(self).bot_pool_size() == old(self).bot_pool_size(),
            final(self).mid_free_size() >= old(self).mid_free_size(),
            final(self).bot_free_size() >= old(self).bot_free_size(),
            (old(self).has(slot as int) && (forall|j: int|
                j != slot as int && j / 256 == slot as int / 256 ==> !old(self).has(j)))
                ==> final(self).bot_free_size() == old(self).bot_free_size() + 1,
            (old(self).has(slot as int) && (forall|j: int|
                j != slot as int && j / 65536 == slot as int / 65536 ==> !old(self).has(j)))
                ==> final(self).mid_free_size() == old(self).mid_free_size() + 1,
    {
        let ghost st = slot_top(slot as int);
        let ghost sm = slot_mid(slot as int);
        let ghost sb = slot_bot(slot as int);
        proof {
            lemma_slot_parts(slot as int);
        }
        let idx = LevelIndices::new(slot);
        if !self.top.bits.get(idx.top) {
            return false;
        }
        proof {
            assert(self.live_mid(st));
        }
        let mi: usize = self.top.indices[idx.top] as usize;
        if !self.middle.blocks[mi].bits.get(idx.middle) {
            return false;
        }
        proof {
            assert(self.live_bot(st, sm));
            assert(self.bot_idx(st, sm) < self.bottom.blocks@.len());
        }
        let bi: usize = self.middle.blocks[mi].indices[idx.middle] as usize;
        let ghost pre = *self;
        let was: bool = self.bottom.blocks[bi].bits.clear(idx.bottom);
        proof {
            let a = *self;
            assert(!pre.bottom.free@.contains(bi as int));
            assert(a.has(slot as int) == false);
            assert forall|j: int| j != slot as int implies a.has(j) == pre.has(j) by {
                if 0 <= j < SLOT_CAP {
                    lemma_slot_parts(j);
                    let jt = slot_top(j);
                    let jm = slot_mid(j);
                    if a.live_bot(jt, jm) {
                        if jt == st && jm == sm {
                            assert(slot_bot(j) != sb);
                        } else {
                            assert(pre.live_bot(jt, jm));
                            assert(pre.live_bot(st, sm));
                            assert(0 <= pre.bot_idx(jt, jm) < pre.bottom.blocks@.len());
                            assert(pre.bot_idx(jt, jm) != bi as int);
                            assert(a.bot_blk(jt, jm) == pre.bot_blk(jt, jm));
                        }
                    }
                }
            }
            lemma_remove_frame_wf(pre, a, st, sm, bi as int);
        }
        let ghost a = *self;
        proof {
            if old(self).has(slot as int) && (forall|j: int|
                j != slot as int && j / 65536 == slot as int / 65536 ==> !old(self).has(j)) {
                assert forall|j: int|
                    j != slot as int && j / 256 == slot as int / 256 implies !old(self).has(
                    j,
                ) by {
                    if old(self).has(j) {
                        lemma_slot_parts(j);
                        lemma_div256(j);
                        lemma_div256(slot as int);
                        assert(j / 65536 == slot as int / 65536);
                    }
                }
            }
            if old(self).has(slot as int) && (forall|j: int|
                j != slot as int && j / 256 == slot as int / 256 ==> !old(self).has(j)) {
                assert forall|j2: int|
                    0 <= j2 < 256 implies !a.bottom.blocks@[bi as int].bits.bit(j2) by {
                    if j2 != sb {
                        lemma_slot_compose(st, sm, j2);
                        let j = st * 65536 + sm * 256 + j2;
                        lemma_div256(j);
                        lemma_div256(slot as int);
                        assert(j / 256 == slot as int / 256);
                        assert(!old(self).has(j));
                        assert(old(self).has(j) == old(self).bot_blk(st, sm).bits.bit(j2));
                    }
                }
                assert(a.bottom.blocks@[bi as int].bits.all_clear());
            }
        }
        let bot_empty: bool = self.bottom.blocks[bi].bits.is_empty();
        if !bot_empty {
            proof {
                assert forall|t2: int, m2: int| #[trigger] self.live_bot(t2, m2) implies !self.bot_blk(
                    t2,
                    m2,
                ).bits.all_clear() by {
                    if t2 == st && m2 == sm {
                        assert(a.bot_idx(st, sm) == bi as int);
                    } else {
                        assert(a.blocks_nonempty_except(st, sm));
                    }
                }
                assert(self.wf());
            }
        }
        if bot_empty {
            self.bottom.free_block(bi);
            self.middle.blocks[mi].bits.clear(idx.middle);
            proof {
                let c = *self;
                assert(!a.middle.free@.contains(mi as int));
                assert forall|j: int| c.has(j) == a.has(j) by {
                    if 0 <= j < SLOT_CAP {
                        lemma_slot_parts(j);
                        let jt = slot_top(j);
                        let jm = slot_mid(j);
                        if jt == st {
                            if jm == sm {
                                assert(!c.live_bot(jt, jm));
                                assert(!a.bot_blk(jt, jm).bits.bit(slot_bot(j)));
                            } else {
                                if a.live_bot(jt, jm) {
                                    assert(a.live_bot(st, sm));
                                    assert(0 <= a.bot_idx(jt, jm) < a.bottom.blocks@.len());
                                    assert(a.bot_idx(jt, jm) != bi as int);
                                    assert(c.bot_blk(jt, jm) == a.bot_blk(jt, jm));
                                }
                                if c.live_bot(jt, jm) {
                                    assert(a.live_bot(jt, jm));
                                }
                            }
                        } else {
                            if a.live_mid(jt) {
                                assert(a.mid_idx(jt) != mi as int);
                                assert(c.mid_blk(jt) == a.mid_blk(jt));
                            }
                            if a.live_bot(jt, jm) {
                                assert(a.live_bot(st, sm));
                                assert(0 <= a.bot_idx(jt, jm) < a.bottom.blocks@.len());
                                assert(a.bot_idx(jt, jm) != bi as int);
                                assert(c.bot_blk(jt, jm) == a.bot_blk(jt, jm));
                            }
                        }
                    }
                }
                lemma_recycle_bot_wf(a, c, st, sm, mi as int, bi as int);
            }
            let ghost c = *self;
            proof {
                if old(self).has(slot as int) && (forall|j: int|
                    j != slot as int && j / 65536 == slot as int / 65536 ==> !old(self).has(
                    j,
                )) {
                    assert forall|m2: int|
                        0 <= m2 < 256 implies !c.middle.blocks@[mi as int].bits.bit(m2) by {
                        if m2 != sm && pre.mid_blk(st).bits.bit(m2) {
                            assert(pre.live_bot(st, m2));
                            assert(!pre.bot_blk(st, m2).bits.all_clear());
                            assert(exists|b: int|
                                0 <= b < 256 && pre.bot_blk(st, m2).bits.bit(b));
                            let b = choose|b: int|
                                0 <= b < 256 && pre.bot_blk(st, m2).bits.bit(b);
                            lemma_slot_compose(st, m2, b);
                            let j = st * 65536 + m2 * 256 + b;
                            assert(pre.has(j));
                            assert(j / 65536 == st && slot as int / 65536 == st);
                            assert(j != slot as int);
                            assert(!old(self).has(j));
                        }
                    }
                    assert(c.middle.blocks@[mi as int].bits.all_clear());
                }
            }
            let mid_empty: bool = self.middle.blocks[mi].bits.is_empty();
            if mid_empty {
                self.middle.free_block(mi);
                self.top.bits.clear(idx.top);
                proof {
                    let e = *self;
                    assert forall|j: int| e.has(j) == c.has(j) by {
                        if 0 <= j < SLOT_CAP {
                            lemma_slot_parts(j);
                            let jt = slot_top(j);
                            let jm = slot_mid(j);
                            if jt == st {
                                assert(!e.live_mid(jt));
                                if c.live_bot(jt, jm) {
                                    assert(c.mid_blk(jt).bits.bit(jm));
                                    assert(c.mid_blk(jt).bits.all_clear());
                                }
                            } else {
                                if c.live_mid(jt) {
                                    assert(c.mid_idx(jt) != mi as int);
                                    assert(e.mid_blk(jt) == c.mid_blk(jt));
                                }
                                if e.live_mid(jt) {
                                    assert(c.live_mid(jt));
                                }
                            }
                        }
                    }
                    lemma_recycle_mid_wf(c, e, st, mi as int);
                }
            }
        }
        was
    }
}

/// After clearing one bit of a live bottom block, the whole invariant holds
/// again: nothing the invariant watches has moved.
proof fn lemma_remove_frame_wf(pre: BitSet, post: BitSet, st: int, sm: int, bi: int)
    requires
        pre.wf(),
        pre.live_bot(st, sm),
        bi == pre.bot_idx(st, sm),
        0 <= bi < pre.bottom.blocks@.len(),
        !pre.bottom.free@.contains(bi),
        post.top == pre.top,
        post.middle == pre.middle,
        post.bottom.free@ == pre.bottom.free@,
        post.bottom.empty == pre.bottom.empty,
        post.bottom.blocks@.len() == pre.bottom.blocks@.len(),
        post.bottom.blocks@[bi].bits.wf(),
        forall|k: int|
            0 <= k < pre.bottom.blocks@.len() && k != bi ==> post.bottom.blocks@[k]
                == pre.bottom.blocks@[k],
    ensures
        post.wf_core(),
        post.blocks_nonempty_except(st, sm),
{
    assert forall|k: int|
        0 <= k < post.bottom.free@.len() implies {
        let w = (#[trigger] post.bottom.blocks@[post.bottom.free@[k]]).bits.words@;
        w[0] == post.bottom.free_link(k) && w[1] == 0 && w[2] == 0 && w[3] == 0
    } by {
        assert(pre.bottom.free@.contains(pre.bottom.free@[k]));
        assert(pre.bottom.free@[k] != bi);
    }
    assert forall|t2: int, m2: int|
        #[trigger] post.live_bot(t2, m2) && (t2 != st || m2 != sm) implies !post.bot_blk(
        t2,
        m2,
    ).bits.all_clear() by {
        assert(pre.live_bot(t2, m2));
        assert(0 <= pre.bot_idx(t2, m2) < pre.bottom.blocks@.len());
        assert(pre.bot_idx(t2, m2) != bi);
        assert(post.bot_blk(t2, m2) == pre.bot_blk(t2, m2));
        assert(!pre.bot_blk(t2, m2).bits.all_clear());
    }
    assert forall|t2: int| #[trigger] post.live_mid(t2) implies 0 <= post.mid_idx(t2)
        < post.middle.blocks@.len() && !post.middle.free@.contains(post.mid_idx(t2)) by {
        assert(pre.live_mid(t2));
    }
    assert forall|t1: int, t2: int|
        post.live_mid(t1) && post.live_mid(t2) && t1 != t2 implies #[trigger] post.mid_idx(t1)
        != #[trigger] post.mid_idx(t2) by {
        assert(pre.live_mid(t1) && pre.live_mid(t2));
        assert(pre.mid_idx(t1) != pre.mid_idx(t2));
    }
    assert forall|t2: int, m2: int| #[trigger] post.live_bot(t2, m2) implies 0 <= post.bot_idx(
        t2,
        m2,
    ) < post.bottom.blocks@.len() && !post.bottom.free@.contains(post.bot_idx(t2, m2)) by {
        assert(pre.live_bot(t2, m2));
        assert(0 <= pre.bot_idx(t2, m2) < pre.bottom.blocks@.len());
    }
    assert forall|t1: int, m1: int, t2: int, m2: int|
        post.live_bot(t1, m1) && post.live_bot(t2, m2) && (t1 != t2 || m1 != m2)
            implies #[trigger] post.bot_idx(t1, m1) != #[trigger] post.bot_idx(t2, m2) by {
        assert(pre.live_bot(t1, m1) && pre.live_bot(t2, m2));
        assert(pre.bot_idx(t1, m1) != pre.bot_idx(t2, m2));
    }
    assert(post.wf_account()) by {
        assert forall|t2: int| 0 <= t2 < 256 implies #[trigger] pre.mid_count_at(t2)
            == #[trigger] post.mid_count_at(t2) by {
            if pre.live_mid(t2) {
                assert(post.mid_blk(t2) == pre.mid_blk(t2));
            }
        }
        lemma_prefix_frame(pre, post, 256);
    }
}

/// After an emptied bottom block went back on the free list and its middle
/// bit cleared, the whole invariant holds again.
proof fn lemma_recycle_bot_wf(a: BitSet, c: BitSet, st: int, sm: int, mi: int, bi: int)
    requires
        a.wf_core(),
        a.blocks_nonempty_except(st, sm),
        0 <= st < 256,
        0 <= sm < 256,
        a.live_bot(st, sm),
        mi == a.mid_idx(st),
        bi == a.bot_idx(st, sm),
        c.top == a.top,
        c.middle.free@ == a.middle.free@,
        c.middle.empty == a.middle.empty,
        c.middle.blocks@.len() == a.middle.blocks@.len(),
        forall|k: int|
            0 <= k < a.middle.blocks@.len() && k != mi ==> c.middle.blocks@[k]
                == a.middle.blocks@[k],
        c.middle.blocks@[mi].indices == a.middle.blocks@[mi].indices,
        c.middle.blocks@[mi].bits.wf(),
        forall|j2: int|
            0 <= j2 < 256 ==> c.middle.blocks@[mi].bits.bit(j2) == (a.middle.blocks@[
                mi
            ].bits.bit(j2) && j2 != sm),
        c.middle.blocks@[mi].bits.count() == a.middle.blocks@[mi].bits.count() - 1,
        c.bottom.wf(),
        c.bottom.blocks@.len() == a.bottom.blocks@.len(),
        c.bottom.free@ == seq![bi] + a.bottom.free@,
        forall|k: int|
            0 <= k < a.bottom.blocks@.len() && k != bi ==> c.bottom.blocks@[k]
                == a.bottom.blocks@[k],
    ensures
        c.wf(),
{
    assert(a.mid_blk(st).bits.bit(sm));
    assert forall|t2: int| #[trigger] c.live_mid(t2) implies 0 <= c.mid_idx(t2)
        < c.middle.blocks@.len() && !c.middle.free@.contains(c.mid_idx(t2)) by {
        assert(a.live_mid(t2));
    }
    assert forall|t1: int, t2: int|
        c.live_mid(t1) && c.live_mid(t2) && t1 != t2 implies #[trigger] c.mid_idx(t1)
        != #[trigger] c.mid_idx(t2) by {
        assert(a.live_mid(t1) && a.live_mid(t2));
        assert(a.mid_idx(t1) != a.mid_idx(t2));
    }
    assert forall|t2: int, m2: int| #[trigger] c.live_bot(t2, m2) implies a.live_bot(t2, m2)
        && (t2 != st || m2 != sm) && c.bot_idx(t2, m2) == a.bot_idx(t2, m2) by {
        if a.mid_idx(t2) == mi {
            assert(a.live_mid(st));
            assert(t2 == st);
        } else {
            assert(c.mid_blk(t2) == a.mid_blk(t2));
        }
    }
    assert forall|t2: int, m2: int| #[trigger] c.live_bot(t2, m2) implies 0 <= c.bot_idx(t2, m2)
        < c.bottom.blocks@.len() && !c.bottom.free@.contains(c.bot_idx(t2, m2)) by {
        assert(a.live_bot(t2, m2));
        assert(0 <= a.bot_idx(t2, m2) < a.bottom.blocks@.len());
        assert(a.bot_idx(t2, m2) != bi);
        assert(!a.bottom.free@.contains(a.bot_idx(t2, m2)));
        assert forall|k: int| 0 <= k < c.bottom.free@.len() implies c.bottom.free@[k]
            != c.bot_idx(t2, m2) by {
            if k > 0 {
                assert(c.bottom.free@[k] == a.bottom.free@[k - 1]);
                assert(a.bottom.free@.contains(a.bottom.free@[k - 1]));
            }
        }
    }
    assert forall|t1: int, m1: int, t2: int, m2: int|
        c.live_bot(t1, m1) && c.live_bot(t2, m2) && (t1 != t2 || m1 != m2)
            implies #[trigger] c.bot_idx(t1, m1) != #[trigger] c.bot_idx(t2, m2) by {
        assert(a.live_bot(t1, m1) && a.live_bot(t2, m2));
        assert(a.bot_idx(t1, m1) != a.bot_idx(t2, m2));
    }
    assert(c.wf_account()) by {
        assert forall|t2: int|
            0 <= t2 < 256 && t2 != st implies #[trigger] a.mid_count_at(t2)
            == #[trigger] c.mid_count_at(t2) by {
            if a.live_mid(t2) {
                if a.mid_idx(t2) == mi {
                    assert(a.live_mid(st));
                    assert(t2 == st);
                }
                assert(c.mid_blk(t2) == a.mid_blk(t2));
            }
        }
        lemma_prefix_delta(a, c, st, 256);
        assert(c.mid_count_at(st) == a.mid_count_at(st) - 1);
    }
    assert forall|t2: int, m2: int| #[trigger] c.live_bot(t2, m2) implies !c.bot_blk(
        t2,
        m2,
    ).bits.all_clear() by {
        assert(a.live_bot(t2, m2) && (t2 != st || m2 != sm));
        assert(c.bot_idx(t2, m2) == a.bot_idx(t2, m2));
        assert(0 <= a.bot_idx(t2, m2) < a.bottom.blocks@.len());
        assert(a.bot_idx(t2, m2) != bi);
        assert(c.bottom.blocks@[a.bot_idx(t2, m2)] == a.bottom.blocks@[a.bot_idx(t2, m2)]);
        assert(!a.bot_blk(t2, m2).bits.all_clear());
    }
}

/// After an emptied middle block went back on the free list and its top bit
/// cleared, the whole invariant holds again.
proof fn lemma_recycle_mid_wf(c: BitSet, e: BitSet, st: int, mi: int)
    requires
        c.wf(),
        0 <= st < 256,
        c.live_mid(st),
        mi == c.mid_idx(st),
        c.mid_blk(st).bits.all_clear(),
        e.bottom == c.bottom,
        e.top.indices == c.top.indices,
        e.top.bits.wf(),
        forall|j2: int|
            0 <= j2 < 256 ==> e.top.bits.bit(j2) == (c.top.bits.bit(j2) && j2 != st),
        e.top.bits.count() == c.top.bits.count() - 1,
        e.middle.wf(),
        e.middle.blocks@.len() == c.middle.blocks@.len(),
        e.middle.free@ == seq![mi] + c.middle.free@,
        forall|k: int|
            0 <= k < c.middle.blocks@.len() && k != mi ==> e.middle.blocks@[k]
                == c.middle.blocks@[k],
        e.middle.blocks@[mi].indices == c.middle.blocks@[mi].indices,
    ensures
        e.wf(),
{
    crate::bits::lemma_count_zero(c.mid_blk(st).bits);
    assert forall|t2: int| #[trigger] e.live_mid(t2) implies t2 != st && c.live_mid(t2)
        && e.mid_idx(t2) == c.mid_idx(t2) && c.mid_idx(t2) != mi && e.mid_blk(t2) == c.mid_blk(
        t2,
    ) by {
        assert(c.live_mid(t2));
        assert(c.mid_idx(t2) != c.mid_idx(st));
    }
    assert forall|t2: int| #[trigger] e.live_mid(t2) implies 0 <= e.mid_idx(t2)
        < e.middle.blocks@.len() && !e.middle.free@.contains(e.mid_idx(t2)) by {
        assert(!c.middle.free@.contains(c.mid_idx(t2)));
        assert forall|k: int| 0 <= k < e.middle.free@.len() implies e.middle.free@[k]
            != e.mid_idx(t2) by {
            if k > 0 {
                assert(e.middle.free@[k] == c.middle.free@[k - 1]);
                assert(c.middle.free@.contains(c.middle.free@[k - 1]));
            }
        }
    }
    assert forall|t1: int, t2: int|
        e.live_mid(t1) && e.live_mid(t2) && t1 != t2 implies #[trigger] e.mid_idx(t1)
        != #[trigger] e.mid_idx(t2) by {
        assert(c.live_mid(t1) && c.live_mid(t2));
        assert(c.mid_idx(t1) != c.mid_idx(t2));
    }
    assert forall|t2: int, m2: int| #[trigger] e.live_bot(t2, m2) implies 0 <= e.bot_idx(t2, m2)
        < e.bottom.blocks@.len() && !e.bottom.free@.contains(e.bot_idx(t2, m2)) by {
        assert(c.live_bot(t2, m2));
        assert(e.bot_idx(t2, m2) == c.bot_idx(t2, m2));
    }
    assert forall|t1: int, m1: int, t2: int, m2: int|
        e.live_bot(t1, m1) && e.live_bot(t2, m2) && (t1 != t2 || m1 != m2)
            implies #[trigger] e.bot_idx(t1, m1) != #[trigger] e.bot_idx(t2, m2) by {
        assert(c.live_bot(t1, m1) && c.live_bot(t2, m2));
        assert(c.bot_idx(t1, m1) != c.bot_idx(t2, m2));
        assert(e.bot_idx(t1, m1) == c.bot_idx(t1, m1));
        assert(e.bot_idx(t2, m2) == c.bot_idx(t2, m2));
    }
    assert(e.wf_account()) by {
        assert forall|t2: int| 0 <= t2 < 256 implies #[trigger] c.mid_count_at(t2)
            == #[trigger] e.mid_count_at(t2) by {
            if t2 == st {
                assert(c.mid_count_at(st) == 0);
                assert(!e.live_mid(st));
            } else {
                if c.live_mid(t2) {
                    assert(e.mid_blk(t2) == c.mid_blk(t2));
                }
                if e.live_mid(t2) {
                    assert(c.live_mid(t2));
                }
            }
        }
        lemma_prefix_frame(c, e, 256);
    }
    assert forall|t2: int, m2: int| #[trigger] e.live_bot(t2, m2) implies !e.bot_blk(
        t2,
        m2,
    ).bits.all_clear() by {
        assert(t2 != st);
        assert(c.live_bot(t2, m2));
        assert(e.mid_blk(t2) == c.mid_blk(t2));
        assert(e.bot_idx(t2, m2) == c.bot_idx(t2, m2));
        assert(!c.bot_blk(t2, m2).bits.all_clear());
    }
}

/// The 256-aligned range a slot belongs to names its top and middle path.
proof fn lemma_div256(j: int)
    by (nonlinear_arith)
    requires
        0 <= j < SLOT_CAP,
    ensures
        j / 256 == slot_top(j) * 256 + slot_mid(j),
{
}

/// A slot below `tt * 65536` has top index below `tt`.
proof fn lemma_top_lt(j: int, tt: int)
    by (nonlinear_arith)
    requires
        0 <= j,
        j < tt * 65536,
    ensures
        slot_top(j) < tt,
{
}

/// A slot at or above `tt * 65536` has top index at least `tt`.
proof fn lemma_top_ge(j: int, tt: int)
    by (nonlinear_arith)
    requires
        0 <= tt,
        tt * 65536 <= j,
    ensures
        slot_top(j) >= tt,
{
}

/// Bounds for the middle index of a slot inside top range `t`.
proof fn lemma_mid_lt(j: int, t: int, mm: int)
    by (nonlinear_arith)
    requires
        0 <= t,
        0 <= mm <= 256,
        t * 65536 <= j,
        j < t * 65536 + mm * 256,
    ensures
        slot_top(j) == t,
        slot_mid(j) < mm,
{
}

/// A slot at or past `(t, mm)` inside top range `t` has middle index at
/// least `mm`.
proof fn lemma_mid_ge(j: int, t: int, mm: int)
    by (nonlinear_arith)
    requires
        0 <= t,
        0 <= mm < 256,
        t * 65536 + mm * 256 <= j,
        j < (t + 1) * 65536,
    ensures
        slot_top(j) == t,
        slot_mid(j) >= mm,
{
}

/// A slot inside bottom range `(t, m)` decomposes onto that very path.
proof fn lemma_bot_range(j: int, t: int, m: int)
    by (nonlinear_arith)
    requires
        0 <= t < 256,
        0 <= m < 256,
        t * 65536 + m * 256 <= j,
        j < t * 65536 + m * 256 + 256,
    ensures
        slot_top(j) == t,
        slot_mid(j) == m,
        slot_bot(j) == j - t * 65536 - m * 256,
{
}

impl BitSet {
    /// The first present slot at or after `slot`, if any.
    ///
    /// The walk descends only below set bits, so whole empty subtrees are
    /// skipped without visiting them; restarting from the returned slot plus
    /// one re-enumerates the remaining members in ascending order.
    pub fn next_set_from(&self, slot: usize) -> (r: Option<usize>)
        requires
            self.wf(),
            slot <= SLOT_CAP,
        ensures
            match r {
                Option::Some(s) => slot <= s < SLOT_CAP && self.has(s as int) && (forall|j: int|
                    slot <= j < s ==> !self.has(j)),
                Option::None => forall|j: int| slot <= j < SLOT_CAP ==> !self.has(j),
            },
    {
        let mut pos: usize = slot;
        while pos < SLOT_CAP
            invariant
                self.wf(),
                slot <= pos <= SLOT_CAP,
                forall|j: int| slot <= j < pos ==> !self.has(j),
            decreases SLOT_CAP - pos,
        {
            proof {
                lemma_slot_parts(pos as int);
            }
            let t: usize = pos / 65536;
            match self.top.bits.next_set(t) {
                Option::None => {
                    proof {
                        assert forall|j: int| pos <= j < SLOT_CAP implies !self.has(j) by {
                            lemma_slot_parts(j);
                            lemma_top_ge(j, t as int);
                            assert(!self.top.bits.bit(slot_top(j)));
                        }
                    }
                    return None;
                },
                Option::Some(t2) => {
                    if t2 > t {
                        proof {
                            assert forall|j: int| pos <= j < t2 * 65536 implies !self.has(j) by {
                                lemma_slot_parts(j);
                                lemma_top_ge(j, t as int);
                                lemma_top_lt(j, t2 as int);
                                assert(!self.top.bits.bit(slot_top(j)));
                            }
                        }
                        pos = t2 * 65536;
                    } else {
                        proof {
                            assert(self.live_mid(t as int));
                        }
                        let mi: usize = self.top.indices[t] as usize;
                        let m0: usize = (pos % 65536) / 256;
                        match self.middle.blocks[mi].bits.next_set(m0) {
                            Option::None => {
                                proof {
                                    assert forall|j: int|
                                        pos <= j < (t + 1) * 65536 implies !self.has(j) by {
                                        lemma_slot_parts(j);
                                        lemma_mid_ge(j, t as int, m0 as int);
                                        assert(!self.mid_blk(t as int).bits.bit(slot_mid(j)));
                                    }
                                }
                                pos = (t + 1) * 65536;
                            },
                            Option::Some(m2) => {
                                if m2 > m0 {
                                    proof {
                                        assert forall|j: int|
                                            pos <= j < t * 65536 + m2 * 256 implies !self.has(
                                            j,
                                        ) by {
                                            lemma_slot_parts(j);
                                            lemma_mid_ge(j, t as int, m0 as int);
                                            lemma_mid_lt(j, t as int, m2 as int);
                                            assert(!self.mid_blk(t as int).bits.bit(slot_mid(j)));
                                        }
                                    }
                                    pos = t * 65536 + m2 * 256;
                                } else {
                                    proof {
                                        assert(self.live_bot(t as int, m0 as int));
                                    }
                                    let bi: usize = self.middle.blocks[mi].indices[m0] as usize;
                                    let b0: usize = pos % 256;
                                    match self.bottom.blocks[bi].bits.next_set(b0) {
                                        Option::None => {
                                            proof {
                                                assert forall|j: int|
                                                    pos <= j < t * 65536 + m0 * 256
                                                        + 256 implies !self.has(j) by {
                                                    lemma_bot_range(j, t as int, m0 as int);
                                                    assert(!self.bot_blk(
                                                        t as int,
                                                        m0 as int,
                                                    ).bits.bit(slot_bot(j)));
                                                }
                                            }
                                            pos = t * 65536 + m0 * 256 + 256;
                                        },
                                        Option::Some(b2) => {
                                            let s: usize = t * 65536 + m0 * 256 + b2;
                                            proof {
                                                lemma_slot_compose(t as int, m0 as int, b2 as int);
                                                assert(self.has(s as int));
                                                assert forall|j: int|
                                                    pos <= j < s implies !self.has(j) by {
                                                    lemma_bot_range(j, t as int, m0 as int);
                                                    assert(!self.bot_blk(
                                                        t as int,
                                                        m0 as int,
                                                    ).bits.bit(slot_bot(j)));
                                                }
                                            }
                                            return Some(s);
                                        },
                                    }
                                }
                            },
                        }
                    }
                },
            }
        }
        None
    }

    /// Number of middle blocks the pool holds, live or freed.
    pub fn mid_pool_len(&self) -> (r: usize)
        ensures
            r == self.mid_pool_size(),
    {
        self.middle.blocks.len()
    }

    /// Number of bottom blocks the pool holds, live or freed.
    pub fn bot_pool_len(&self) -> (r: usize)
        ensures
            r == self.bot_pool_size(),
    {
        self.bottom.blocks.len()
    }
}

/// An ascending listing of exactly the present slots of `s`.
pub open spec fn ascending_listing(s: BitSet, out: Seq<usize>) -> bool {
    &&& forall|k1: int, k2: int| 0 <= k1 < k2 < out.len() ==> out[k1] < out[k2]
    &&& forall|k: int| 0 <= k < out.len() ==> s.has(out[k] as int)
    &&& forall|j: int| s.has(j) ==> out.contains(j as usize)
}

impl BitSet {
    /// All present slots in ascending order, one entry each.
    pub fn to_vec(&self) -> (out: Vec<usize>)
        requires
            self.wf(),
        ensures
            ascending_listing(*self, out@),
    {
        let mut out: Vec<usize> = Vec::new();
        let mut pos: usize = 0;
        while pos < SLOT_CAP
            invariant
                self.wf(),
                pos <= SLOT_CAP,
                forall|k1: int, k2: int| 0 <= k1 < k2 < out@.len() ==> out@[k1] < out@[k2],
                forall|k: int|
                    0 <= k < out@.len() ==> self.has(out@[k] as int) && out@[k] < pos,
                forall|j: int| 0 <= j < pos && self.has(j) ==> out@.contains(j as usize),
            decreases SLOT_CAP - pos,
        {
            let found: Option<usize> = self.next_set_from(pos);
            match found {
                Option::None => {
                    pos = SLOT_CAP;
                },
                Option::Some(s) => {
                    let ghost prev = out@;
                    out.push(s);
                    pos = s + 1;
                    proof {
                        assert forall|j: int|
                            0 <= j < pos && self.has(j) implies out@.contains(j as usize) by {
                            if j == s as int {
                                assert(out@[out@.len() - 1] == s);
                            } else if prev.contains(j as usize) {
                                let k = choose|k: int|
                                    0 <= k < prev.len() && prev[k] == j as usize;
                                assert(out@[k] == j as usize);
                            }
                        }
                    }
                },
            }
        }
        out
    }
}

impl Default for BitSet {
    /// The empty bitset.
    fn default() -> (s: Self)
        ensures
            s.wf(),
            forall|j: int| !s.has(j),
    {
        BitSet::new()
    }
}

/// The compressed-pointer scheme bounds both pools: at most 256 middle
/// blocks and 65536 bottom blocks ever exist, however many insert and
/// remove cycles have run.
pub proof fn lemma_pool_bounds(s: BitSet)
    requires
        s.wf(),
    ensures
        s.mid_pool_size() <= 256,
        s.bot_pool_size() <= 65536,
{
}

/// Number of present slots below `n`.
pub open spec fn num_set_below(s: BitSet, n: int) -> nat
    decreases n,
{
    if n <= 0 {
        0nat
    } else {
        num_set_below(s, n - 1) + (if s.has(n - 1) {
            1nat
        } else {
            0nat
        })
    }
}

/// A stretch with no present slot contributes nothing to the count.
proof fn lemma_num_set_flat(s: BitSet, a: int, b: int)
    requires
        a <= b,
        forall|j: int| a <= j < b ==> !s.has(j),
    ensures
        num_set_below(s, b) == num_set_below(s, a),
    decreases b - a,
{
    if a < b {
        lemma_num_set_flat(s, a, b - 1);
    }
}

/// The count of present slots below `n` never exceeds `n`.
proof fn lemma_num_set_bound(s: BitSet, n: int)
    requires
        0 <= n,
    ensures
        num_set_below(s, n) <= n,
    decreases n,
{
    if n > 0 {
        lemma_num_set_bound(s, n - 1);
    }
}

impl BitSet {
    /// True iff no slot at all is present.
    pub fn is_empty(&self) -> (r: bool)
        requires
            self.wf(),
        ensures
            r == (forall|j: int| !self.has(j)),
    {
        let found: Option<usize> = self.next_set_from(0);
        match found {
            Option::Some(_) => false,
            Option::None => true,
        }
    }

    /// Number of present slots.
    pub fn count_set(&self) -> (r: usize)
        requires
            self.wf(),
        ensures
            r == num_set_below(*self, SLOT_CAP as int),
    {
        let mut count: usize = 0;
        let mut pos: usize = 0;
        while pos < SLOT_CAP
            invariant
                self.wf(),
                pos <= SLOT_CAP,
                count == num_set_below(*self, pos as int),
                count <= pos,
            decreases SLOT_CAP - pos,
        {
            let found: Option<usize> = self.next_set_from(pos);
            match found {
                Option::None => {
                    proof {
                        lemma_num_set_flat(*self, pos as int, SLOT_CAP as int);
                    }
                    pos = SLOT_CAP;
                },
                Option::Some(x) => {
                    proof {
                        lemma_num_set_flat(*self, pos as int, x as int);
                        lemma_num_set_bound(*self, x as int);
                    }
                    count = count + 1;
                    pos = x + 1;
                },
            }
        }
        count
    }
}

} // verus!
