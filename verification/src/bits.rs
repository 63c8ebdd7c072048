//! A 256-bit block, the fixed-width unit of the hierarchical bitset.
//!
//! A block is four 64-bit words. Bit `i` of a block lives in word `i / 64`
//! at position `i % 64`. Emptiness is a word-wise OR reduction, counting is
//! a population count per word using the clear-lowest-set-bit trick, and
//! enumeration extracts set positions low to high, skipping words that are
//! wholly zero.

use vstd::arithmetic::power2::{lemma2_to64, pow2};
use vstd::prelude::*;
use vstd::std_specs::bits::{axiom_u64_trailing_zeros, u64_trailing_zeros};

verus! {

/// Number of bits in one block.
pub const BLOCK_BITS: usize = 256;

/// True iff bit `b` of word `w` is set (meaningful for `b < 64`).
pub open spec fn word_bit(w: u64, b: u64) -> bool {
    (w >> b) & 1u64 == 1u64
}

/// Number of set bits in word `w`.
pub open spec fn word_pop(w: u64) -> nat
    decreases w,
{
    if w == 0 {
        0nat
    } else {
        ((w % 2) + word_pop(w / 2)) as nat
    }
}

/// One 256-bit block, stored as four 64-bit words.
pub struct Bits {
    pub words: Vec<u64>,
}

impl Bits {
    /// A block is well formed when it holds exactly four words.
    pub open spec fn wf(self) -> bool {
        self.words@.len() == 4
    }

    /// True iff bit `i` of the block is set.
    pub open spec fn bit(self, i: int) -> bool {
        0 <= i < 256 && word_bit(self.words@[i / 64], (i % 64) as u64)
    }

    /// Number of set bits in the block.
    pub open spec fn count(self) -> nat {
        word_pop(self.words@[0]) + word_pop(self.words@[1]) + word_pop(self.words@[2])
            + word_pop(self.words@[3])
    }

    /// True iff no bit of the block is set.
    pub open spec fn all_clear(self) -> bool {
        forall|i: int| 0 <= i < 256 ==> !self.bit(i)
    }

    pub fn new() -> (b: Bits)
        ensures
            b.wf(),
            b.all_clear(),
            b.count() == 0,
            b.words@ =~= seq![0u64, 0u64, 0u64, 0u64],
    {
        let b = Bits { words: vec![0u64, 0u64, 0u64, 0u64] };
        proof {
            assert forall|i: int| 0 <= i < 256 implies !b.bit(i) by {
                lemma_bit_split(i);
                lemma_word_bit_zero((i % 64) as u64);
            }
        }
        b
    }

    /// Reads bit `i`.
    pub fn get(&self, i: usize) -> (r: bool)
        requires
            self.wf(),
            i < 256,
        ensures
            r == self.bit(i as int),
    {
        proof {
            lemma_bit_split(i as int);
        }
        let lane: usize = i / 64;
        let off: u64 = (i % 64) as u64;
        (self.words[lane] >> off) & 1u64 == 1u64
    }

    /// Sets bit `i`, returning its previous value.
    pub fn set(&mut self, i: usize) -> (prev: bool)
        requires
            old(self).wf(),
            i < 256,
        ensures
            final(self).wf(),
            prev == old(self).bit(i as int),
            forall|j: int| 0 <= j < 256 ==> final(self).bit(j) == (old(self).bit(j) || j == i as int),
            final(self).count() == old(self).count() + (if prev { 0int } else { 1int }),
            prev ==> final(self).words@ == old(self).words@,
    {
        proof {
            lemma_bit_split(i as int);
        }
        let lane: usize = i / 64;
        let off: u64 = (i % 64) as u64;
        let w: u64 = self.words[lane];
        let prev: bool = (w >> off) & 1u64 == 1u64;
        proof {
            assert(word_bit(w, off) ==> (w | (1u64 << off)) == w) by (bit_vector)
                requires
                    off < 64,
            ;
        }
        self.words[lane] = w | (1u64 << off);
        proof {
            if prev {
                assert(self.words@ =~= old(self).words@);
            }
        }
        proof {
            assert forall|j: int| 0 <= j < 256 implies self.bit(j) == (old(self).bit(j) || j
                == i as int) by {
                lemma_bit_split(j);
                if j / 64 == lane as int {
                    lemma_word_set(w, off, (j % 64) as u64);
                }
            }
            lemma_pop_set(w, off);
        }
        prev
    }

    /// Clears bit `i`, returning its previous value.
    pub fn clear(&mut self, i: usize) -> (prev: bool)
        requires
            old(self).wf(),
            i < 256,
        ensures
            final(self).wf(),
            prev == old(self).bit(i as int),
            forall|j: int| 0 <= j < 256 ==> final(self).bit(j) == (old(self).bit(j) && j != i as int),
            final(self).count() == old(self).count() - (if prev { 1int } else { 0int }),
    {
        proof {
            lemma_bit_split(i as int);
        }
        let lane: usize = i / 64;
        let off: u64 = (i % 64) as u64;
        let w: u64 = self.words[lane];
        let prev: bool = (w >> off) & 1u64 == 1u64;
        self.words[lane] = w & !(1u64 << off);
        proof {
            assert forall|j: int| 0 <= j < 256 implies self.bit(j) == (old(self).bit(j) && j
                != i as int) by {
                lemma_bit_split(j);
                if j / 64 == lane as int {
                    lemma_word_clear(w, off, (j % 64) as u64);
                }
            }
            lemma_pop_clear(w, off);
        }
        prev
    }

    /// True iff the block has no set bits: a word-wise OR reduction.
    pub fn is_empty(&self) -> (r: bool)
        requires
            self.wf(),
        ensures
            r == self.all_clear(),
    {
        let or: u64 = self.words[0] | self.words[1] | self.words[2] | self.words[3];
        proof {
            let w0 = self.words@[0];
            let w1 = self.words@[1];
            let w2 = self.words@[2];
            let w3 = self.words@[3];
            assert((w0 | w1 | w2 | w3) == 0 <==> (w0 == 0 && w1 == 0 && w2 == 0 && w3 == 0))
                by (bit_vector);
            lemma_all_clear_words(*self);
        }
        or == 0
    }

    /// Number of set bits in the block: a population count per word.
    pub fn count_set(&self) -> (r: usize)
        requires
            self.wf(),
        ensures
            r == self.count(),
    {
        let mut total: usize = 0;
        let mut lane: usize = 0;
        while lane < 4
            invariant
                self.wf(),
                lane <= 4,
                total == pop_prefix(*self, lane as int),
            decreases 4 - lane,
        {
            proof {
                lemma_pop_prefix_le(*self, lane as int);
                lemma_pop_le_64(self.words@[lane as int]);
            }
            let w: u64 = self.words[lane];
            let mut v: u64 = w;
            while v != 0
                invariant
                    total == pop_prefix(*self, lane as int) + word_pop(w) - word_pop(v),
                    word_pop(v) <= word_pop(w),
                    lane < 4,
                    self.wf(),
                    w == self.words@[lane as int],
                    total <= 256,
                decreases v,
            {
                proof {
                    lemma_pop_prefix_le(*self, lane as int);
                    lemma_pop_le_64(w);
                    lemma_pop_clear_lowest(v);
                    assert(v != 0 ==> ((v & (v - 1) as u64) < v)) by (bit_vector);
                }
                v = v & (v - 1);
                total = total + 1;
            }
            lane = lane + 1;
            proof {
                assert(pop_prefix(*self, lane as int) == pop_prefix(*self, lane as int - 1)
                    + word_pop(self.words@[lane as int - 1]));
            }
        }
        proof {
            assert(pop_prefix(*self, 4) == self.count()) by {
                reveal_with_fuel(pop_prefix, 5);
            }
        }
        total
    }

    /// Position of the first set bit at or after `from`, if any.
    ///
    /// Words below the cursor's word are skipped with a bulk zero test; set
    /// positions inside a word come from its trailing-zero count.
    pub fn next_set(&self, from: usize) -> (r: Option<usize>)
        requires
            self.wf(),
            from <= 256,
        ensures
            match r {
                Option::Some(b) => from <= b < 256 && self.bit(b as int) && (forall|j: int|
                    from <= j < b ==> !self.bit(j)),
                Option::None => forall|j: int| from <= j < 256 ==> !self.bit(j),
            },
    {
        proof {
            lemma_bit_split_wide(from as int);
        }
        let mut lane: usize = from / 64;
        let mut low: usize = from % 64;
        while lane < 4
            invariant
                self.wf(),
                lane <= 4,
                low < 64,
                from <= lane * 64 + low,
                forall|j: int| from <= j < lane * 64 + low ==> !self.bit(j),
            decreases 4 - lane,
        {
            let w0: u64 = self.words[lane];
            let lowu: u64 = low as u64;
            proof {
                assert(1u64 << lowu >= 1) by (bit_vector)
                    requires
                        lowu < 64,
                ;
            }
            let w: u64 = w0 & !(((1u64 << lowu) - 1));
            if w != 0 {
                let tz: u32 = w.trailing_zeros();
                proof {
                    axiom_u64_trailing_zeros(w);
                }
                let b: usize = lane * 64 + tz as usize;
                proof {
                    let t = u64_trailing_zeros(w) as u64;
                    lemma_mask_low(w0, lowu, t);
                    lemma_lane_compose(lane as int, t as int);
                    assert(t >= lowu);
                    assert(self.bit(b as int));
                    assert forall|j: int| from <= j < b implies !self.bit(j) by {
                        if j >= lane * 64 + low {
                            lemma_lane_range(j, lane as int);
                            let jb = (j % 64) as u64;
                            lemma_mask_low(w0, lowu, jb);
                            assert((w >> jb) & 1u64 == 0u64);
                        }
                    }
                }
                return Some(b);
            }
            proof {
                lemma_word_zero_iff(w);
                assert forall|j: int| from <= j < (lane + 1) * 64 implies !self.bit(j) by {
                    if j >= lane * 64 + low {
                        lemma_lane_range(j, lane as int);
                        let jb = (j % 64) as u64;
                        lemma_mask_low(w0, lowu, jb);
                    }
                }
            }
            lane = lane + 1;
            low = 0;
        }
        None
    }

    /// Reads and zeroes the block's first word, which holds the embedded
    /// free-list link while the block sits on a pool's free list.
    pub fn take_empty_block(&mut self) -> (r: u64)
        requires
            old(self).wf(),
        ensures
            final(self).wf(),
            r == old(self).words@[0],
            final(self).words@ == old(self).words@.update(0, 0u64),
    {
        let r: u64 = self.words[0];
        self.words[0] = 0;
        r
    }

    /// Overwrites the block's first word with a free-list link.
    pub fn set_empty_block(&mut self, next: u64)
        requires
            old(self).wf(),
        ensures
            final(self).wf(),
            final(self).words@ == old(self).words@.update(0, next),
    {
        self.words[0] = next;
    }
}

impl Default for Bits {
    /// The all-clear block.
    fn default() -> (b: Self)
        ensures
            b.wf(),
            b.all_clear(),
            b.count() == 0,
    {
        Bits::new()
    }
}

/// Sum of the population counts of the first `n` words of a block.
pub open spec fn pop_prefix(b: Bits, n: int) -> nat
    decreases n,
{
    if n <= 0 {
        0nat
    } else {
        pop_prefix(b, n - 1) + word_pop(b.words@[n - 1])
    }
}

proof fn lemma_pop_prefix_le(b: Bits, n: int)
    requires
        0 <= n <= 4,
        b.wf(),
    ensures
        pop_prefix(b, n) <= n * 64,
    decreases n,
{
    if n > 0 {
        lemma_pop_prefix_le(b, n - 1);
        lemma_pop_le_64(b.words@[n - 1]);
    }
}

/// Bit `b` of the zero word is clear.
proof fn lemma_word_bit_zero(b: u64)
    by (bit_vector)
    requires
        b < 64,
    ensures
        !word_bit(0u64, b),
{
}

/// A word is zero exactly when none of its bits is set.
proof fn lemma_word_zero_iff(w: u64)
    ensures
        (w == 0) <==> (forall|b: u64| b < 64 ==> !(#[trigger] word_bit(w, b))),
{
    if w == 0 {
        assert forall|b: u64| b < 64 implies !word_bit(w, b) by {
            lemma_word_bit_zero(b);
        }
    } else {
        axiom_u64_trailing_zeros(w);
        let t = u64_trailing_zeros(w) as u64;
        assert(word_bit(w, t));
    }
}

/// Setting bit `b` of a word, observed at bit `j`.
proof fn lemma_word_set(w: u64, b: u64, j: u64)
    by (bit_vector)
    requires
        b < 64,
        j < 64,
    ensures
        word_bit(w | (1u64 << b), j) == (word_bit(w, j) || j == b),
{
}

/// Clearing bit `b` of a word, observed at bit `j`.
proof fn lemma_word_clear(w: u64, b: u64, j: u64)
    by (bit_vector)
    requires
        b < 64,
        j < 64,
    ensures
        word_bit(w & !(1u64 << b), j) == (word_bit(w, j) && j != b),
{
}

/// Masking the low `k` bits of a word, observed at bit `j`.
proof fn lemma_mask_low(w: u64, k: u64, j: u64)
    by (bit_vector)
    requires
        k < 64,
        j < 64,
    ensures
        word_bit(w & !(((1u64 << k) - 1) as u64), j) == (j >= k && word_bit(w, j)),
{
}

/// Splitting a bit index below 256 into lane and offset.
proof fn lemma_bit_split(i: int)
    by (nonlinear_arith)
    requires
        0 <= i < 256,
    ensures
        0 <= i / 64 < 4,
        0 <= i % 64 < 64,
        i == (i / 64) * 64 + i % 64,
{
}

/// The same split, admitting the one-past-the-end position.
proof fn lemma_bit_split_wide(i: int)
    by (nonlinear_arith)
    requires
        0 <= i <= 256,
    ensures
        0 <= i / 64 <= 4,
        0 <= i % 64 < 64,
        i == (i / 64) * 64 + i % 64,
        i == 256 ==> i / 64 == 4 && i % 64 == 0,
{
}

/// Composing a lane and offset into a bit index.
proof fn lemma_lane_compose(l: int, b: int)
    by (nonlinear_arith)
    requires
        0 <= l < 4,
        0 <= b < 64,
    ensures
        0 <= l * 64 + b < 256,
        (l * 64 + b) / 64 == l,
        (l * 64 + b) % 64 == b,
{
}

/// An index inside lane `l`'s range splits back onto that lane.
proof fn lemma_lane_range(j: int, l: int)
    by (nonlinear_arith)
    requires
        0 <= l < 4,
        l * 64 <= j < (l + 1) * 64,
    ensures
        j / 64 == l,
        j % 64 == j - l * 64,
        0 <= j % 64 < 64,
{
}

/// Setting a bit adds one to the population count unless it was set.
proof fn lemma_pop_set(w: u64, b: u64)
    requires
        b < 64,
    ensures
        word_pop(w | (1u64 << b)) == word_pop(w) + (if word_bit(w, b) {
            0int
        } else {
            1int
        }),
    decreases b,
{
    let wl = w | (1u64 << b);
    assert(word_pop(0u64) == 0);
    if b == 0 {
        assert(wl % 2 == 1 && wl / 2 == w / 2 && wl != 0 && (word_bit(w, 0) == (w % 2 == 1)))
            by (bit_vector)
            requires
                wl == w | (1u64 << 0u64),
        ;
        assert(word_pop(w) == w % 2 + word_pop(w / 2));
        assert(word_pop(wl) == 1 + word_pop(w / 2));
    } else {
        assert(wl % 2 == w % 2 && wl / 2 == ((w / 2) | (1u64 << ((b - 1) as u64))) && wl != 0
            && (word_bit(w, b) == word_bit(w / 2, (b - 1) as u64))) by (bit_vector)
            requires
                0 < b < 64,
                wl == w | (1u64 << b),
        ;
        lemma_pop_set(w / 2, (b - 1) as u64);
        assert(word_pop(w) == w % 2 + word_pop(w / 2));
        assert(word_pop(wl) == wl % 2 + word_pop(wl / 2));
    }
}

/// Clearing a bit removes one from the population count if it was set.
proof fn lemma_pop_clear(w: u64, b: u64)
    requires
        b < 64,
    ensures
        word_pop(w & !(1u64 << b)) == word_pop(w) - (if word_bit(w, b) {
            1int
        } else {
            0int
        }),
{
    let wc = w & !(1u64 << b);
    assert((!word_bit(wc, b)) && (wc | (1u64 << b)) == (w | (1u64 << b)) && (word_bit(w, b)
        ==> (w | (1u64 << b)) == w) && (!word_bit(w, b) ==> wc == w)) by (bit_vector)
        requires
            b < 64,
            wc == w & !(1u64 << b),
    ;
    lemma_pop_set(wc, b);
}

/// Clearing the lowest set bit removes exactly one set bit.
proof fn lemma_pop_clear_lowest(v: u64)
    requires
        v != 0,
    ensures
        word_pop(v) >= 1,
        word_pop((v & (v - 1) as u64)) == word_pop(v) - 1,
    decreases v,
{
    let vc = v & (v - 1) as u64;
    assert(word_pop(0u64) == 0);
    if v % 2 == 1 {
        assert(vc == (v - 1) as u64 && vc % 2 == 0 && vc / 2 == v / 2) by (bit_vector)
            requires
                v % 2 == 1,
                vc == v & (v - 1) as u64,
        ;
        assert(word_pop(vc) == vc % 2 + word_pop(vc / 2));
        assert(word_pop(v) == 1 + word_pop(v / 2));
    } else {
        let u = v / 2;
        assert(u != 0 && vc % 2 == 0 && vc / 2 == (u & (u - 1) as u64)) by (bit_vector)
            requires
                v % 2 == 0,
                v != 0,
                u == v / 2,
                vc == v & (v - 1) as u64,
        ;
        lemma_pop_clear_lowest(u);
        assert(word_pop(vc) == vc % 2 + word_pop(vc / 2));
        assert(word_pop(v) == word_pop(u));
    }
}

/// A word below `pow2(n)` has at most `n` set bits.
proof fn lemma_pop_width(w: u64, n: nat)
    requires
        n <= 64,
        w < pow2(n),
    ensures
        word_pop(w) <= n,
    decreases n,
{
    if n == 0 {
        assert(pow2(0) == 1) by {
            lemma2_to64();
        }
    } else {
        assert(pow2(n) == 2 * pow2((n - 1) as nat)) by {
            vstd::arithmetic::power2::lemma_pow2_unfold(n);
        }
        assert(w / 2 < pow2((n - 1) as nat)) by (nonlinear_arith)
            requires
                w < 2 * pow2((n - 1) as nat),
        ;
        lemma_pop_width(w / 2, (n - 1) as nat);
    }
}

/// Every word has at most 64 set bits.
proof fn lemma_pop_le_64(w: u64)
    ensures
        word_pop(w) <= 64,
{
    assert(w < pow2(64)) by {
        lemma2_to64();
    }
    lemma_pop_width(w, 64);
}

/// A word below `pow2(n)` with a clear bit below `n` has at most `n - 1` set bits.
proof fn lemma_pop_unset(w: u64, n: nat, b: u64)
    requires
        n <= 64,
        w < pow2(n),
        b < n,
        !word_bit(w, b),
    ensures
        word_pop(w) <= n - 1,
    decreases n,
{
    assert(pow2(n) == 2 * pow2((n - 1) as nat)) by {
        vstd::arithmetic::power2::lemma_pow2_unfold(n);
    }
    assert(w / 2 < pow2((n - 1) as nat)) by (nonlinear_arith)
        requires
            w < 2 * pow2((n - 1) as nat),
    ;
    if b == 0 {
        assert(w % 2 == 0) by (bit_vector)
            requires
                !word_bit(w, 0u64),
        ;
        lemma_pop_width(w / 2, (n - 1) as nat);
        assert(word_pop(w) == word_pop(w / 2));
    } else {
        assert(word_bit(w, b) == word_bit(w / 2, (b - 1) as u64)) by (bit_vector)
            requires
                0 < b < 64,
        ;
        lemma_pop_unset(w / 2, (n - 1) as nat, (b - 1) as u64);
        assert(word_pop(w) == w % 2 + word_pop(w / 2));
    }
}

/// A block is all clear exactly when each of its words is zero.
pub proof fn lemma_all_clear_words(b: Bits)
    requires
        b.wf(),
    ensures
        b.all_clear() <==> (b.words@[0] == 0 && b.words@[1] == 0 && b.words@[2] == 0
            && b.words@[3] == 0),
{
    if b.words@[0] == 0 && b.words@[1] == 0 && b.words@[2] == 0 && b.words@[3] == 0 {
        assert forall|i: int| 0 <= i < 256 implies !b.bit(i) by {
            lemma_bit_split(i);
            lemma_word_bit_zero((i % 64) as u64);
        }
    }
    if b.all_clear() {
        assert forall|l: int| 0 <= l < 4 implies b.words@[l] == 0 by {
            let w = b.words@[l];
            lemma_word_zero_iff(w);
            assert forall|bb: u64| bb < 64 implies !(#[trigger] word_bit(w, bb)) by {
                lemma_lane_compose(l, bb as int);
                assert(!b.bit(l * 64 + bb));
            }
        }
    }
}

/// A block has at most 256 set bits.
pub proof fn lemma_count_le(b: Bits)
    requires
        b.wf(),
    ensures
        b.count() <= 256,
{
    lemma_pop_le_64(b.words@[0]);
    lemma_pop_le_64(b.words@[1]);
    lemma_pop_le_64(b.words@[2]);
    lemma_pop_le_64(b.words@[3]);
}

/// A block with a clear bit has at most 255 set bits.
pub proof fn lemma_count_unset(b: Bits, i: int)
    requires
        b.wf(),
        0 <= i < 256,
        !b.bit(i),
    ensures
        b.count() <= 255,
{
    lemma_bit_split(i);
    assert(b.words@[i / 64] < pow2(64)) by {
        lemma2_to64();
    }
    lemma_pop_unset(b.words@[i / 64], 64, (i % 64) as u64);
    lemma_pop_le_64(b.words@[0]);
    lemma_pop_le_64(b.words@[1]);
    lemma_pop_le_64(b.words@[2]);
    lemma_pop_le_64(b.words@[3]);
}

/// All-clear blocks have a zero population count, and conversely.
pub proof fn lemma_count_zero(b: Bits)
    requires
        b.wf(),
    ensures
        b.all_clear() <==> b.count() == 0,
{
    lemma_all_clear_words(b);
    if b.count() == 0 {
        assert forall|l: int| 0 <= l < 4 implies b.words@[l] == 0 by {
            if b.words@[l] != 0 {
                lemma_pop_clear_lowest(b.words@[l]);
            }
        }
    }
}

} // verus!
