//! The fixed-size record that every access pattern reads: one cache line's
//! worth of payload, eight 64-bit words. A scratch `Block` also serves as the
//! per-worker accumulator that folds in every visited block.
use vstd::prelude::*;

verus! {

/// One cache-line-sized record. The arena is a contiguous `Vec<Block>`;
/// generators read blocks and fold them into a scratch accumulator block.
#[derive(Copy, Clone)]
pub struct Block {
    pub data: [u64; 8],
}

impl Block {
    /// A block with every payload word zero: the initial accumulator.
    pub fn zeros() -> (r: Block)
        ensures
            forall|i: int| 0 <= i < 8 ==> r.data[i] == 0,
    {
        Block { data: [0u64; 8] }
    }

    /// A block with every payload word one: the arena's known non-zero fill,
    /// chosen so a plain-addition checksum counts visited blocks.
    pub fn ones() -> (r: Block)
        ensures
            forall|i: int| 0 <= i < 8 ==> r.data[i] == 1,
    {
        Block { data: [1u64; 8] }
    }

    /// Folds another block into this accumulator: adds the other block's
    /// first payload word into this block's first word, wrapping on
    /// overflow. The remaining words are untouched.
    pub fn add_other(&mut self, other: &Block)
        ensures
            final(self).data[0] == crate::model::wadd(old(self).data[0], other.data[0]),
            forall|i: int| 1 <= i < 8 ==> final(self).data[i] == old(self).data[i],
    {
        let sum = self.data[0].wrapping_add(other.data[0]);
        self.data[0] = sum;
    }

    /// Reads the accumulated checksum: the first payload word.
    pub fn accumulate_sum(&self) -> (r: u64)
        ensures
            r == self.data[0],
    {
        self.data[0]
    }

    /// Folds another block into this accumulator element-wise: every payload
    /// word of the other block is added into the matching word of this one,
    /// wrapping on overflow.
    pub fn add_other_elementwise(&mut self, other: &Block)
        ensures
            forall|w: int|
                0 <= w < 8 ==> final(self).data[w] == crate::model::wadd(
                    old(self).data[w],
                    other.data[w],
                ),
    {
        self.data[0] = self.data[0].wrapping_add(other.data[0]);
        self.data[1] = self.data[1].wrapping_add(other.data[1]);
        self.data[2] = self.data[2].wrapping_add(other.data[2]);
        self.data[3] = self.data[3].wrapping_add(other.data[3]);
        self.data[4] = self.data[4].wrapping_add(other.data[4]);
        self.data[5] = self.data[5].wrapping_add(other.data[5]);
        self.data[6] = self.data[6].wrapping_add(other.data[6]);
        self.data[7] = self.data[7].wrapping_add(other.data[7]);
    }

    /// Reduces this block to one value: the wrapping sum of all eight
    /// payload words.
    pub fn word_sum(&self) -> (r: u64)
        ensures
            r == crate::model::block_word_sum(*self),
    {
        let mut s: u64 = 0;
        for w in 0..8usize
            invariant
                s == crate::model::word_sum_prefix(*self, w as int),
        {
            s = s.wrapping_add(self.data[w]);
        }
        s
    }

    /// Best-effort cache eviction hint for this block's line. On targets
    /// where no direct eviction instruction is available this degrades to a
    /// no-op, and the surrounding harness must not claim cold-cache accuracy.
    pub fn flush(&self) {
    }
}

} // verus!
