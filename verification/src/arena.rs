//! Arena construction: one contiguous allocation of blocks, made once and
//! read-only thereafter. Multi-worker configurations hand each worker a
//! disjoint sub-range of it.
use crate::block::Block;
use crate::model::all_ones;
use crate::model::is_ones_block;
use vstd::prelude::*;

verus! {

/// Builds the arena: `num_blocks` contiguous blocks, each filled with the
/// known non-zero value one, so that a plain-addition checksum counts the
/// reads performed over it. Allocation failure aborts the process; a
/// measurement tool has no recovery path for an arena it cannot hold.
pub fn make_arena(num_blocks: usize) -> (r: Vec<Block>)
    ensures
        r@.len() == num_blocks,
        all_ones(r@),
{
    let mut v: Vec<Block> = Vec::new();
    for i in 0..num_blocks
        invariant
            v@.len() == i as int,
            all_ones(v@),
    {
        let b = Block::ones();
        proof {
            assert(is_ones_block(b));
        }
        v.push(b);
    }
    v
}

/// Evicts every block of the arena from cache, as far as the platform
/// allows: the cold-cache preparation step before a timed run. With the
/// portable per-block hint this is best-effort only.
pub fn flush_arena(blocks: &[Block]) {
    let n = blocks.len();
    for i in 0..n
        invariant
            n == blocks@.len(),
    {
        blocks[i].flush();
    }
}

} // verus!
