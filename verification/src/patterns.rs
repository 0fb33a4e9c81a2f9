//! The access-pattern generators. Each takes a read-only arena slice and an
//! iteration budget, visits exactly that many blocks (wrapping cyclically),
//! folds every visited block into a scratch accumulator, and returns the
//! accumulated checksum. The checksum is what defeats dead-code elimination
//! in a measurement harness, and on an all-ones arena it counts the reads.
use crate::block::Block;
use crate::model::checksum;
use crate::model::elementwise_checksum;
use crate::model::lemma_mask_is_mod;
use crate::model::lemma_masked_mul_is_mod;
use crate::model::lemma_mod_step;
use crate::model::lemma_mod_step_one;
use crate::model::index_total;
use crate::model::lemma_index_total_snoc;
use crate::model::lemma_pow2_mask_test;
use crate::model::lemma_strided_indices_reduce;
use crate::model::lemma_reduce_matches_prefix_sum;
use crate::model::lemma_word_checksum_snoc;
use crate::model::offset_indices;
use crate::model::power_of_two;
use crate::model::sequential_indices;
use crate::model::stride_walk_indices;
use crate::model::strided_indices;
use crate::model::valid_indices;
use crate::model::word_checksum;
use crate::rng::random_index;
use vstd::arithmetic::div_mod::lemma_mod_bound;
use vstd::arithmetic::div_mod::lemma_small_mod;
use vstd::arithmetic::mul::lemma_mul_is_distributive_add;
use vstd::arithmetic::mul::lemma_mul_nonnegative;
use vstd::prelude::*;

verus! {

/// How many iterations ahead a prefetching generator issues its hint: the
/// lead time that lets the memory subsystem begin servicing a future access
/// before it is demanded.
pub const PREFETCH_DISTANCE: usize = 32;

/// Software prefetch hint for the block a later iteration will visit.
/// Issuing a hint never changes what any generator reads or returns; on
/// targets without a usable prefetch instruction it degrades to a no-op, and
/// a harness may select an instruction-backed hint of its own instead. This
/// portable fallback does nothing.
#[allow(unused_variables)]
pub fn prefetch_hint(blocks: &[Block], index: usize) {
}

/// Runtime validation of the arena-length precondition of the bounds-elided
/// generators: true exactly when `n` is a power of two.
pub fn is_power_of_two(n: usize) -> (r: bool)
    ensures
        r == power_of_two(n as u64),
{
    proof {
        lemma_pow2_mask_test(n as u64);
    }
    n >= 1 && (n & (n - 1)) == 0
}

/// Bounds-checked sequential reads: visit `i` touches block `i % len`,
/// cycling through the arena in order.
pub fn sequential_reads_safe(blocks: &[Block], num_reads: usize) -> (r: u64)
    requires
        blocks@.len() >= 1,
    ensures
        r == checksum(blocks@, sequential_indices(blocks@.len() as int, num_reads as int)),
{
    let len = blocks.len();
    proof {
        lemma_small_mod(0nat, len as nat);
    }
    let mut acc = Block::zeros();
    let mut pos: usize = 0;
    for i in 0..num_reads
        invariant
            len == blocks@.len(),
            len >= 1,
            pos < len,
            pos as int == i as int % len as int,
            acc.data[0] == checksum(blocks@, sequential_indices(len as int, i as int)),
    {
        acc.add_other(&blocks[pos]);
        proof {
            lemma_word_checksum_snoc(blocks@, sequential_indices(len as int, i as int), pos as int, 0);
            assert(sequential_indices(len as int, i as int + 1) =~= sequential_indices(
                len as int,
                i as int,
            ).push(pos as int));
            lemma_mod_step_one(i as int, len as int);
        }
        pos = if pos + 1 == len {
            0
        } else {
            pos + 1
        };
    }
    acc.accumulate_sum()
}

/// Bounds-elided sequential reads: the same visits as
/// `sequential_reads_safe`, with index wraparound done by masking with
/// `len - 1` instead of dividing, which is why the arena length must be a
/// power of two.
pub fn sequential_reads(blocks: &[Block], num_reads: usize) -> (r: u64)
    requires
        power_of_two(blocks@.len() as u64),
    ensures
        r == checksum(blocks@, sequential_indices(blocks@.len() as int, num_reads as int)),
{
    let len = blocks.len();
    proof {
        lemma_mask_is_mod(0u64, len as u64);
    }
    let mask: u64 = (len as u64) - 1;
    let mut acc = Block::zeros();
    for i in 0..num_reads
        invariant
            len == blocks@.len(),
            len >= 1,
            power_of_two(len as u64),
            mask == (len as u64) - 1,
            acc.data[0] == checksum(blocks@, sequential_indices(len as int, i as int)),
    {
        let idx_w: u64 = (i as u64) & mask;
        proof {
            lemma_mask_is_mod(i as u64, len as u64);
            lemma_mod_bound(i as int, len as int);
            assert(idx_w == i as int % len as int);
        }
        let idx: usize = idx_w as usize;
        acc.add_other(&blocks[idx]);
        proof {
            lemma_word_checksum_snoc(blocks@, sequential_indices(len as int, i as int), idx as int, 0);
            assert(sequential_indices(len as int, i as int + 1) =~= sequential_indices(
                len as int,
                i as int,
            ).push(idx as int));
        }
    }
    acc.accumulate_sum()
}

/// Prefetching variant of `sequential_reads`: visits the same blocks in the
/// same order and returns the same checksum, additionally hinting the block
/// `PREFETCH_DISTANCE` iterations ahead before each load.
pub fn sequential_reads_prefetching(blocks: &[Block], num_reads: usize) -> (r: u64)
    requires
        power_of_two(blocks@.len() as u64),
    ensures
        r == checksum(blocks@, sequential_indices(blocks@.len() as int, num_reads as int)),
{
    let len = blocks.len();
    proof {
        lemma_mask_is_mod(0u64, len as u64);
    }
    let mask: u64 = (len as u64) - 1;
    let mut acc = Block::zeros();
    for i in 0..num_reads
        invariant
            len == blocks@.len(),
            len >= 1,
            power_of_two(len as u64),
            mask == (len as u64) - 1,
            acc.data[0] == checksum(blocks@, sequential_indices(len as int, i as int)),
    {
        let ahead: u64 = (i as u64).wrapping_add(PREFETCH_DISTANCE as u64) & mask;
        proof {
            lemma_mask_is_mod((i as u64).wrapping_add(PREFETCH_DISTANCE as u64), len as u64);
            lemma_mod_bound((i as u64).wrapping_add(PREFETCH_DISTANCE as u64) as int, len as int);
        }
        prefetch_hint(blocks, ahead as usize);
        let idx_w: u64 = (i as u64) & mask;
        proof {
            lemma_mask_is_mod(i as u64, len as u64);
            lemma_mod_bound(i as int, len as int);
            assert(idx_w == i as int % len as int);
        }
        let idx: usize = idx_w as usize;
        acc.add_other(&blocks[idx]);
        proof {
            lemma_word_checksum_snoc(blocks@, sequential_indices(len as int, i as int), idx as int, 0);
            assert(sequential_indices(len as int, i as int + 1) =~= sequential_indices(
                len as int,
                i as int,
            ).push(idx as int));
        }
    }
    acc.accumulate_sum()
}

/// Sequential reads beginning at a fixed starting offset: visit `i` touches
/// `(offset + i) % len`. This is the deterministic core of the
/// offset-sequential pattern, usable with any starting phase.
pub fn sequential_reads_from(blocks: &[Block], offset: usize, num_reads: usize) -> (r: u64)
    requires
        blocks@.len() >= 1,
        offset < blocks@.len(),
    ensures
        r == checksum(
            blocks@,
            offset_indices(offset as int, blocks@.len() as int, num_reads as int),
        ),
{
    let len = blocks.len();
    proof {
        lemma_small_mod(offset as nat, len as nat);
    }
    let mut acc = Block::zeros();
    let mut pos: usize = offset;
    for i in 0..num_reads
        invariant
            len == blocks@.len(),
            len >= 1,
            offset < len,
            pos < len,
            pos as int == (offset as int + i as int) % len as int,
            acc.data[0] == checksum(blocks@, offset_indices(offset as int, len as int, i as int)),
    {
        acc.add_other(&blocks[pos]);
        proof {
            lemma_word_checksum_snoc(
                blocks@,
                offset_indices(offset as int, len as int, i as int),
                pos as int,
                0,
            );
            assert(offset_indices(offset as int, len as int, i as int + 1) =~= offset_indices(
                offset as int,
                len as int,
                i as int,
            ).push(pos as int));
            lemma_mod_step_one(offset as int + i as int, len as int);
        }
        pos = if pos + 1 == len {
            0
        } else {
            pos + 1
        };
    }
    acc.accumulate_sum()
}

/// Prefetching variant of `sequential_reads_from`: the same visits and the
/// same checksum, with a hint issued `PREFETCH_DISTANCE` iterations ahead.
pub fn sequential_reads_from_prefetching(blocks: &[Block], offset: usize, num_reads: usize) -> (r:
    u64)
    requires
        blocks@.len() >= 1,
        offset < blocks@.len(),
    ensures
        r == checksum(
            blocks@,
            offset_indices(offset as int, blocks@.len() as int, num_reads as int),
        ),
{
    let len = blocks.len();
    proof {
        lemma_small_mod(offset as nat, len as nat);
    }
    let lead: usize = PREFETCH_DISTANCE % len;
    let mut acc = Block::zeros();
    let mut pos: usize = offset;
    for i in 0..num_reads
        invariant
            len == blocks@.len(),
            len >= 1,
            offset < len,
            lead < len,
            pos < len,
            pos as int == (offset as int + i as int) % len as int,
            acc.data[0] == checksum(blocks@, offset_indices(offset as int, len as int, i as int)),
    {
        let ahead: usize = if pos >= len - lead {
            pos - (len - lead)
        } else {
            pos + lead
        };
        prefetch_hint(blocks, ahead);
        acc.add_other(&blocks[pos]);
        proof {
            lemma_word_checksum_snoc(
                blocks@,
                offset_indices(offset as int, len as int, i as int),
                pos as int,
                0,
            );
            assert(offset_indices(offset as int, len as int, i as int + 1) =~= offset_indices(
                offset as int,
                len as int,
                i as int,
            ).push(pos as int));
            lemma_mod_step_one(offset as int + i as int, len as int);
        }
        pos = if pos + 1 == len {
            0
        } else {
            pos + 1
        };
    }
    acc.accumulate_sum()
}

/// Offset-sequential reads: draw a uniform random starting phase once per
/// invocation, then read sequentially from it. Whatever phase is drawn, the
/// checksum is that of the sequential pattern rotated to start there.
pub fn sequential_reads_offset(blocks: &[Block], num_reads: usize, rng: &mut fastrand::Rng) -> (r:
    u64)
    requires
        blocks@.len() >= 1,
    ensures
        exists|off: int|
            0 <= off < blocks@.len() && r == checksum(
                blocks@,
                offset_indices(off, blocks@.len() as int, num_reads as int),
            ),
{
    let offset = random_index(rng, blocks.len());
    let r = sequential_reads_from(blocks, offset, num_reads);
    proof {
        assert((offset as int) < blocks@.len() as int && r == checksum(
            blocks@,
            offset_indices(offset as int, blocks@.len() as int, num_reads as int),
        ));
    }
    r
}

/// Prefetching variant of `sequential_reads_offset`: the same contract, with
/// hints issued ahead of each load.
pub fn sequential_reads_offset_prefetching(
    blocks: &[Block],
    num_reads: usize,
    rng: &mut fastrand::Rng,
) -> (r: u64)
    requires
        blocks@.len() >= 1,
    ensures
        exists|off: int|
            0 <= off < blocks@.len() && r == checksum(
                blocks@,
                offset_indices(off, blocks@.len() as int, num_reads as int),
            ),
{
    let offset = random_index(rng, blocks.len());
    let r = sequential_reads_from_prefetching(blocks, offset, num_reads);
    proof {
        assert((offset as int) < blocks@.len() as int && r == checksum(
            blocks@,
            offset_indices(offset as int, blocks@.len() as int, num_reads as int),
        ));
    }
    r
}

/// Sequential reads under the element-wise accumulation protocol: all eight
/// payload words of every visited block are folded in, and the accumulator
/// is reduced to the wrapping sum of its words at the end. On an all-ones
/// arena each visit contributes eight.
pub fn sequential_reads_elementwise(blocks: &[Block], num_reads: usize) -> (r: u64)
    requires
        blocks@.len() >= 1,
    ensures
        r == elementwise_checksum(
            blocks@,
            sequential_indices(blocks@.len() as int, num_reads as int),
        ),
{
    let len = blocks.len();
    proof {
        lemma_small_mod(0nat, len as nat);
    }
    let mut acc = Block::zeros();
    let mut pos: usize = 0;
    for i in 0..num_reads
        invariant
            len == blocks@.len(),
            len >= 1,
            pos < len,
            pos as int == i as int % len as int,
            forall|w: int|
                0 <= w < 8 ==> #[trigger] acc.data[w] == word_checksum(
                    blocks@,
                    sequential_indices(len as int, i as int),
                    w,
                ),
    {
        acc.add_other_elementwise(&blocks[pos]);
        proof {
            assert forall|w: int| 0 <= w < 8 implies #[trigger] acc.data[w] == word_checksum(
                blocks@,
                sequential_indices(len as int, i as int + 1),
                w,
            ) by {
                lemma_word_checksum_snoc(
                    blocks@,
                    sequential_indices(len as int, i as int),
                    pos as int,
                    w,
                );
                assert(sequential_indices(len as int, i as int + 1) =~= sequential_indices(
                    len as int,
                    i as int,
                ).push(pos as int));
            }
            lemma_mod_step_one(i as int, len as int);
        }
        pos = if pos + 1 == len {
            0
        } else {
            pos + 1
        };
    }
    let r = acc.word_sum();
    proof {
        lemma_reduce_matches_prefix_sum(
            blocks@,
            sequential_indices(len as int, num_reads as int),
            acc,
            8,
        );
    }
    r
}

/// Bounds-checked strided reads: visit `i` touches `(b * i) % len`,
/// skipping `b - 1` blocks between touches. Wraparound is by division, so
/// any non-empty arena length is accepted.
pub fn double_sequential_reads_safe(blocks: &[Block], b: usize, num_reads: usize) -> (r: u64)
    requires
        blocks@.len() >= 1,
        b >= 1,
    ensures
        r == checksum(
            blocks@,
            strided_indices(b as int, blocks@.len() as int, num_reads as int),
        ),
{
    let len = blocks.len();
    proof {
        lemma_small_mod(0nat, len as nat);
        lemma_mod_bound(b as int, len as int);
    }
    let step: usize = b % len;
    proof {
        assert(step as int * 0 == 0);
        assert((step as int * 0) % (len as int) == 0);
    }
    let mut acc = Block::zeros();
    let mut pos: usize = 0;
    for i in 0..num_reads
        invariant
            len == blocks@.len(),
            len >= 1,
            step as int == b as int % len as int,
            step < len,
            pos < len,
            pos as int == (step as int * i as int) % len as int,
            acc.data[0] == checksum(blocks@, strided_indices(step as int, len as int, i as int)),
    {
        acc.add_other(&blocks[pos]);
        proof {
            lemma_word_checksum_snoc(
                blocks@,
                strided_indices(step as int, len as int, i as int),
                pos as int,
                0,
            );
            assert(strided_indices(step as int, len as int, i as int + 1) =~= strided_indices(
                step as int,
                len as int,
                i as int,
            ).push(pos as int));
            lemma_mul_nonnegative(step as int, i as int);
            lemma_mul_is_distributive_add(step as int, i as int, 1);
            lemma_mod_step(step as int * i as int, step as int, len as int);
        }
        pos = if pos >= len - step {
            pos - (len - step)
        } else {
            pos + step
        };
    }
    proof {
        lemma_strided_indices_reduce(b as int, len as int, num_reads as int);
        assert(strided_indices(step as int, len as int, num_reads as int) == strided_indices(
            b as int,
            len as int,
            num_reads as int,
        ));
    }
    acc.accumulate_sum()
}

/// Bounds-elided strided reads: the same visits as
/// `double_sequential_reads_safe`, with the index computed as a truncating
/// multiply masked by `len - 1`, which is why the arena length must be a
/// power of two.
pub fn double_sequential_reads(blocks: &[Block], b: usize, num_reads: usize) -> (r: u64)
    requires
        power_of_two(blocks@.len() as u64),
        b >= 1,
    ensures
        r == checksum(
            blocks@,
            strided_indices(b as int, blocks@.len() as int, num_reads as int),
        ),
{
    let len = blocks.len();
    proof {
        lemma_mask_is_mod(0u64, len as u64);
    }
    let mask: u64 = (len as u64) - 1;
    let factor: u64 = b as u64;
    let mut acc = Block::zeros();
    for i in 0..num_reads
        invariant
            len == blocks@.len(),
            len >= 1,
            power_of_two(len as u64),
            mask == (len as u64) - 1,
            factor == b as u64,
            acc.data[0] == checksum(blocks@, strided_indices(b as int, len as int, i as int)),
    {
        let idx_w: u64 = factor.wrapping_mul(i as u64) & mask;
        proof {
            lemma_masked_mul_is_mod(factor, i as u64, len as u64);
            lemma_mod_bound(b as int * i as int, len as int);
            assert(idx_w as int == (b as int * i as int) % (len as int));
        }
        let idx: usize = idx_w as usize;
        acc.add_other(&blocks[idx]);
        proof {
            lemma_word_checksum_snoc(
                blocks@,
                strided_indices(b as int, len as int, i as int),
                idx as int,
                0,
            );
            assert(strided_indices(b as int, len as int, i as int + 1) =~= strided_indices(
                b as int,
                len as int,
                i as int,
            ).push(idx as int));
        }
    }
    acc.accumulate_sum()
}

/// Prefetching variant of `double_sequential_reads`: the same visits and
/// checksum, hinting the block `PREFETCH_DISTANCE` iterations ahead.
pub fn double_sequential_reads_prefetching(blocks: &[Block], b: usize, num_reads: usize) -> (r: u64)
    requires
        power_of_two(blocks@.len() as u64),
        b >= 1,
    ensures
        r == checksum(
            blocks@,
            strided_indices(b as int, blocks@.len() as int, num_reads as int),
        ),
{
    let len = blocks.len();
    proof {
        lemma_mask_is_mod(0u64, len as u64);
    }
    let mask: u64 = (len as u64) - 1;
    let factor: u64 = b as u64;
    let mut acc = Block::zeros();
    for i in 0..num_reads
        invariant
            len == blocks@.len(),
            len >= 1,
            power_of_two(len as u64),
            mask == (len as u64) - 1,
            factor == b as u64,
            acc.data[0] == checksum(blocks@, strided_indices(b as int, len as int, i as int)),
    {
        let ahead: u64 = factor.wrapping_mul((i as u64).wrapping_add(PREFETCH_DISTANCE as u64))
            & mask;
        proof {
            lemma_mask_is_mod(
                factor.wrapping_mul((i as u64).wrapping_add(PREFETCH_DISTANCE as u64)),
                len as u64,
            );
            lemma_mod_bound(
                factor.wrapping_mul((i as u64).wrapping_add(PREFETCH_DISTANCE as u64)) as int,
                len as int,
            );
        }
        prefetch_hint(blocks, ahead as usize);
        let idx_w: u64 = factor.wrapping_mul(i as u64) & mask;
        proof {
            lemma_masked_mul_is_mod(factor, i as u64, len as u64);
            lemma_mod_bound(b as int * i as int, len as int);
            assert(idx_w as int == (b as int * i as int) % (len as int));
        }
        let idx: usize = idx_w as usize;
        acc.add_other(&blocks[idx]);
        proof {
            lemma_word_checksum_snoc(
                blocks@,
                strided_indices(b as int, len as int, i as int),
                idx as int,
                0,
            );
            assert(strided_indices(b as int, len as int, i as int + 1) =~= strided_indices(
                b as int,
                len as int,
                i as int,
            ).push(idx as int));
        }
    }
    acc.accumulate_sum()
}

/// Fixed-stride walk, bounds-checked: a cursor starts at zero and advances
/// by `stride` modulo `len` before every read, so visit `i` touches
/// `(stride * (i + 1)) % len`. A large odd stride makes the walk visit a
/// pseudo-random-looking permutation while staying cheap to generate.
pub fn stride_reads_safe(blocks: &[Block], stride: usize, num_reads: usize) -> (r: u64)
    requires
        blocks@.len() >= 1,
        stride < blocks@.len(),
    ensures
        r == checksum(
            blocks@,
            stride_walk_indices(stride as int, blocks@.len() as int, num_reads as int),
        ),
{
    let len = blocks.len();
    proof {
        lemma_small_mod(0nat, len as nat);
        assert(stride as int * 0 == 0);
        assert((stride as int * 0) % (len as int) == 0);
    }
    let mut acc = Block::zeros();
    let mut pos: usize = 0;
    for i in 0..num_reads
        invariant
            len == blocks@.len(),
            len >= 1,
            stride < len,
            pos < len,
            pos as int == (stride as int * i as int) % len as int,
            acc.data[0] == checksum(
                blocks@,
                stride_walk_indices(stride as int, len as int, i as int),
            ),
    {
        proof {
            lemma_mul_nonnegative(stride as int, i as int);
            lemma_mul_is_distributive_add(stride as int, i as int, 1);
            lemma_mod_step(stride as int * i as int, stride as int, len as int);
        }
        pos = if pos >= len - stride {
            pos - (len - stride)
        } else {
            pos + stride
        };
        acc.add_other(&blocks[pos]);
        proof {
            lemma_word_checksum_snoc(
                blocks@,
                stride_walk_indices(stride as int, len as int, i as int),
                pos as int,
                0,
            );
            assert(stride_walk_indices(stride as int, len as int, i as int + 1)
                =~= stride_walk_indices(stride as int, len as int, i as int).push(pos as int));
        }
    }
    acc.accumulate_sum()
}

/// Bounds-elided entry point of the fixed-stride walk. The walk's cursor
/// never needs masking or division on the hot path, and with every index
/// proved in bounds the elided and checked variants coincide, so this is
/// `stride_reads_safe` under the other protocol's name.
pub fn stride_reads(blocks: &[Block], stride: usize, num_reads: usize) -> (r: u64)
    requires
        blocks@.len() >= 1,
        stride < blocks@.len(),
    ensures
        r == checksum(
            blocks@,
            stride_walk_indices(stride as int, blocks@.len() as int, num_reads as int),
        ),
{
    stride_reads_safe(blocks, stride, num_reads)
}

/// Prefetching variant of the fixed-stride walk: a second cursor runs
/// `PREFETCH_DISTANCE` advances ahead and every iteration hints its block
/// before the load. Visits and checksum match `stride_reads_safe`.
pub fn stride_reads_prefetching(blocks: &[Block], stride: usize, num_reads: usize) -> (r: u64)
    requires
        blocks@.len() >= 1,
        stride < blocks@.len(),
    ensures
        r == checksum(
            blocks@,
            stride_walk_indices(stride as int, blocks@.len() as int, num_reads as int),
        ),
{
    let len = blocks.len();
    proof {
        lemma_small_mod(0nat, len as nat);
    }
    proof {
        assert(stride as int * 0 == 0);
        assert((stride as int * 0) % (len as int) == 0);
    }
    let mut pf_pos: usize = 0;
    for _j in 0..PREFETCH_DISTANCE
        invariant
            len == blocks@.len(),
            len >= 1,
            stride < len,
            pf_pos < len,
    {
        pf_pos = if pf_pos >= len - stride {
            pf_pos - (len - stride)
        } else {
            pf_pos + stride
        };
    }
    let mut acc = Block::zeros();
    let mut pos: usize = 0;
    for i in 0..num_reads
        invariant
            len == blocks@.len(),
            len >= 1,
            stride < len,
            pos < len,
            pf_pos < len,
            pos as int == (stride as int * i as int) % len as int,
            acc.data[0] == checksum(
                blocks@,
                stride_walk_indices(stride as int, len as int, i as int),
            ),
    {
        pf_pos = if pf_pos >= len - stride {
            pf_pos - (len - stride)
        } else {
            pf_pos + stride
        };
        prefetch_hint(blocks, pf_pos);
        proof {
            lemma_mul_nonnegative(stride as int, i as int);
            lemma_mul_is_distributive_add(stride as int, i as int, 1);
            lemma_mod_step(stride as int * i as int, stride as int, len as int);
        }
        pos = if pos >= len - stride {
            pos - (len - stride)
        } else {
            pos + stride
        };
        acc.add_other(&blocks[pos]);
        proof {
            lemma_word_checksum_snoc(
                blocks@,
                stride_walk_indices(stride as int, len as int, i as int),
                pos as int,
                0,
            );
            assert(stride_walk_indices(stride as int, len as int, i as int + 1)
                =~= stride_walk_indices(stride as int, len as int, i as int).push(pos as int));
        }
    }
    acc.accumulate_sum()
}

/// Uniform-random reads: every visit touches an independently drawn index.
/// The draws are opaque to the contract, which promises exactly what holds
/// of every outcome: some in-bounds index sequence of length `num_reads`
/// produced the returned checksum.
pub fn random_reads(blocks: &[Block], num_reads: usize, rng: &mut fastrand::Rng) -> (r: u64)
    requires
        blocks@.len() >= 1,
    ensures
        exists|idxs: Seq<int>|
            idxs.len() == num_reads as int && valid_indices(idxs, blocks@.len() as int) && r
                == checksum(blocks@, idxs),
{
    let len = blocks.len();
    let mut acc = Block::zeros();
    let ghost mut visited: Seq<int> = Seq::empty();
    for i in 0..num_reads
        invariant
            len == blocks@.len(),
            len >= 1,
            visited.len() == i as int,
            valid_indices(visited, len as int),
            acc.data[0] == checksum(blocks@, visited),
    {
        let idx = random_index(rng, len);
        acc.add_other(&blocks[idx]);
        proof {
            lemma_word_checksum_snoc(blocks@, visited, idx as int, 0);
            visited = visited.push(idx as int);
        }
    }
    let r = acc.accumulate_sum();
    proof {
        assert(visited.len() == num_reads as int && valid_indices(visited, blocks@.len() as int)
            && r == checksum(blocks@, visited));
    }
    r
}

/// Bounds-checked uniform-random reads: every access goes through the
/// checked lookup, with the same contract as `random_reads`.
pub fn random_reads_safe(blocks: &[Block], num_reads: usize, rng: &mut fastrand::Rng) -> (r: u64)
    requires
        blocks@.len() >= 1,
    ensures
        exists|idxs: Seq<int>|
            idxs.len() == num_reads as int && valid_indices(idxs, blocks@.len() as int) && r
                == checksum(blocks@, idxs),
{
    let len = blocks.len();
    let mut acc = Block::zeros();
    let ghost mut visited: Seq<int> = Seq::empty();
    for i in 0..num_reads
        invariant
            len == blocks@.len(),
            len >= 1,
            visited.len() == i as int,
            valid_indices(visited, len as int),
            acc.data[0] == checksum(blocks@, visited),
    {
        let idx = random_index(rng, len);
        let block = blocks.get(idx).unwrap();
        acc.add_other(block);
        proof {
            lemma_word_checksum_snoc(blocks@, visited, idx as int, 0);
            visited = visited.push(idx as int);
        }
    }
    let r = acc.accumulate_sum();
    proof {
        assert(visited.len() == num_reads as int && valid_indices(visited, blocks@.len() as int)
            && r == checksum(blocks@, visited));
    }
    r
}

/// Prefetching variant of the uniform-random reads: indices are drawn
/// `PREFETCH_DISTANCE` iterations ahead of their load and hinted as soon as
/// they are drawn, through a circular buffer of pending indices. The same
/// contract as `random_reads` holds: the checksum comes from some in-bounds
/// index sequence of length `num_reads`.
pub fn random_reads_prefetching(blocks: &[Block], num_reads: usize, rng: &mut fastrand::Rng) -> (r:
    u64)
    requires
        blocks@.len() >= 1,
    ensures
        exists|idxs: Seq<int>|
            idxs.len() == num_reads as int && valid_indices(idxs, blocks@.len() as int) && r
                == checksum(blocks@, idxs),
{
    let len = blocks.len();
    let window: usize = if PREFETCH_DISTANCE < num_reads {
        PREFETCH_DISTANCE
    } else {
        num_reads
    };
    let mut pending: Vec<usize> = Vec::new();
    for j in 0..window
        invariant
            len == blocks@.len(),
            len >= 1,
            pending@.len() == j as int,
            forall|k: int| 0 <= k < pending@.len() ==> #[trigger] pending@[k] < len,
    {
        let drawn = random_index(rng, len);
        prefetch_hint(blocks, drawn);
        pending.push(drawn);
    }
    let mut acc = Block::zeros();
    let ghost mut visited: Seq<int> = Seq::empty();
    for i in 0..num_reads
        invariant
            len == blocks@.len(),
            len >= 1,
            window == if PREFETCH_DISTANCE < num_reads {
                PREFETCH_DISTANCE as int
            } else {
                num_reads as int
            },
            pending@.len() == window as int,
            forall|k: int| 0 <= k < pending@.len() ==> #[trigger] pending@[k] < len,
            visited.len() == i as int,
            valid_indices(visited, len as int),
            acc.data[0] == checksum(blocks@, visited),
    {
        let slot = i % window;
        let idx = pending[slot];
        acc.add_other(&blocks[idx]);
        proof {
            lemma_word_checksum_snoc(blocks@, visited, idx as int, 0);
            visited = visited.push(idx as int);
        }
        let drawn = random_index(rng, len);
        prefetch_hint(blocks, drawn);
        pending[slot] = drawn;
    }
    let r = acc.accumulate_sum();
    proof {
        assert(visited.len() == num_reads as int && valid_indices(visited, blocks@.len() as int)
            && r == checksum(blocks@, visited));
    }
    r
}

/// Exercises only the random index source: draws `num_reads` indices below
/// `num_blocks` and folds them into a wrapping sum, touching no memory.
/// Comparing this against `random_reads` isolates the generator's own cost
/// from the memory-access cost.
pub fn only_rng(num_blocks: usize, num_reads: usize, rng: &mut fastrand::Rng) -> (r: u64)
    requires
        num_blocks >= 1,
    ensures
        exists|draws: Seq<int>|
            draws.len() == num_reads as int && valid_indices(draws, num_blocks as int) && r
                == index_total(draws),
{
    let mut total: u64 = 0;
    let ghost mut drawn: Seq<int> = Seq::empty();
    for i in 0..num_reads
        invariant
            num_blocks >= 1,
            drawn.len() == i as int,
            valid_indices(drawn, num_blocks as int),
            total == index_total(drawn),
    {
        let idx = random_index(rng, num_blocks);
        proof {
            lemma_index_total_snoc(drawn, idx as int);
            drawn = drawn.push(idx as int);
        }
        total = total.wrapping_add(idx as u64);
    }
    proof {
        assert(drawn.len() == num_reads as int && valid_indices(drawn, num_blocks as int) && total
            == index_total(drawn));
    }
    total
}

} // verus!
