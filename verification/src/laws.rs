//! The guarantees that hold across the generator family, stated over the
//! model and proved once: read counting on a unit-filled arena, the
//! agreement of masked and modular index arithmetic, the degenerate strided
//! pattern, offset rotation, and partitioned read-count invariance.
use crate::block::Block;
use crate::model::all_ones;
use crate::model::checksum;
use crate::model::elementwise_checksum;
use crate::model::is_ones_block;
use crate::model::offset_indices;
use crate::model::sequential_indices;
use crate::model::stride_walk_indices;
use crate::model::strided_indices;
use crate::model::valid_indices;
use crate::model::wadd;
use crate::model::word_checksum;
use crate::model::word_checksum_prefix_sum;
use vstd::arithmetic::div_mod::lemma_add_mod_noop_right;
use vstd::arithmetic::div_mod::lemma_mod_bound;
use vstd::arithmetic::mul::lemma_mul_basics;
use vstd::arithmetic::mul::lemma_mul_inequality;
use vstd::arithmetic::mul::lemma_mul_is_commutative;
use vstd::arithmetic::mul::lemma_mul_is_distributive_add;
use vstd::arithmetic::mul::lemma_mul_nonnegative;
use vstd::prelude::*;

verus! {

/// On an arena whose blocks hold a one in payload word `w`, the checksum
/// accumulated in that word counts the visits: each in-bounds visit
/// contributes exactly one, and no wrap occurs while the count fits.
pub proof fn lemma_word_checksum_counts_reads(blocks: Seq<Block>, idxs: Seq<int>, w: int)
    requires
        0 <= w < 8,
        forall|k: int| 0 <= k < blocks.len() ==> #[trigger] blocks[k].data[w] == 1,
        valid_indices(idxs, blocks.len() as int),
        idxs.len() <= u64::MAX,
    ensures
        word_checksum(blocks, idxs, w) == idxs.len() as u64,
    decreases idxs.len(),
{
    if idxs.len() > 0 {
        let prefix = idxs.drop_last();
        assert forall|k: int| 0 <= k < prefix.len() implies 0 <= #[trigger] prefix[k]
            < blocks.len() by {
            assert(prefix[k] == idxs[k]);
        }
        lemma_word_checksum_counts_reads(blocks, prefix, w);
        assert(blocks[idxs.last()].data[w] == 1);
    }
}

/// Every generator visits exactly as many blocks as its read budget: on an
/// all-ones arena, the plain accumulation checksum of any in-bounds visit
/// sequence equals the number of visits.
pub proof fn lemma_unit_checksum(blocks: Seq<Block>, idxs: Seq<int>)
    requires
        all_ones(blocks),
        valid_indices(idxs, blocks.len() as int),
        idxs.len() <= u64::MAX,
    ensures
        checksum(blocks, idxs) == idxs.len() as u64,
{
    assert forall|k: int| 0 <= k < blocks.len() implies #[trigger] blocks[k].data[0] == 1 by {
        assert(is_ones_block(blocks[k]));
    }
    lemma_word_checksum_counts_reads(blocks, idxs, 0);
}

/// The prefix-sum reduction of uniformly equal word checksums is the plain
/// product, as long as it fits without wrapping.
proof fn lemma_prefix_sum_uniform(blocks: Seq<Block>, idxs: Seq<int>, k: int, count: u64)
    requires
        0 <= k <= 8,
        forall|w: int| 0 <= w < 8 ==> word_checksum(blocks, idxs, w) == count,
        k * count <= u64::MAX,
    ensures
        word_checksum_prefix_sum(blocks, idxs, k) == (k * count) as u64,
    decreases k,
{
    if k > 0 {
        lemma_mul_inequality(k - 1, k, count as int);
        lemma_prefix_sum_uniform(blocks, idxs, k - 1, count);
        assert(count * (k - 1) + count == count * k) by {
            lemma_mul_is_distributive_add(count as int, k - 1, 1);
        }
        assert((k - 1) * count == count * (k - 1)) by {
            lemma_mul_is_commutative(k - 1, count as int);
        }
        assert(k * count == count * k) by {
            lemma_mul_is_commutative(k, count as int);
        }
        lemma_mul_nonnegative(k - 1, count as int);
        assert(word_checksum_prefix_sum(blocks, idxs, k) == wadd(
            ((k - 1) * count) as u64,
            count,
        ));
    } else {
        lemma_mul_basics(count as int);
    }
}

/// Under the element-wise accumulation protocol every visited all-ones
/// block contributes eight, once per payload word: the checksum is eight
/// times the read count.
pub proof fn lemma_unit_elementwise_checksum(blocks: Seq<Block>, idxs: Seq<int>)
    requires
        all_ones(blocks),
        valid_indices(idxs, blocks.len() as int),
        8 * idxs.len() <= u64::MAX,
    ensures
        elementwise_checksum(blocks, idxs) == (8 * idxs.len()) as u64,
{
    assert forall|w: int| 0 <= w < 8 implies word_checksum(blocks, idxs, w) == idxs.len() as u64 by {
        assert forall|k: int| 0 <= k < blocks.len() implies #[trigger] blocks[k].data[w] == 1 by {
            assert(is_ones_block(blocks[k]));
        }
        lemma_word_checksum_counts_reads(blocks, idxs, w);
    }
    lemma_prefix_sum_uniform(blocks, idxs, 8, idxs.len() as u64);
}

/// Every pattern's index sequence stays inside the arena, whatever the
/// read budget: combined with `lemma_unit_checksum`, each generator's
/// checksum on an all-ones arena equals its read count.
pub proof fn lemma_pattern_indices_valid(len: int, count: int, offset: int, factor: int, s: int)
    requires
        len >= 1,
        offset >= 0,
        factor >= 0,
        s >= 0,
    ensures
        valid_indices(sequential_indices(len, count), len),
        valid_indices(offset_indices(offset, len, count), len),
        valid_indices(strided_indices(factor, len, count), len),
        valid_indices(stride_walk_indices(s, len, count), len),
{
    assert forall|k: int| 0 <= k < count implies {
        &&& 0 <= #[trigger] sequential_indices(len, count)[k] < len
        &&& 0 <= offset_indices(offset, len, count)[k] < len
        &&& 0 <= strided_indices(factor, len, count)[k] < len
        &&& 0 <= stride_walk_indices(s, len, count)[k] < len
    } by {
        lemma_mod_bound(k, len);
        lemma_mod_bound(offset + k, len);
        lemma_mul_nonnegative(factor, k);
        lemma_mod_bound(factor * k, len);
        lemma_mul_nonnegative(s, k + 1);
        lemma_mod_bound(s * (k + 1), len);
    }
}

/// The strided pattern with factor one is the plain sequential pattern,
/// index for index.
pub proof fn lemma_stride_factor_one_is_sequential(len: int, count: int)
    ensures
        strided_indices(1, len, count) =~= sequential_indices(len, count),
{
}

/// The offset-sequential pattern visits the sequential pattern's indices
/// rotated by its starting phase: position for position, its index is the
/// sequential index advanced by `offset` modulo `len`. In particular the
/// two patterns touch the same set of blocks, merely starting elsewhere.
pub proof fn lemma_offset_rotates_sequential(offset: int, len: int, count: int)
    requires
        len >= 1,
        offset >= 0,
    ensures
        offset_indices(offset, len, count) =~= sequential_indices(len, count).map_values(
            |j: int| (offset + j) % len,
        ),
{
    let rotated = sequential_indices(len, count).map_values(|j: int| (offset + j) % len);
    let direct = offset_indices(offset, len, count);
    assert(direct.len() == rotated.len());
    assert forall|i: int| 0 <= i < direct.len() implies #[trigger] direct[i] == rotated[i] by {
        lemma_add_mod_noop_right(offset, i, len);
        assert(rotated[i] == (offset + (i % len)) % len);
    }
    assert(direct =~= rotated);
}

/// The wrapping sum of the first `t` workers' checksums, each worker `u`
/// having folded its own partition `parts[u]` over its own visit sequence
/// `idxss[u]`.
pub open spec fn partition_checksums(parts: Seq<Seq<Block>>, idxss: Seq<Seq<int>>, t: int) -> u64
    decreases t,
{
    if t <= 0 {
        0u64
    } else {
        wadd(partition_checksums(parts, idxss, t - 1), checksum(parts[t - 1], idxss[t - 1]))
    }
}

/// The sum of the first `t` workers' checksums counts `t * reads` visits
/// when every partition is all-ones and every worker keeps to its budget.
proof fn lemma_partition_sum(parts: Seq<Seq<Block>>, idxss: Seq<Seq<int>>, reads: int, t: int)
    requires
        parts.len() == idxss.len(),
        forall|u: int| 0 <= u < parts.len() ==> all_ones(#[trigger] parts[u]),
        forall|u: int|
            0 <= u < parts.len() ==> valid_indices(#[trigger] idxss[u], parts[u].len() as int),
        forall|u: int| 0 <= u < parts.len() ==> (#[trigger] idxss[u]).len() == reads,
        reads >= 0,
        0 <= t <= parts.len(),
        parts.len() * reads <= u64::MAX,
    ensures
        partition_checksums(parts, idxss, t) == (t * reads) as u64,
    decreases t,
{
    lemma_mul_basics(reads);
    lemma_mul_inequality(t, parts.len() as int, reads);
    if t > 0 {
        lemma_partition_sum(parts, idxss, reads, t - 1);
        lemma_mul_inequality(1, t, reads);
        lemma_mul_nonnegative(t - 1, reads);
        lemma_unit_checksum(parts[t - 1], idxss[t - 1]);
        assert((t - 1) * reads + reads == t * reads) by {
            lemma_mul_is_distributive_add(reads, t - 1, 1);
            assert(reads * (t - 1) == (t - 1) * reads) by {
                lemma_mul_is_commutative(reads, t - 1);
            }
            assert(reads * t == t * reads) by {
                lemma_mul_is_commutative(reads, t);
            }
        }
        assert(partition_checksums(parts, idxss, t) == wadd(
            ((t - 1) * reads) as u64,
            reads as u64,
        ));
    }
}

/// Partitioned read-count invariance: when every worker reads its own
/// all-ones partition with the same read budget, the workers' checksums add
/// up to the checksum of a single worker performing the whole budget on one
/// all-ones arena. Splitting the arena across workers does not change how
/// many blocks are read.
pub proof fn lemma_partitioned_checksum(
    parts: Seq<Seq<Block>>,
    idxss: Seq<Seq<int>>,
    reads: int,
    whole: Seq<Block>,
    widxs: Seq<int>,
)
    requires
        parts.len() == idxss.len(),
        forall|u: int| 0 <= u < parts.len() ==> all_ones(#[trigger] parts[u]),
        forall|u: int|
            0 <= u < parts.len() ==> valid_indices(#[trigger] idxss[u], parts[u].len() as int),
        forall|u: int| 0 <= u < parts.len() ==> (#[trigger] idxss[u]).len() == reads,
        reads >= 0,
        parts.len() * reads <= u64::MAX,
        all_ones(whole),
        valid_indices(widxs, whole.len() as int),
        widxs.len() == parts.len() * reads,
    ensures
        partition_checksums(parts, idxss, parts.len() as int) == checksum(whole, widxs),
{
    lemma_partition_sum(parts, idxss, reads, parts.len() as int);
    lemma_unit_checksum(whole, widxs);
}

} // verus!
