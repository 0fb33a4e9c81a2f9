//! The mathematical model behind the generators: index sequences for each
//! access pattern and the checksum a generator leaves behind after folding
//! the blocks at those indices into a zeroed accumulator.
use crate::block::Block;
use vstd::arithmetic::div_mod::lemma_add_mod_noop;
use vstd::arithmetic::div_mod::lemma_mod_bound;
use vstd::arithmetic::div_mod::lemma_mod_mod;
use vstd::arithmetic::div_mod::lemma_mod_self_0;
use vstd::arithmetic::div_mod::lemma_mod_sub_multiples_vanish;
use vstd::arithmetic::div_mod::lemma_mul_mod_noop_left;
use vstd::arithmetic::div_mod::lemma_small_mod;
use vstd::arithmetic::power2::lemma2_to64;
use vstd::arithmetic::power2::lemma2_to64_rest;
use vstd::arithmetic::power2::lemma_pow2_adds;
use vstd::arithmetic::power2::lemma_pow2_strictly_increases;
use vstd::arithmetic::power2::pow2;
use vstd::bits::lemma_u64_low_bits_mask_is_mod;
use vstd::bits::low_bits_mask;
use vstd::prelude::*;

verus! {

/// 64-bit addition that wraps on overflow, as the accumulator's folds do.
pub open spec fn wadd(a: u64, b: u64) -> u64 {
    vstd::wrapping::u64_specs::wrapping_add(a, b)
}

/// True when `m` is a power of two that fits in 64 bits. Arena lengths must
/// satisfy this for the bounds-elided generators, whose index wraparound
/// masks with `m - 1` instead of dividing.
pub open spec fn power_of_two(m: u64) -> bool {
    exists|n: nat| n < 64 && m == pow2(n)
}

/// All entries of `idxs` are in-bounds positions of an arena of length `len`.
pub open spec fn valid_indices(idxs: Seq<int>, len: int) -> bool {
    forall|k: int| 0 <= k < idxs.len() ==> 0 <= #[trigger] idxs[k] < len
}

/// The checksum accumulated in payload word `w` after visiting the blocks at
/// `idxs`, in order, starting from zero: a wrapping fold of that word.
pub open spec fn word_checksum(blocks: Seq<Block>, idxs: Seq<int>, w: int) -> u64
    decreases idxs.len(),
{
    if idxs.len() == 0 {
        0u64
    } else {
        wadd(word_checksum(blocks, idxs.drop_last(), w), blocks[idxs.last()].data[w])
    }
}

/// The checksum of the plain accumulation protocol: fold the first payload
/// word of every visited block.
pub open spec fn checksum(blocks: Seq<Block>, idxs: Seq<int>) -> u64 {
    word_checksum(blocks, idxs, 0)
}

/// The wrapping sum of the word checksums for words `0..k`.
pub open spec fn word_checksum_prefix_sum(blocks: Seq<Block>, idxs: Seq<int>, k: int) -> u64
    decreases k,
{
    if k <= 0 {
        0u64
    } else {
        wadd(word_checksum_prefix_sum(blocks, idxs, k - 1), word_checksum(blocks, idxs, k - 1))
    }
}

/// The checksum of the element-wise accumulation protocol: every payload
/// word of every visited block is folded in, and the eight per-word
/// checksums are reduced to one value at the end.
pub open spec fn elementwise_checksum(blocks: Seq<Block>, idxs: Seq<int>) -> u64 {
    word_checksum_prefix_sum(blocks, idxs, 8)
}

/// Index sequence of the sequential pattern: visit `i` touches `i % len`.
pub open spec fn sequential_indices(len: int, count: int) -> Seq<int> {
    Seq::new(count as nat, |i: int| i % len)
}

/// Index sequence of the offset-sequential pattern: sequential order,
/// rotated to start at `offset`.
pub open spec fn offset_indices(offset: int, len: int, count: int) -> Seq<int> {
    Seq::new(count as nat, |i: int| (offset + i) % len)
}

/// Index sequence of the strided-by-`b` pattern: visit `i` touches
/// `(b * i) % len`, skipping `b - 1` blocks between touches.
pub open spec fn strided_indices(b: int, len: int, count: int) -> Seq<int> {
    Seq::new(count as nat, |i: int| (b * i) % len)
}

/// Index sequence of the fixed-stride walk: the cursor starts at zero and
/// advances by `s` modulo `len` before every touch, so visit `i` touches
/// `(s * (i + 1)) % len`.
pub open spec fn stride_walk_indices(s: int, len: int, count: int) -> Seq<int> {
    Seq::new(count as nat, |i: int| (s * (i + 1)) % len)
}

/// Every payload word of this block is one: the arena's fill value.
pub open spec fn is_ones_block(b: Block) -> bool {
    forall|w: int| 0 <= w < 8 ==> #[trigger] b.data[w] == 1
}

/// Every block of the arena is filled with ones, the configuration under
/// which a plain-addition checksum counts the reads performed.
pub open spec fn all_ones(blocks: Seq<Block>) -> bool {
    forall|k: int| 0 <= k < blocks.len() ==> is_ones_block(#[trigger] blocks[k])
}

/// The wrapping sum of a sequence of index values, the fold used when a
/// generator exercises only the index source and never touches the arena.
pub open spec fn index_total(draws: Seq<int>) -> u64
    decreases draws.len(),
{
    if draws.len() == 0 {
        0u64
    } else {
        wadd(index_total(draws.drop_last()), draws.last() as u64)
    }
}

/// Appending one draw extends the index total by one wrapping addition.
pub proof fn lemma_index_total_snoc(draws: Seq<int>, j: int)
    ensures
        index_total(draws.push(j)) == wadd(index_total(draws), j as u64),
{
    assert(draws.push(j).drop_last() =~= draws);
}

/// Appending one visit extends a word checksum by one wrapping addition.
pub proof fn lemma_word_checksum_snoc(blocks: Seq<Block>, idxs: Seq<int>, j: int, w: int)
    ensures
        word_checksum(blocks, idxs.push(j), w) == wadd(
            word_checksum(blocks, idxs, w),
            blocks[j].data[w],
        ),
{
    assert(idxs.push(j).drop_last() =~= idxs);
}

/// An accumulator whose words each hold the matching per-word checksum
/// reduces, word by word, to the prefix sum of those checksums.
pub proof fn lemma_reduce_matches_prefix_sum(
    blocks: Seq<Block>,
    idxs: Seq<int>,
    acc: Block,
    k: int,
)
    requires
        forall|w: int| 0 <= w < 8 ==> #[trigger] acc.data[w] == word_checksum(blocks, idxs, w),
        0 <= k <= 8,
    ensures
        word_sum_prefix(acc, k) == word_checksum_prefix_sum(blocks, idxs, k),
    decreases k,
{
    if k > 0 {
        lemma_reduce_matches_prefix_sum(blocks, idxs, acc, k - 1);
    }
}

/// The wrapping sum of payload words `0..k` of one block.
pub open spec fn word_sum_prefix(b: Block, k: int) -> u64
    decreases k,
{
    if k <= 0 {
        0u64
    } else {
        wadd(word_sum_prefix(b, k - 1), b.data[k - 1])
    }
}

/// The wrapping sum of all eight payload words of one block.
pub open spec fn block_word_sum(b: Block) -> u64 {
    word_sum_prefix(b, 8)
}

/// One modular step: advancing a cursor by one wraps from `len - 1` to `0`.
pub proof fn lemma_mod_step_one(a: int, len: int)
    requires
        len >= 1,
        a >= 0,
    ensures
        (a + 1) % len == if a % len == len - 1 {
            0int
        } else {
            a % len + 1
        },
{
    lemma_mod_bound(a, len);
    lemma_mod_bound(a + 1, len);
    if len == 1 {
    } else {
        lemma_add_mod_noop(a, 1, len);
        lemma_small_mod(1nat, len as nat);
        if a % len == len - 1 {
            lemma_mod_self_0(len);
        } else {
            lemma_small_mod((a % len + 1) as nat, len as nat);
        }
    }
}

/// One modular step of size `s`: the branch-based advance that avoids both
/// division and overflow computes `(a + s) % len` from `a % len`.
pub proof fn lemma_mod_step(a: int, s: int, len: int)
    requires
        len >= 1,
        0 <= s < len,
        a >= 0,
    ensures
        (a + s) % len == if a % len + s >= len {
            a % len + s - len
        } else {
            a % len + s
        },
{
    lemma_mod_bound(a, len);
    lemma_add_mod_noop(a, s, len);
    lemma_small_mod(s as nat, len as nat);
    if a % len + s >= len {
        assert((a % len + s) % len == a % len + s - len) by {
            lemma_mod_sub_multiples_vanish(a % len + s, len);
            lemma_small_mod((a % len + s - len) as nat, len as nat);
        }
    } else {
        lemma_small_mod((a % len + s) as nat, len as nat);
    }
}

/// Reducing a stride factor modulo the arena length leaves every strided
/// index unchanged.
pub proof fn lemma_strided_indices_reduce(b: int, len: int, count: int)
    requires
        len >= 1,
        b >= 0,
    ensures
        strided_indices(b % len, len, count) =~= strided_indices(b, len, count),
{
    let reduced = strided_indices(b % len, len, count);
    let plain = strided_indices(b, len, count);
    assert(reduced.len() == plain.len());
    assert forall|i: int| 0 <= i < reduced.len() implies #[trigger] reduced[i] == plain[i] by {
        lemma_mul_mod_noop_left(b, i, len);
    }
    assert(reduced =~= plain);
}

/// Masking with `m - 1` is reduction modulo `m` when `m` is a power of two:
/// the bounds-elided generators' index arithmetic agrees with the
/// bounds-checked generators' modular arithmetic.
pub proof fn lemma_mask_is_mod(x: u64, m: u64)
    requires
        power_of_two(m),
    ensures
        m >= 1,
        x & ((m - 1) as u64) == x % m,
{
    let n = choose|n: nat| n < 64 && m == pow2(n);
    vstd::arithmetic::power2::lemma_pow2_pos(n);
    lemma_u64_low_bits_mask_is_mod(x, n);
    assert(low_bits_mask(n) == m - 1);
}

/// Masking a wrapped (truncated) product recovers the modular product when
/// the modulus is a power of two: truncation to 64 bits keeps every bit the
/// mask can read.
pub proof fn lemma_masked_mul_is_mod(b: u64, i: u64, m: u64)
    requires
        power_of_two(m),
    ensures
        m >= 1,
        vstd::wrapping::u64_specs::wrapping_mul(b, i) & ((m - 1) as u64) == (b as int * i as int)
            % (m as int),
{
    let p = vstd::wrapping::u64_specs::wrapping_mul(b, i);
    lemma_mask_is_mod(p, m);
    let n = choose|n: nat| n < 64 && m == pow2(n);
    let rest = pow2((64 - n) as nat);
    lemma_pow2_adds(n, (64 - n) as nat);
    vstd::arithmetic::power2::lemma_pow2_pos((64 - n) as nat);
    lemma2_to64_rest();
    assert(m * rest == 0x10000000000000000);
    lemma_mod_mod(b as int * i as int, m as int, rest as int);
}

/// The runtime power-of-two test: a positive value whose bitwise AND with
/// its predecessor is zero is a power of two, and conversely.
pub proof fn lemma_pow2_mask_test(m: u64)
    ensures
        power_of_two(m) <==> (m >= 1 && m & ((m - 1) as u64) == 0),
    decreases m,
{
    if power_of_two(m) {
        lemma_mask_is_mod(m, m);
        lemma_mod_self_0(m as int);
    }
    if m >= 1 && m & ((m - 1) as u64) == 0 {
        if m == 1 {
            lemma2_to64();
            assert(m == pow2(0));
        } else {
            let h = m / 2;
            assert(m % 2 == 0 && h & ((h - 1) as u64) == 0 && h >= 1 && h < m) by (bit_vector)
                requires
                    m >= 2 && m & ((m - 1) as u64) == 0 && h == m / 2,
            ;
            lemma_pow2_mask_test(h);
            let n = choose|n: nat| n < 64 && h == pow2(n);
            lemma_pow2_adds(n, 1);
            lemma2_to64();
            assert(m == pow2(n + 1));
            if n + 1 >= 64 {
                if n + 1 > 64 {
                    lemma_pow2_strictly_increases(64, n + 1);
                }
                lemma2_to64_rest();
                assert(pow2(64) == 0x10000000000000000);
            }
        }
    }
}

} // verus!
