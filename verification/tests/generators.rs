use readbench::arena::make_arena;
use readbench::block::Block;
use readbench::patterns::is_power_of_two;
use readbench::patterns::double_sequential_reads;
use readbench::patterns::double_sequential_reads_prefetching;
use readbench::patterns::double_sequential_reads_safe;
use readbench::patterns::only_rng;
use readbench::patterns::random_reads;
use readbench::patterns::random_reads_prefetching;
use readbench::patterns::random_reads_safe;
use readbench::patterns::sequential_reads;
use readbench::patterns::sequential_reads_from;
use readbench::patterns::sequential_reads_from_prefetching;
use readbench::patterns::sequential_reads_elementwise;
use readbench::patterns::sequential_reads_offset;
use readbench::patterns::sequential_reads_offset_prefetching;
use readbench::patterns::sequential_reads_prefetching;
use readbench::patterns::sequential_reads_safe;
use readbench::patterns::stride_reads;
use readbench::patterns::stride_reads_prefetching;
use readbench::patterns::stride_reads_safe;

/// An arena whose blocks carry distinct first payload words, so that any
/// change in which blocks a pattern visits changes the checksum.
fn varied(n: usize) -> Vec<Block> {
    let mut v = Vec::new();
    for i in 0..n {
        let mut data = [0u64; 8];
        data[0] = (i as u64) * 7 + 3;
        data[1] = i as u64;
        v.push(Block { data });
    }
    v
}

fn expected_first_sum(blocks: &[Block], idxs: &[usize]) -> u64 {
    let mut s: u64 = 0;
    for &i in idxs {
        s = s.wrapping_add(blocks[i].data[0]);
    }
    s
}

#[test]
fn sequential_counts_reads_on_ones() {
    let arena = make_arena(8);
    assert_eq!(sequential_reads_safe(&arena, 0), 0);
    assert_eq!(sequential_reads_safe(&arena, 8), 8);
    assert_eq!(sequential_reads_safe(&arena, 21), 21);
    assert_eq!(sequential_reads(&arena, 21), 21);
    assert_eq!(sequential_reads_prefetching(&arena, 21), 21);
}

#[test]
fn sequential_exact_values_with_wraparound() {
    let arena = varied(4);
    // visits 0,1,2,3,0,1 -> first words 3,10,17,24,3,10
    let expect = expected_first_sum(&arena, &[0, 1, 2, 3, 0, 1]);
    assert_eq!(expect, 67);
    assert_eq!(sequential_reads_safe(&arena, 6), expect);
    assert_eq!(sequential_reads(&arena, 6), expect);
}

#[test]
fn bounds_variants_agree_sequential() {
    let arena = varied(16);
    for reads in [0usize, 1, 15, 16, 17, 100] {
        assert_eq!(
            sequential_reads(&arena, reads),
            sequential_reads_safe(&arena, reads)
        );
    }
}

#[test]
fn bounds_variants_agree_strided() {
    let arena = varied(16);
    for b in [1usize, 2, 3, 4, 8, 16, 17, 64] {
        assert_eq!(
            double_sequential_reads(&arena, b, 40),
            double_sequential_reads_safe(&arena, b, 40)
        );
    }
}

#[test]
fn bounds_variants_agree_random_same_seed() {
    let arena = varied(32);
    let mut rng_a = fastrand::Rng::with_seed(12345);
    let mut rng_b = fastrand::Rng::with_seed(12345);
    let a = random_reads(&arena, 200, &mut rng_a);
    let b = random_reads_safe(&arena, 200, &mut rng_b);
    assert_eq!(a, b);
}

#[test]
fn prefetching_matches_plain_sequential() {
    let arena = varied(64);
    for reads in [0usize, 1, 63, 64, 65, 500] {
        assert_eq!(
            sequential_reads_prefetching(&arena, reads),
            sequential_reads(&arena, reads)
        );
    }
}

#[test]
fn prefetching_matches_plain_strided() {
    let arena = varied(64);
    for b in [1usize, 2, 3, 8, 64] {
        assert_eq!(
            double_sequential_reads_prefetching(&arena, b, 300),
            double_sequential_reads(&arena, b, 300)
        );
    }
}

#[test]
fn prefetching_matches_plain_stride_walk() {
    let arena = varied(64);
    for s in [0usize, 1, 7, 33, 63] {
        assert_eq!(
            stride_reads_prefetching(&arena, s, 300),
            stride_reads(&arena, s, 300)
        );
    }
}

#[test]
fn prefetching_matches_plain_random_same_seed() {
    let arena = varied(64);
    let mut rng_a = fastrand::Rng::with_seed(99);
    let mut rng_b = fastrand::Rng::with_seed(99);
    // Fewer reads than the prefetch window, exercising the short buffer.
    let a = random_reads(&arena, 5, &mut rng_a);
    let b = random_reads_prefetching(&arena, 5, &mut rng_b);
    assert_eq!(a, b);

    let mut rng_a = fastrand::Rng::with_seed(7);
    let mut rng_b = fastrand::Rng::with_seed(7);
    let a = random_reads(&arena, 500, &mut rng_a);
    let b = random_reads_prefetching(&arena, 500, &mut rng_b);
    assert_eq!(a, b);
}

#[test]
fn stride_factor_one_is_sequential() {
    let arena = varied(32);
    for reads in [0usize, 1, 31, 32, 33, 200] {
        assert_eq!(
            double_sequential_reads_safe(&arena, 1, reads),
            sequential_reads_safe(&arena, reads)
        );
        assert_eq!(
            double_sequential_reads(&arena, 1, reads),
            sequential_reads(&arena, reads)
        );
    }
}

#[test]
fn strided_factor_reduces_modulo_length() {
    let arena = varied(16);
    // A factor one past the length strides like factor one.
    assert_eq!(
        double_sequential_reads_safe(&arena, 17, 50),
        double_sequential_reads_safe(&arena, 1, 50)
    );
}

#[test]
fn strided_exact_value() {
    let arena = varied(8);
    // b = 2, 6 reads: visits 0,2,4,6,0,2
    let expect = expected_first_sum(&arena, &[0, 2, 4, 6, 0, 2]);
    assert_eq!(double_sequential_reads_safe(&arena, 2, 6), expect);
}

#[test]
fn offset_full_cycle_visits_all_blocks() {
    // Over a whole number of cycles the rotation does not change which
    // blocks are visited, so the checksum matches plain sequential.
    let arena = varied(16);
    for offset in [0usize, 1, 5, 15] {
        assert_eq!(
            sequential_reads_from(&arena, offset, 16),
            sequential_reads_safe(&arena, 16)
        );
        assert_eq!(
            sequential_reads_from(&arena, offset, 48),
            sequential_reads_safe(&arena, 48)
        );
    }
}

#[test]
fn offset_exact_value() {
    let arena = varied(4);
    // offset 3, 4 reads: visits 3,0,1,2
    let expect = expected_first_sum(&arena, &[3, 0, 1, 2]);
    assert_eq!(sequential_reads_from(&arena, 3, 4), expect);
    assert_eq!(sequential_reads_from_prefetching(&arena, 3, 4), expect);
}

#[test]
fn offset_counts_reads_on_ones() {
    let arena = make_arena(8);
    let mut rng = fastrand::Rng::with_seed(5);
    assert_eq!(sequential_reads_offset(&arena, 30, &mut rng), 30);
    assert_eq!(sequential_reads_offset_prefetching(&arena, 30, &mut rng), 30);
}

#[test]
fn random_counts_reads_on_ones() {
    let arena = make_arena(16);
    let mut rng = fastrand::Rng::new();
    assert_eq!(random_reads(&arena, 123, &mut rng), 123);
    assert_eq!(random_reads_safe(&arena, 123, &mut rng), 123);
    assert_eq!(random_reads_prefetching(&arena, 123, &mut rng), 123);
}

#[test]
fn stride_walk_counts_reads_on_ones() {
    let arena = make_arena(16);
    assert_eq!(stride_reads_safe(&arena, 7, 100), 100);
    assert_eq!(stride_reads(&arena, 7, 100), 100);
    assert_eq!(stride_reads_prefetching(&arena, 7, 100), 100);
}

#[test]
fn stride_walk_exact_value() {
    let arena = varied(8);
    // stride 3, 5 reads: cursor advances before each read: 3,6,1,4,7
    let expect = expected_first_sum(&arena, &[3, 6, 1, 4, 7]);
    assert_eq!(stride_reads_safe(&arena, 3, 5), expect);
    assert_eq!(stride_reads(&arena, 3, 5), expect);
}

#[test]
fn stride_zero_stays_at_origin() {
    let arena = varied(8);
    let expect = expected_first_sum(&arena, &[0, 0, 0, 0, 0]);
    assert_eq!(stride_reads_safe(&arena, 0, 5), expect);
}

#[test]
fn elementwise_counts_eight_per_read() {
    let arena = make_arena(1024);
    let reads = 100_000usize;
    assert_eq!(
        sequential_reads_elementwise(&arena, reads),
        8 * reads as u64
    );
}

#[test]
fn elementwise_exact_value() {
    let arena = varied(4);
    // visits 0,1,2,3,0; each contributes data[0] + data[1] (rest are zero)
    let mut expect: u64 = 0;
    for &i in &[0usize, 1, 2, 3, 0] {
        expect = expect
            .wrapping_add(arena[i].data[0])
            .wrapping_add(arena[i].data[1]);
    }
    assert_eq!(sequential_reads_elementwise(&arena, 5), expect);
}

#[test]
fn partitioned_reads_match_single_worker_count() {
    let workers = 4usize;
    let per_partition = 64usize;
    let reads_each = 100usize;
    let arena = make_arena(workers * per_partition);
    let mut total: u64 = 0;
    for chunk in arena.chunks(per_partition) {
        total = total.wrapping_add(sequential_reads_safe(chunk, reads_each));
    }
    let single = sequential_reads_safe(&arena, workers * reads_each);
    assert_eq!(total, single);
    assert_eq!(total, (workers * reads_each) as u64);
}

#[test]
fn only_rng_matches_direct_draws() {
    let mut rng = fastrand::Rng::with_seed(4242);
    let got = only_rng(1000, 50, &mut rng);
    let mut check_rng = fastrand::Rng::with_seed(4242);
    let mut expect: u64 = 0;
    for _ in 0..50 {
        expect = expect.wrapping_add(check_rng.usize(0..1000) as u64);
    }
    assert_eq!(got, expect);
}

#[test]
fn random_reads_consumes_draws_in_order() {
    // The same seed drives the generator and a manual replay of the
    // pattern: uniform-random reads must fold exactly the drawn indices.
    let arena = varied(64);
    let mut rng = fastrand::Rng::with_seed(31337);
    let got = random_reads(&arena, 40, &mut rng);
    let mut check_rng = fastrand::Rng::with_seed(31337);
    let mut expect: u64 = 0;
    for _ in 0..40 {
        let idx = check_rng.usize(0..64);
        expect = expect.wrapping_add(arena[idx].data[0]);
    }
    assert_eq!(got, expect);
}

#[test]
fn power_of_two_test() {
    assert!(is_power_of_two(1));
    assert!(is_power_of_two(2));
    assert!(is_power_of_two(1024));
    assert!(is_power_of_two(1 << 24));
    assert!(!is_power_of_two(0));
    assert!(!is_power_of_two(3));
    assert!(!is_power_of_two(12));
    assert!(!is_power_of_two(usize::MAX));
}

#[test]
fn single_block_arena() {
    let arena = make_arena(1);
    assert_eq!(sequential_reads_safe(&arena, 10), 10);
    assert_eq!(sequential_reads(&arena, 10), 10);
    assert_eq!(stride_reads_safe(&arena, 0, 10), 10);
    let mut rng = fastrand::Rng::with_seed(1);
    assert_eq!(random_reads(&arena, 10, &mut rng), 10);
}
