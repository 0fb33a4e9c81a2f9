use readbench::arena::flush_arena;
use readbench::arena::make_arena;
use readbench::block::Block;
use readbench::patterns::prefetch_hint;
use readbench::patterns::sequential_reads_safe;

#[test]
fn zeros_and_ones_fill_every_word() {
    let z = Block::zeros();
    let o = Block::ones();
    for w in 0..8 {
        assert_eq!(z.data[w], 0);
        assert_eq!(o.data[w], 1);
    }
}

#[test]
fn add_other_folds_first_word_only() {
    let mut acc = Block::zeros();
    let mut other = Block::ones();
    other.data[0] = 41;
    other.data[3] = 99;
    acc.add_other(&other);
    acc.add_other(&other);
    assert_eq!(acc.data[0], 82);
    assert_eq!(acc.data[3], 0);
}

#[test]
fn add_other_wraps_on_overflow() {
    let mut acc = Block::zeros();
    acc.data[0] = u64::MAX;
    let mut other = Block::zeros();
    other.data[0] = 3;
    acc.add_other(&other);
    assert_eq!(acc.data[0], 2);
}

#[test]
fn add_other_elementwise_touches_all_words() {
    let mut acc = Block::zeros();
    let mut other = Block::zeros();
    for w in 0..8 {
        other.data[w] = (w as u64) + 1;
    }
    acc.add_other_elementwise(&other);
    acc.add_other_elementwise(&other);
    for w in 0..8 {
        assert_eq!(acc.data[w], 2 * ((w as u64) + 1));
    }
}

#[test]
fn word_sum_reduces_all_words() {
    let mut b = Block::zeros();
    for w in 0..8 {
        b.data[w] = (w as u64) * 10;
    }
    assert_eq!(b.word_sum(), 280);
    let mut wrap = Block::zeros();
    wrap.data[0] = u64::MAX;
    wrap.data[1] = 2;
    assert_eq!(wrap.word_sum(), 1);
}

#[test]
fn accumulate_sum_reads_first_word() {
    let mut b = Block::zeros();
    b.data[0] = 77;
    b.data[7] = 1000;
    assert_eq!(b.accumulate_sum(), 77);
}

#[test]
fn arena_is_all_ones() {
    let arena = make_arena(64);
    assert_eq!(arena.len(), 64);
    for b in &arena {
        for w in 0..8 {
            assert_eq!(b.data[w], 1);
        }
    }
}

#[test]
fn flush_and_prefetch_change_nothing() {
    let arena = make_arena(8);
    flush_arena(&arena);
    arena[0].flush();
    prefetch_hint(&arena, 3);
    prefetch_hint(&arena, 100000);
    assert_eq!(sequential_reads_safe(&arena, 8), 8);
}
