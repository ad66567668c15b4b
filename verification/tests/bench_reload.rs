use ubq::bench::hex::hex_text;
use ubq::bench::numbers::sorted_distinct;
use ubq::bench::reload::{
    add_stats, attempt_reservation, check_sample, head_index, normalize_batch_sizes, run_chunk,
    strategy_order, thread_counts, token, ReloadStrategy, WorkerStats,
};

#[test]
fn low_word_reserves_sixteen_token_bits() {
    let low = (u64::from(0xbeef_u16) << 48) | 0x1234_5678_9abc;
    assert_eq!(token(low), 0xbeef);
    assert_eq!(head_index(low), 0x1234_5678_9abc);
}

#[test]
fn thread_grid_uses_powers_of_two() {
    assert_eq!(thread_counts(1).unwrap(), vec![1]);
    assert_eq!(thread_counts(12).unwrap(), vec![1, 2, 4, 8]);
    assert!(thread_counts(0).is_err());
}

#[test]
fn batch_grid_is_sorted_and_unique() {
    assert_eq!(
        normalize_batch_sizes(&[16, 1, 16, 4]).unwrap(),
        vec![1, 4, 16]
    );
    assert!(normalize_batch_sizes(&[0]).is_err());
}

#[test]
fn strategies_take_turns() {
    let (first, second) = strategy_order(1, 0);
    let (other, _) = strategy_order(2, 0);
    assert_ne!(first, second);
    assert_eq!(other, second);
}

#[test]
fn stats_add_up() {
    let mut one = WorkerStats::new();
    one.reserved(5, 9, 1);
    let mut other = WorkerStats::new();
    other.reserved(7, 4, 0);
    let sum = add_stats(one, other).unwrap();
    let mut both = WorkerStats::new();
    both.reserved(5, 9, 1);
    both.reserved(7, 4, 0);
    assert_eq!(sum, both);
}

#[test]
fn strategies_have_names() {
    assert_ne!(
        ReloadStrategy::AlwaysWide.name(),
        ReloadStrategy::TokenGated.name()
    );
}

#[test]
fn numbers_are_sorted_and_written() {
    assert_eq!(sorted_distinct(&[3, 1, 3, 2]), vec![1, 2, 3]);
    assert_eq!(hex_text(0xbeef, 8), "0x0000beef");
}

#[test]
fn an_undisturbed_chunk_reserves_every_time() {
    for strategy in [ReloadStrategy::AlwaysWide, ReloadStrategy::TokenGated] {
        let pointer: u128 = 0x1234_5678_9000;
        let mut head = pointer << 64;
        let mut stats = WorkerStats::new();
        run_chunk(&mut head, strategy, 3, &mut stats);
        assert_eq!(head, (pointer << 64) + 768);
        assert_eq!(stats.reservations, 256);
        assert_eq!(stats.items, 768);
        assert_eq!(stats.wide_loads, 256);
        assert_eq!(stats.cas_failures, 0);
        assert!(check_sample(strategy, stats, head as u64).is_ok());
    }
}

#[test]
fn a_stale_view_is_reloaded_unless_its_token_matches() {
    let mut head: u128 = (7 << 64) | 40;
    let mut stats = WorkerStats::new();
    let seen = stats.load_full((7 << 64) | 30);
    assert_eq!(
        attempt_reservation(&mut head, ReloadStrategy::TokenGated, 2, seen.0, seen.1, &mut stats),
        Some((40, seen.1))
    );
    assert_eq!((stats.token_hits, stats.wide_loads), (1, 1));
    let next =
        attempt_reservation(&mut head, ReloadStrategy::AlwaysWide, 2, seen.0, seen.1, &mut stats);
    assert_eq!(next.map(|found| found.0), Some(40));
    assert_eq!((stats.cas_failures, stats.wide_loads), (2, 2));
    assert_eq!(
        attempt_reservation(&mut head, ReloadStrategy::AlwaysWide, 2, 40, seen.1, &mut stats),
        None
    );
    assert_eq!(head, (7 << 64) | 42);
}

#[test]
fn the_checksum_mixes_both_halves() {
    let mut stats = WorkerStats::new();
    stats.load_full((5 << 64) | 3);
    assert_eq!(stats.checksum, 6);
    stats.load_full((5 << 64) | 3);
    assert_eq!(stats.checksum, (6_u64 << 7) + 6);
    let before = stats.checksum;
    stats.reserved(1, 1, 63);
    assert_eq!(stats.checksum, before ^ (1 << 63));
}
