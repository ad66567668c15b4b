use ubq::bench::blocks::{
    all_cases, block_order, case_order, normalize_block_sizes, updater_counts, BenchmarkCase,
    BlockConfig, CounterLayout, OrderingProfile, Strength, UpdateMethod, UPDATE_CHUNK,
};
use ubq::bench::trial::{
    check_trial, full_value_text, plan_updates, sanitize_component, sum_outcomes, Schedule,
    ThreadOutcome, UpdateArgs,
};
use ubq::bench::updater::{Act, Updater};
use ubq::bench::updates::{attempt, Attempt, CachedHead, Counter, UpdateStats};

#[test]
fn powers_of_two_stop_at_the_effective_limit() {
    assert_eq!(updater_counts(1).unwrap(), vec![1]);
    assert_eq!(updater_counts(12).unwrap(), vec![1, 2, 4, 8]);
    assert_eq!(updater_counts(16).unwrap(), vec![1, 2, 4, 8, 16]);
    assert!(updater_counts(0).is_err());
}

#[test]
fn case_order_rotates_all_cases_through_all_positions() {
    let cases = all_cases();
    for case in &cases {
        for position in 0..cases.len() {
            assert_eq!(
                (0..cases.len())
                    .filter(|offset| case_order(*offset)[position] == *case)
                    .count(),
                1
            );
        }
    }
}

#[test]
fn block_sizes_are_sorted_and_deduplicated() {
    assert_eq!(
        normalize_block_sizes(&[511, 31, 511, 127]).unwrap(),
        vec![31, 127, 511]
    );
    assert!(normalize_block_sizes(&[]).is_err());
    assert!(normalize_block_sizes(&[0]).is_err());
}

#[test]
fn state_encodes_pointer_generation_and_full_index_space() {
    let block = BlockConfig::new(511, 4096).unwrap();
    let low = block.pack_low(0xfeed_beef, 0xcafe_babe);
    assert_eq!(block.generation(low), 0xfeed_beef);
    assert_eq!(block.index(low), 0xcafe_babe);
    assert_eq!(block.next_low(low), block.pack_low(0xfeed_bef0, 0));
    let full = block.pack_full(0x1234_5000, low);
    assert_eq!((full >> 64) as u64, 0x1234_5000);
    assert_eq!(full as u64, low);
}

#[test]
fn every_layout_and_method_preserves_block_traversal() {
    let block = BlockConfig::new(7, 64).unwrap();
    for case in all_cases() {
        let mut counter = Counter::new(case.layout, block);
        let mut stats = UpdateStats::new();
        let mut cache = CachedHead::new();
        counter.initialize(block, &mut cache, &mut stats);
        match case.method {
            UpdateMethod::Cas | UpdateMethod::CasBackoff => {
                counter.run_cas_chunk(case.method, block, &mut cache, &mut stats)
            }
            UpdateMethod::Faa => counter.run_faa_chunk(block, &mut cache, &mut stats),
            UpdateMethod::SegQueue => counter.run_segqueue_chunk(block, &mut stats),
        }
        assert_eq!(stats.operations, UPDATE_CHUNK as u64);
        assert_eq!(
            stats.boundary_stores,
            UPDATE_CHUNK as u64 / u64::from(block.block_size)
        );
        let expected = if case.method == UpdateMethod::SegQueue {
            block
                .expected_segqueue_position(UPDATE_CHUNK as u64)
                .unwrap()
        } else {
            block.expected_low(UPDATE_CHUNK as u64).unwrap()
        };
        assert_eq!(counter.final_values(block).0, expected);
        match case.layout {
            CounterLayout::U64 => {
                assert_eq!(stats.wide_loads, 0);
                assert_eq!(stats.wide_stores, 0);
            }
            CounterLayout::MixedU128U64 => {
                assert_eq!(stats.wide_loads, 1);
                assert_eq!(stats.wide_stores, stats.boundary_stores);
                assert_eq!(
                    counter.final_values(block).1.unwrap() >> 64,
                    u128::from(block.expected_pointer(UPDATE_CHUNK as u64).unwrap())
                );
            }
        }
    }
}

#[test]
fn segqueue_reservation_skips_the_sentinel_between_laps() {
    let block = BlockConfig::new(7, 64).unwrap();
    let mut counter = Counter::new(CounterLayout::U64, block);
    let mut stats = UpdateStats::new();

    counter.run_segqueue_chunk(block, &mut stats);

    let final_position = counter.final_values(block).0;
    assert_eq!(
        final_position,
        block
            .expected_segqueue_position(UPDATE_CHUNK as u64)
            .unwrap()
    );
    assert_eq!(block.segqueue_offset(final_position), 1);
    assert_eq!(stats.operations, UPDATE_CHUNK as u64);
    assert_eq!(stats.boundary_stores, UPDATE_CHUNK as u64 / 7);
    assert_eq!(stats.cas_failures, 0);
    assert_eq!(stats.boundary_waits, 0);
}

#[test]
fn counters_that_lost_operations_are_noticed() {
    let block = BlockConfig::new(7, 64).unwrap();
    let case = all_cases()[0];
    let mut stats = UpdateStats::new();
    stats.operations = 10;
    stats.boundary_stores = 1;
    let low = block.expected_low(10).unwrap();
    assert_eq!(low, (1 << 32) | 3);
    assert!(check_trial(case, block, stats, low, None).is_ok());
    assert!(check_trial(case, block, stats, low + 1, None).is_err());
}

#[test]
fn a_block_without_slots_or_with_an_odd_alignment_is_refused() {
    assert_eq!(
        BlockConfig::new(0, 64).unwrap_err(),
        "block sizes must be greater than zero"
    );
    assert_eq!(
        BlockConfig::new(7, 48).unwrap_err(),
        "--alignment must be a nonzero power of two"
    );
    assert!(BlockConfig::new(7, 0).is_err());
}

#[test]
fn an_attempt_waits_at_the_end_of_a_block() {
    let block = BlockConfig::new(7, 64).unwrap();
    assert!(matches!(attempt(block, 7), Attempt::Wait));
    assert!(!matches!(attempt(block, 6), Attempt::Wait));
}

#[test]
fn profiles_name_their_strengths() {
    assert!(matches!(
        OrderingProfile::Relaxed.load_strength(),
        Strength::Relaxed
    ));
    assert_eq!(OrderingProfile::Relaxed.name(), "relaxed");
}

#[test]
fn outcomes_add_up_and_the_longest_thread_counts() {
    let mut stats = UpdateStats::new();
    stats.operations = 5;
    let one = ThreadOutcome { stats, elapsed_ns: 30, pinned: true };
    let other = ThreadOutcome { stats, elapsed_ns: 70, pinned: false };
    let (sum, longest, pinned) = sum_outcomes(&vec![one, other]);
    assert_eq!(sum.operations, 10);
    assert_eq!(longest, 70);
    assert_eq!(pinned, 1);
}

#[test]
fn plans_are_limited_by_the_cores() {
    let args = UpdateArgs {
        machine_label: "local".to_string(),
        max_updaters: None,
        block_sizes: vec![127, 31],
        alignment: 4096,
        duration_ms: 500,
        repeats: 5,
    };
    let plan = plan_updates(&args, true, &Ok(6), 8).unwrap();
    assert_eq!(plan.block_sizes, vec![31, 127]);
    assert_eq!(plan.effective_thread_limit, 6);
    assert_eq!(plan.counts, vec![1, 2, 4]);
    assert!(plan_updates(&args, false, &Ok(6), 8).is_err());
    let unknown = Err("unable to detect available parallelism: lost".to_string());
    assert_eq!(
        plan_updates(&args, true, &unknown, 8).err().as_deref(),
        Some("unable to detect available parallelism: lost")
    );
    assert_eq!(
        plan_updates(&args, false, &unknown, 8).err(),
        plan_updates(&args, false, &Ok(6), 8).err()
    );
}

#[test]
fn a_schedule_goes_through_every_combination_once() {
    let blocks = vec![
        BlockConfig::new(31, 64).unwrap(),
        BlockConfig::new(127, 64).unwrap(),
    ];
    let mut schedule = Schedule::new(vec![1, 2], 3, blocks.clone());
    let mut count = 0;
    let mut first = None;
    while let Some(trial) = schedule.next() {
        if first.is_none() {
            first = Some(trial);
        }
        count += 1;
    }
    assert_eq!(count, 2 * 3 * 2 * 7);
    let first = first.unwrap();
    assert_eq!(first.updaters, 1);
    assert_eq!(first.repeat_index, 1);
    assert_eq!(first.block, blocks[0]);
    assert_eq!(block_order(&blocks, 2), vec![blocks[1], blocks[0]]);
}

#[test]
fn components_keep_letters_digits_and_dashes() {
    assert_eq!(sanitize_component("my box/1"), "my_box_1");
    assert_eq!(sanitize_component(""), "local");
}

#[test]
fn full_values_are_written_in_hexadecimal() {
    assert_eq!(full_value_text(0xff), format!("{:#034x}", 0xff));
}

/// The shared head, as threads see it.
struct Head {
    word: u64,
    pointer: u64,
}

/// Makes one access for a thread.
fn perform(head: &mut Head, updater: &mut Updater) {
    match updater.act() {
        Act::LoadWord => updater.loaded_word(head.word),
        Act::LoadWhole => {
            updater.loaded_whole((u128::from(head.pointer) << 64) | u128::from(head.word))
        }
        Act::Exchange { current, new } => {
            if head.word == current {
                head.word = new;
                updater.exchanged(Ok(current));
            } else {
                updater.exchanged(Err(head.word));
            }
        }
        Act::Add => {
            let reserved = head.word;
            head.word = reserved.wrapping_add(1);
            updater.added(reserved);
        }
        Act::StoreWord { value } => {
            head.word = value;
            updater.stored();
        }
        Act::StoreWhole { whole } => {
            head.word = whole as u64;
            head.pointer = (whole >> 64) as u64;
            updater.stored();
        }
        Act::Spin | Act::Snooze => updater.paused(),
        Act::Rest => updater.begin(),
    }
}

#[test]
fn threads_in_any_order_leave_the_expected_counter() {
    let block = BlockConfig::new(7, 64).unwrap();
    for case in all_cases() {
        let mut head = Head { word: 0, pointer: 64 };
        let mut threads = vec![Updater::new(case, block); 3];
        let mut seed: u64 = 0x9e37_79b9;
        for _ in 0..20_000 {
            seed = seed.wrapping_mul(6364136223846793005).wrapping_add(1442695040888963407);
            perform(&mut head, &mut threads[(seed >> 33) as usize % 3]);
        }
        let mut rounds = 0;
        while threads.iter().any(|thread| thread.act() != Act::Rest) {
            for thread in threads.iter_mut() {
                if thread.act() != Act::Rest {
                    perform(&mut head, thread);
                }
            }
            rounds += 1;
            assert!(rounds < 10_000);
        }
        let outcomes: Vec<ThreadOutcome> = threads
            .iter()
            .map(|thread| ThreadOutcome { stats: thread.stats, elapsed_ns: 1, pinned: false })
            .collect();
        let (stats, _, _) = sum_outcomes(&outcomes);
        assert!(stats.operations > 1_000);
        assert!(stats.boundary_waits > 0);
        let full = match case.layout {
            CounterLayout::U64 => None,
            CounterLayout::MixedU128U64 => {
                Some((u128::from(head.pointer) << 64) | u128::from(head.word))
            }
        };
        assert!(check_trial(case, block, stats, head.word, full).is_ok());
    }
}

#[test]
fn the_last_place_of_a_block_is_followed_by_a_store() {
    let block = BlockConfig::new(1, 64).unwrap();
    let case = BenchmarkCase {
        layout: CounterLayout::MixedU128U64,
        method: UpdateMethod::Cas,
    };
    let mut updater = Updater::new(case, block);
    assert_eq!(updater.act(), Act::LoadWhole);
    updater.loaded_whole(64 << 64);
    assert_eq!(updater.act(), Act::Rest);
    updater.begin();
    assert_eq!(updater.act(), Act::LoadWord);
    updater.loaded_word(0);
    assert_eq!(updater.act(), Act::Exchange { current: 0, new: 1 });
    updater.exchanged(Ok(0));
    assert_eq!(updater.act(), Act::StoreWhole { whole: (128 << 64) | (1 << 32) });
    updater.stored();
    assert_eq!(updater.act(), Act::Rest);
    assert_eq!(updater.stats.operations, 1);
    assert_eq!(updater.stats.boundary_stores, 1);
    assert_eq!(updater.stats.wide_stores, 1);
}

#[test]
fn a_failed_exchange_spins_only_with_backoff() {
    let block = BlockConfig::new(7, 64).unwrap();
    for method in [UpdateMethod::Cas, UpdateMethod::CasBackoff] {
        let case = BenchmarkCase { layout: CounterLayout::U64, method };
        let mut updater = Updater::new(case, block);
        updater.loaded_word(0);
        updater.begin();
        updater.loaded_word(2);
        updater.exchanged(Err(3));
        assert_eq!(updater.stats.cas_failures, 1);
        if method == UpdateMethod::CasBackoff {
            assert_eq!(updater.act(), Act::Spin);
            updater.paused();
        }
        assert_eq!(updater.act(), Act::Exchange { current: 3, new: 4 });
    }
}

#[test]
fn an_addition_behind_the_end_of_a_block_is_tried_again() {
    let block = BlockConfig::new(7, 64).unwrap();
    let case = BenchmarkCase { layout: CounterLayout::U64, method: UpdateMethod::Faa };
    let mut updater = Updater::new(case, block);
    updater.loaded_word(6);
    updater.begin();
    updater.loaded_word(6);
    assert_eq!(updater.act(), Act::Add);
    updater.added(7);
    assert_eq!(updater.stats.invalid_faa_reservations, 1);
    assert_eq!(updater.act(), Act::Snooze);
    updater.paused();
    assert_eq!(updater.act(), Act::LoadWord);
}
