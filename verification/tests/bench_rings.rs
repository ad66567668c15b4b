use ubq::bench::incr::{
    atomic_incr_cas, atomic_incr_max, cas_step, fmt_num, max_step, parse_once_args,
    parse_sweep_args, parse_usize_list, parse_usize_token, sweep_defaults, OnceLine, SweepLine,
};
use ubq::bench::profile::{check_profile, AllocatorProbe, ProfileArgs, ProfileQueue};
use ubq::bench::roles::{Completer, Groups, KernelAction, Pipeline, Roles};
use ubq::bench::sweep::{
    baseline_of, check_pinning, csv_field, parse_batch_mode, parse_batch_modes, parse_queue_kinds,
    parse_sizes, parse_ubq_label, sample_row, summary_groups, summary_row, validate_args,
    write_row, QueueKind, Sample, SweepArgs,
};
use ubq::bench::uring::{
    bbq_block_count, check_completions, seed_for, BatchMode, BoundedUbq, IoUringQueue,
    XorShift64,
};

fn words(list: &[&str]) -> Vec<String> {
    list.iter().map(|word| word.to_string()).collect()
}

#[test]
fn rings_take_what_fits() {
    let mut ring = IoUringQueue::new(4).unwrap();
    assert_eq!(ring.push_batch(&[1, 2, 3]), 3);
    assert_eq!(ring.push_sequential_batch(4, 5), 1);
    assert!(!ring.try_push(9));
    assert_eq!(ring.pop_batch(2), vec![1, 2]);
    assert!(ring.try_push(9));
    assert_eq!(ring.pop_batch(10), vec![3, 4, 9]);
    assert_eq!(ring.try_pop(), None);
    assert!(IoUringQueue::new(0).is_err());
    assert!(IoUringQueue::new(3).is_err());
}

#[test]
fn a_bounded_queue_refuses_more_than_its_capacity() {
    let mut queue = BoundedUbq::new(2, 64, 5).unwrap();
    assert!(queue.try_push(1));
    assert!(queue.try_push(2));
    assert!(!queue.try_push(3));
    assert_eq!(queue.try_pop(), Some(1));
    assert!(queue.try_push(3));
    assert!(BoundedUbq::new(0, 64, 5).is_err());
}

#[test]
fn block_counts_leave_two_blocks_free() {
    assert_eq!(bbq_block_count(64, 8), Ok(10));
    assert_eq!(bbq_block_count(65, 8), Ok(11));
    assert!(bbq_block_count(0, 8).is_err());
    assert!(bbq_block_count(8, 0).is_err());
}

#[test]
fn generated_sizes_stay_in_their_range() {
    let mut rng = XorShift64::new(seed_for(1, 64, BatchMode::Random1To32, 3));
    for _ in 0..1000 {
        let size = BatchMode::Random1To32.next(&mut rng);
        assert!((1..=32).contains(&size));
    }
    assert_eq!(BatchMode::Fixed1.next(&mut rng), 1);
    assert_eq!(BatchMode::Random1To32.max(), 32);
    assert_ne!(rng.next_u64(), 0);
}

#[test]
fn completions_have_to_come_in_order() {
    assert!(check_completions(&vec![5, 6, 7], 5).is_ok());
    assert_eq!(
        check_completions(&vec![5, 7], 5).unwrap_err(),
        "completion order mismatch: expected 6, got 7"
    );
}

#[test]
fn requests_go_through_both_rings() {
    let mut pipeline = Pipeline::new(4, 8, BatchMode::Fixed1, 1, 2).unwrap();
    assert_eq!(pipeline.serve(), Some(0));
    assert_eq!(pipeline.complete(), Ok(Some(0)));
    assert_eq!(pipeline.submit(), Some(1));
    assert_eq!(pipeline.submit(), Some(1));
    assert_eq!(pipeline.submit(), None);
    for _ in 0..2 {
        assert_eq!(pipeline.serve(), Some(1));
        assert_eq!(pipeline.serve(), Some(1));
    }
    assert_eq!(pipeline.serve(), None);
    assert_eq!(pipeline.complete(), Ok(Some(1)));
    assert_eq!(pipeline.complete(), Ok(Some(1)));
    assert_eq!(pipeline.complete(), Ok(None));
    assert!(Pipeline::new(3, 8, BatchMode::Fixed1, 1, 2).is_err());
}

#[test]
fn names_of_queues_and_modes_are_read() {
    assert_eq!(QueueKind::parse("UBQ"), Some(QueueKind::Ubq));
    assert_eq!(QueueKind::parse("what"), None);
    assert_eq!(parse_batch_mode("fixed1"), Some(BatchMode::Fixed1));
    assert_eq!(
        parse_queue_kinds("bbq,ubq").unwrap(),
        vec![QueueKind::Bbq, QueueKind::Ubq]
    );
    assert!(parse_queue_kinds("bbq,what").is_err());
    assert!(parse_batch_modes("").is_err());
    assert_eq!(parse_sizes("64,128").unwrap(), vec![64, 128]);
    assert!(parse_sizes("64,x").is_err());
    assert!(parse_ubq_label("nonsense").is_err());
}

#[test]
fn fields_are_quoted_where_they_need_it() {
    assert_eq!(csv_field("plain"), "plain");
    assert_eq!(csv_field("a,b"), "\"a,b\"");
    assert_eq!(csv_field("say \"x\""), "\"say \"\"x\"\"\"");
    assert_eq!(write_row(&words(&["a", "b,c"])), "a,\"b,c\"\n");
}

fn sample(queue: &str, repeat: usize) -> Sample {
    Sample {
        queue: queue.to_string(),
        sq_size: 64,
        cq_size: 128,
        batch_mode: BatchMode::Fixed1,
        repeat,
        requests: 10,
        submitted: 10,
        processed: 10,
        completed: 10,
        submit_elapsed_ns: 5,
        total_elapsed_ns: 9,
    }
}

#[test]
fn samples_are_summed_up_by_queue() {
    let samples = vec![sample("io_uring", 1), sample("ubq", 1), sample("io_uring", 2)];
    let groups = summary_groups(&samples);
    assert_eq!(groups.len(), 2);
    let at = baseline_of(&groups, &groups[1].key);
    assert!(at.is_some());
    let row = sample_row(&samples[0], words(&["1", "2", "3", "4"]));
    assert_eq!(row[0], "io_uring");
    assert_eq!(row[1], "64");
    let row = summary_row(&groups[0], &samples, words(&["1"]));
    assert_eq!(row[0], groups[0].key.queue);
}

#[test]
fn sweeps_and_pinning_are_checked() {
    let args = SweepArgs {
        sq_sizes: "64,128".to_string(),
        batch_modes: "fixed1".to_string(),
        requests: 10,
        repeats: 1,
        cq_multiplier: 2,
        bbq_block_size: 8,
    };
    let (sizes, modes) = validate_args(&args).unwrap();
    assert_eq!(sizes, vec![64, 128]);
    assert_eq!(modes, vec![BatchMode::Fixed1]);
    assert!(check_pinning(0, Some(3)).is_ok());
    assert_eq!(
        check_pinning(1, Some(3)).unwrap_err(),
        "--pin needs at least 4 core(s), but only 3 were discovered"
    );
    assert_eq!(
        check_pinning(1, None).unwrap_err(),
        "failed to enumerate cores"
    );
}

#[test]
fn increments_count() {
    let mut counter = 5;
    assert_eq!(cas_step(&mut counter, 4), Err(5));
    assert_eq!(cas_step(&mut counter, 5), Ok(()));
    assert_eq!(counter, 6);
    assert_eq!(max_step(&mut counter, 6), Ok(()));
    assert!(max_step(&mut counter, 3).is_err());
    atomic_incr_cas(&mut counter);
    atomic_incr_max(&mut counter);
    assert_eq!(counter, 9);
}

#[test]
fn numbers_are_grouped_and_read() {
    assert_eq!(fmt_num(0), "0");
    assert_eq!(fmt_num(1234567), "1,234,567");
    assert_eq!(parse_usize_token("1_000"), Some(1000));
    assert_eq!(parse_usize_token("x"), None);
    assert_eq!(parse_usize_list("1,2", "threads").unwrap(), vec![1, 2]);
    assert!(parse_usize_list("1,x", "threads").is_err());
}

#[test]
fn command_lines_of_the_increment_benchmark_are_read() {
    match parse_once_args(&words(&["--threads", "3", "--count=7"])) {
        OnceLine::Config(cfg) => {
            assert_eq!(cfg.threads, 3);
            assert_eq!(cfg.increments, 7);
        }
        _ => panic!("settings expected"),
    }
    assert!(matches!(parse_once_args(&words(&["-h"])), OnceLine::Help));
    match parse_once_args(&words(&["--threads"])) {
        OnceLine::Refused(message) => assert_eq!(message, "missing value for `--threads`"),
        _ => panic!("a refusal expected"),
    }
    let defaults = sweep_defaults(None, None, None, None).unwrap();
    match parse_sweep_args(&words(&["--help"]), defaults) {
        SweepLine::Help => {}
        _ => panic!("help expected"),
    }
}

#[test]
fn profiles_are_checked() {
    let args = ProfileArgs {
        queue: ProfileQueue::Ubq,
        queue_name: "ubq".to_string(),
        duration_secs: 0,
        batch_size: None,
        items_per_producer: None,
        prewarm_items_per_producer: None,
        has_ubq_label: false,
        has_lubq_backoff: false,
        fastfifo_block_size: None,
        fastfifo_capacity: None,
        lfqueue_segment_size: None,
    };
    assert!(check_profile(&args).is_err());
    let args = ProfileArgs {
        duration_secs: 5,
        ..args
    };
    assert!(check_profile(&args).is_ok());
}

#[test]
fn the_probe_remembers_the_peak() {
    let mut probe = AllocatorProbe::start();
    probe.record_alloc(100, false);
    probe.record_alloc(50, true);
    probe.record_dealloc(100);
    probe.record_realloc(50, 20);
    assert_eq!(probe.alloc_calls, 2);
    assert_eq!(probe.alloc_zeroed_calls, 1);
    assert_eq!(probe.live_bytes_delta, 20);
    assert_eq!(probe.peak_additional_live_bytes, 150);
    probe.finish();
    probe.record_alloc(1000, false);
    assert_eq!(probe.alloc_calls, 2);
}

#[test]
fn a_bounded_queue_takes_batches_up_to_its_limit() {
    let mut queue = BoundedUbq::new(5, 64, 3).unwrap();
    assert_eq!(queue.push_batch(&[7, 8, 9]), 3);
    assert!(!queue.is_full());
    assert_eq!(queue.push_sequential_batch(20, 4), 2);
    assert!(queue.is_full());
    assert_eq!(queue.push_batch(&[1]), 0);
    assert_eq!(queue.pop_batch(4), vec![7, 8, 9, 20]);
    assert_eq!(queue.pop_batch(4), vec![21]);
    assert!(queue.pop_batch(4).is_empty());
}

#[test]
fn the_three_roles_move_every_request_in_order() {
    let (mode, requests) = (BatchMode::Random1To32, 200);
    let mut sq = IoUringQueue::new(16).unwrap();
    let mut cq = IoUringQueue::new(8).unwrap();
    let Roles {
        mut submitter,
        mut kernel,
        mut completer,
    } = Roles::new(mode, 1, 16, requests);
    let mut alone = Groups::new(mode, seed_for(1, 16, mode, 1), requests);
    assert_eq!(alone.ask(), submitter.ask());
    let mut stopped = false;
    for _ in 0..10_000 {
        if let Some(left) = submitter.ask() {
            let count = sq.push_sequential_batch(submitter.total(), left);
            assert_eq!(submitter.advance(count), count == 0);
        }
        match kernel.next() {
            KernelAction::Take(most) => {
                let values = sq.pop_batch(most);
                let none = values.is_empty();
                assert_eq!(kernel.took(values), none);
            }
            KernelAction::Pass(place) => {
                let count = cq.push_batch(&kernel.holds()[place..]);
                assert_eq!(kernel.passed_on(count), count == 0);
            }
            KernelAction::Stop => stopped = true,
        }
        if let Some(left) = completer.groups.ask() {
            let values = cq.pop_batch(left);
            assert_eq!(completer.took(&values), Ok(values.is_empty()));
        }
    }
    assert!(stopped);
    assert_eq!(submitter.total(), requests);
    assert_eq!(completer.groups.total(), requests);
    assert_eq!(completer.groups.ask(), None);
}

#[test]
fn a_completer_refuses_a_wrong_number() {
    let mut completer = Completer {
        groups: Groups::new(BatchMode::Fixed1, 7, 3),
    };
    assert_eq!(completer.groups.ask(), Some(1));
    assert_eq!(
        completer.took(&vec![1]),
        Err("completion order mismatch: expected 0, got 1".to_string())
    );
    assert_eq!(completer.took(&vec![0]), Ok(false));
    assert_eq!(completer.groups.total(), 1);
}
