use ubq::debug::config::{config, log_name_for_thread, sanitize_label, should_log, Config, DebugEnv};
use ubq::debug::logger::{Logger, Rest, ThreadIds};
use ubq::debug::quiet;
use ubq::debug::wheel::{ticks_for, PeriodicTask, TimerWheel};
use ubq::debug::{
    clear_thread_label, elapsed_ns, flush, flush_to_dir, init, log_tagged, maybe_flush,
    prepare_log_dir, register, set_thread_label, shutdown, snapshot, take, thread_id, thread_label,
    write_to_dir, ThreadLog,
};

const MS: u64 = 1_000_000;

fn env() -> DebugEnv {
    DebugEnv {
        sample: None,
        max: None,
        tags: None,
        file: None,
        name: None,
        thread_name: None,
        flush_ms: None,
        buffer_bytes: None,
        ring: None,
        tick_ms: None,
        wheel_slots: None,
    }
}

fn settings() -> Config {
    let mut env = env();
    env.ring = Some("2".to_string());
    env.tick_ms = Some("10".to_string());
    env.flush_ms = Some("50".to_string());
    config(&env)
}

fn say(logger: &mut Logger, cfg: &Config, thread: &mut ThreadLog, message: &str) {
    log_tagged(logger, cfg, thread, "queue", message, 7);
}

#[test]
fn settings_fall_back_to_defaults() {
    let cfg = config(&env());
    assert_eq!(cfg.sample_rate, 1);
    assert_eq!(cfg.max_entries, 0);
    assert!(cfg.tag_filters.is_none());
    assert_eq!(cfg.flush_ms, 200);
    assert_eq!(cfg.buffer_bytes, 65536);
    assert_eq!(cfg.log_name, "ubq.log");

    let mut given = env();
    given.sample = Some("0".to_string());
    given.tags = Some(" push, ,pop".to_string());
    given.file = Some("trace".to_string());
    let cfg = config(&given);
    assert_eq!(cfg.sample_rate, 1);
    assert_eq!(
        cfg.tag_filters,
        Some(vec!["push".to_string(), "pop".to_string()])
    );
    assert_eq!(cfg.log_name, "trace.log");
}

#[test]
fn names_of_logs_are_safe() {
    assert_eq!(sanitize_label("a b/c"), "a_b_c");
    assert_eq!(
        log_name_for_thread(&None, &None, &Some("worker 1".to_string())),
        "worker_1.log"
    );
}

#[test]
fn filters_sampling_and_limits_decide_what_is_kept() {
    let mut cfg = config(&env());
    cfg.tag_filters = Some(vec!["pu".to_string()]);
    let (mut count, mut total) = (0, 0);
    assert!(should_log(&cfg, "push", &mut count, &mut total));
    assert!(!should_log(&cfg, "pop", &mut count, &mut total));

    let mut cfg = config(&env());
    cfg.sample_rate = 3;
    let kept: Vec<bool> = (0..6)
        .map(|_| should_log(&cfg, "x", &mut count, &mut total))
        .collect();
    assert_eq!(kept, vec![false, false, true, false, false, true]);

    let mut cfg = config(&env());
    cfg.max_entries = 1;
    let mut total = 0;
    assert!(should_log(&cfg, "x", &mut count, &mut total));
    assert!(!should_log(&cfg, "x", &mut count, &mut total));
}

#[test]
fn messages_are_written_in_order_and_the_latest_are_kept() {
    let cfg = settings();
    let mut logger = init(&cfg, 0);
    let mut thread = ThreadLog::new(4);
    say(&mut logger, &cfg, &mut thread, "one");
    set_thread_label(&mut thread, "worker");
    say(&mut logger, &cfg, &mut thread, "two");
    say(&mut logger, &cfg, &mut thread, "three");
    assert!(snapshot(&logger).is_empty());
    logger.drain(&cfg);
    let recent = snapshot(&logger);
    assert_eq!(recent.len(), 2);
    assert_eq!(recent[0].message, "two");
    assert_eq!(recent[1].message, "three");

    let (name, text) = flush_to_dir(&mut logger, &thread);
    assert_eq!(name, "ubq-log-4-worker.log");
    assert_eq!(
        text,
        "[7] tid=4 worker queue two\n[7] tid=4 worker queue three\n"
    );
    assert!(take(&mut logger).is_empty());
}

#[test]
fn entries_without_a_label_show_a_dash() {
    let cfg = settings();
    let mut logger = init(&cfg, 0);
    let mut thread = ThreadLog::new(9);
    say(&mut logger, &cfg, &mut thread, "hello");
    logger.drain(&cfg);
    let entries = take(&mut logger);
    let (name, text) = write_to_dir(&entries, &thread);
    assert_eq!(name, "ubq-log-9.log");
    assert_eq!(text, "[7] tid=9 - queue hello\n");
}

#[test]
fn a_flush_that_somebody_waits_for_is_done_at_once() {
    let cfg = settings();
    let mut logger = init(&cfg, 0);
    let mut thread = ThreadLog::new(1);
    say(&mut logger, &cfg, &mut thread, "now");
    logger.drain(&cfg);
    let plan = logger.plan_flush(&cfg, MS);
    assert!(!plan.write && !plan.sync && !plan.pending);

    let target = flush(&mut logger, false).expect("a number");
    assert!(!logger.is_flushed(target));
    let plan = logger.plan_flush(&cfg, MS);
    assert!(plan.write && plan.sync && plan.pending);
    logger.flushed(plan, MS);
    assert!(logger.is_flushed(target));
    assert_eq!(flush(&mut logger, true), None);
}

#[test]
fn a_buffer_is_written_when_it_is_time() {
    let cfg = settings();
    let mut logger = init(&cfg, 0);
    let mut thread = ThreadLog::new(1);
    say(&mut logger, &cfg, &mut thread, "later");
    logger.drain(&cfg);
    let plan = logger.plan_flush(&cfg, 50 * MS);
    assert!(plan.write && plan.sync && !plan.pending);
    logger.flushed(plan, 50 * MS);
    assert!(!logger.plan_flush(&cfg, 500 * MS).write);
}

#[test]
fn a_shutdown_waits_for_what_is_left() {
    let cfg = settings();
    let mut logger = init(&cfg, 0);
    let mut thread = ThreadLog::new(1);
    say(&mut logger, &cfg, &mut thread, "last");
    assert!(shutdown(&mut logger, false));
    say(&mut logger, &cfg, &mut thread, "too late");
    assert!(!logger.finished());
    logger.drain(&cfg);
    assert!(!logger.finished());
    let plan = logger.plan_flush(&cfg, 0);
    logger.flushed(plan, 0);
    assert!(logger.finished());
    assert_eq!(snapshot(&logger).len(), 1);
}

#[test]
fn registered_tasks_come_up_again_and_again_until_they_are_cancelled() {
    let cfg = settings();
    let mut logger = init(&cfg, 0);
    let registration = register(&mut logger, &cfg, 25 * u128::from(MS));
    assert!(logger.tick(&cfg, 29 * MS).is_empty());
    let due = logger.tick(&cfg, 30 * MS);
    assert_eq!(due.len(), 1);
    assert!(logger.is_enabled(due[0].id));
    logger.reschedule(due[0]);
    assert!(logger.tick(&cfg, 59 * MS).is_empty());
    let due = logger.tick(&cfg, 60 * MS);
    assert_eq!(due.len(), 1);
    logger.cancel(registration);
    logger.reschedule(due[0]);
    assert!(logger.tick(&cfg, 500 * MS).is_empty());
}

#[test]
fn the_writer_sleeps_until_the_next_tick_or_flush() {
    let mut cfg = settings();
    cfg.flush_ms = 4;
    let mut logger = init(&cfg, 0);
    let mut thread = ThreadLog::new(1);
    assert_eq!(logger.rest(&cfg, false, 3 * MS), Rest::Sleep(7 * MS));
    assert_eq!(logger.rest(&cfg, true, 3 * MS), Rest::Work);
    say(&mut logger, &cfg, &mut thread, "x");
    assert_eq!(logger.rest(&cfg, false, 3 * MS), Rest::Work);
    logger.drain(&cfg);
    assert_eq!(logger.rest(&cfg, false, 3 * MS), Rest::Sleep(MS));
    assert_eq!(logger.rest(&cfg, false, 10 * MS), Rest::Yield);
}

#[test]
fn flushes_in_passing_keep_their_distance() {
    let cfg = settings();
    let mut logger = init(&cfg, 0);
    let mut thread = ThreadLog::new(1);
    assert!(maybe_flush(&mut logger, &cfg, &mut thread, 5));
    assert!(!maybe_flush(&mut logger, &cfg, &mut thread, 6));
    assert!(maybe_flush(&mut logger, &cfg, &mut thread, 5 + 50 * MS));
}

#[test]
fn threads_know_themselves() {
    let mut thread = ThreadLog::new(3);
    assert_eq!(thread_id(&thread), 3);
    assert_eq!(thread_label(&thread), None);
    set_thread_label(&mut thread, "a");
    assert_eq!(thread_label(&thread), Some("a".to_string()));
    clear_thread_label(&mut thread);
    assert_eq!(thread_label(&thread), None);
    assert_eq!(elapsed_ns(5, 12), 7);
    assert_eq!(elapsed_ns(12, 5), 0);
}

#[test]
fn files_of_earlier_runs_are_stale() {
    let names = vec![
        "ubq-log-3.log".to_string(),
        "stdout.log".to_string(),
        "mine.log".to_string(),
        "notes.txt".to_string(),
    ];
    assert_eq!(
        prepare_log_dir(&names, "mine.log"),
        vec![true, true, true, false]
    );
}

#[test]
fn a_task_beyond_one_turn_waits_its_rounds() {
    let mut wheel = TimerWheel::new(4);
    wheel.insert(PeriodicTask { ticks: 9, rounds: 0, id: 1 });
    for _ in 0..8 {
        assert!(wheel.advance().is_empty());
    }
    assert_eq!(wheel.advance().len(), 1);
    assert_eq!(ticks_for(0, 10), 1);
    assert_eq!(ticks_for(10 * u128::from(MS), 10), 1);
    assert_eq!(ticks_for(10 * u128::from(MS) + 1, 10), 2);
}

#[test]
fn threads_are_numbered_from_one() {
    let mut ids = ThreadIds::new();
    let numbers: Vec<u64> = (0..3).map(|_| thread_id(&ids.enter())).collect();
    assert_eq!(numbers, vec![1, 2, 3]);
}

#[test]
fn a_task_comes_up_once_after_its_ticks() {
    for slots in [2, 3, 5] {
        for turned in 0..4 {
            for ticks in 0..12 {
                let mut wheel = TimerWheel::new(slots);
                for _ in 0..turned {
                    wheel.advance();
                }
                wheel.insert(PeriodicTask {
                    ticks,
                    rounds: 0,
                    id: 9,
                });
                for k in 1..30 {
                    let due = wheel.advance();
                    assert_eq!(due.len(), usize::from(k == ticks.max(1)));
                    assert!(due.iter().all(|task| task.id == 9 && task.rounds == 0));
                }
            }
        }
    }
}

#[test]
fn a_quiet_log_keeps_nothing() {
    assert!(quiet::take().is_empty());
    assert!(quiet::snapshot().is_empty());
    assert_eq!(quiet::thread_id(), 0);
    assert_eq!(quiet::thread_label(), None);
    assert_eq!(quiet::elapsed_ns(), 0);
    assert_eq!(quiet::flush_to_dir(), "");
}
