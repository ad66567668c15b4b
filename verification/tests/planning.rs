use ubq::bench::incr::SweepConfig;
use ubq::bench::increments::{
    atomic_incr_methods, case_text, method_line, once_text, pick_command, run_increments,
    sweep_case, sweep_heading, sweep_row, total_increments, IncrCommand, IncrMethod, SweepCase,
};
use ubq::bench::profile::{announce, ProfileArgs, ProfileQueue};
use ubq::bench::sweep::out_dir_name;
use ubq::bench::trial::result_file;
use ubq::block::header::HeaderControl;
use ubq::block::wrapped_u64::WrappedU64;
use ubq::cursor::Cursor;
use ubq::tooling::complete::{bench_result, Progress};
use ubq::tooling::discovery::{check_manifest, dependency_dir};
use ubq::tooling::plans::{
    available_parallelism, check_frontier, check_run, check_runnable, grid_report,
    items_by_scenario, items_text, split_scenarios, wide_message, Bundle, GridReport, PlanQueue,
    PlanScenario, PlanTool,
};
use ubq::bench::uring::BoundedUbq;
use ubq::jni::JniQueue;
use ubq::kfifo::lubq::channel;
use ubq::kfifo::queue::SPMC;
use ubq::page::is_page_size;
use ubq::queue::UBQ;
use ubq::tooling::rounds::{ScenarioRoundPlan, Search, Verdict};

fn scenario(name: &str, threads: usize) -> PlanScenario {
    PlanScenario { name: name.to_string(), threads }
}

fn bundle(scenario: &str, items: &[u64]) -> Bundle {
    Bundle { scenario: scenario.to_string(), items: items.to_vec() }
}

fn words(list: &[&str]) -> Vec<String> {
    list.iter().map(|word| word.to_string()).collect()
}

#[test]
fn parallelism_prefers_the_request() {
    assert_eq!(available_parallelism(Some(3), Some(5), Err("no".to_string())), Ok(3));
    assert_eq!(available_parallelism(None, Some(5), Ok(8)), Ok(5));
    assert_eq!(available_parallelism(None, None, Ok(8)), Ok(8));
    assert_eq!(
        available_parallelism(None, Some(5), Err("no".to_string())),
        Err("no".to_string())
    );
}

#[test]
fn scenarios_are_split_by_thread_count() {
    let all = vec![scenario("1p1c", 2), scenario("8p8c", 16), scenario("2p2c", 4)];
    let split = split_scenarios(&all, 4);
    let names: Vec<&str> = split.runnable.iter().map(|s| s.name.as_str()).collect();
    assert_eq!(names, vec!["1p1c", "2p2c"]);
    assert_eq!(split.skipped, vec!["8p8c".to_string()]);
    assert!(check_runnable(&split).is_ok());
    assert_eq!(
        wide_message(&all[1], 4),
        "scenario 8p8c requires 16 threads but available_parallelism is 4"
    );
    let none = split_scenarios(&all, 1);
    assert_eq!(none.skipped.len(), 3);
    assert_eq!(
        check_runnable(&none),
        Err("no runnable scenarios remain for this machine".to_string())
    );
}

#[test]
fn frontier_names_its_baselines() {
    let queue = |name: &str, ubq: bool, baseline: bool| PlanQueue {
        name: name.to_string(),
        ubq,
        baseline,
    };
    let queues = vec![queue("ubq", true, false), queue("segqueue", false, true)];
    let seeds = words(&["balanced,1,31,crossbeam"]);
    assert_eq!(check_frontier(true, &seeds, &queues), Ok(words(&["segqueue"])));
    assert_eq!(
        check_frontier(false, &seeds, &queues),
        Err("--machine-label is required".to_string())
    );
    assert_eq!(
        check_frontier(true, &Vec::new(), &queues),
        Err("at least one --seed-label is required".to_string())
    );
    assert_eq!(
        check_frontier(true, &seeds, &queues[1..].to_vec()),
        Err("frontier search requires ubq in --queues".to_string())
    );
    assert_eq!(
        check_frontier(true, &seeds, &queues[..1].to_vec()),
        Err("frontier search requires at least one baseline queue".to_string())
    );
}

#[test]
fn items_are_gathered_by_scenario() {
    let bundles = vec![
        bundle("4p4c", &[100, 10]),
        bundle("1p1c", &[7]),
        bundle("4p4c", &[10, 50]),
        bundle("2p2c", &[]),
    ];
    let list = items_by_scenario(&bundles);
    assert_eq!(items_text(&list), "1p1c=7, 2p2c=, 4p4c=10/50/100");
}

#[test]
fn grid_report_lists_its_plan() {
    let mut report = GridReport {
        machine_label: "local".to_string(),
        runs_dir: "bench_results".to_string(),
        available: 8,
        core_placement: "compact".to_string(),
        item_policy: "explicit".to_string(),
        items: vec![bundle("1p1c", &[7, 9])],
        includes_ubq: true,
        variants: 12,
        batch_sizes: vec![8, 32],
        rerun: false,
        skipped: Vec::new(),
    };
    assert_eq!(
        grid_report(&report),
        words(&[
            "machine: local",
            "runs dir: bench_results",
            "available parallelism: 8",
            "core placement: compact",
            "item policy: explicit",
            "items per producer by scenario: 1p1c=7/9",
            "static UBQ variants: page-derived (12 backoff configurations before constraints)",
            "throughput variants per UBQ configuration: 3 (scalar-compatible + 2 batch sizes)",
            "queue batch sizes (UBQ/LUBQ/SegQueue): 8,32",
            "existing data: reused",
        ])
    );
    report.includes_ubq = false;
    report.rerun = true;
    report.skipped = words(&["8p8c", "9p9c"]);
    let lines = grid_report(&report);
    assert_eq!(lines.len(), 9);
    assert_eq!(lines[7], "existing data: ignored (--rerun)");
    assert_eq!(lines[8], "skipping scenarios above available_parallelism: 8p8c, 9p9c");
}

#[test]
fn failed_runs_are_explained() {
    assert_eq!(check_run(PlanTool::Grid, None, true), Ok(()));
    assert_eq!(
        check_run(PlanTool::Grid, Some(("ubq", "1p1c")), true),
        Err("scheduler crashed while running (ubq, scenario=1p1c)".to_string())
    );
    assert_eq!(
        check_run(PlanTool::Grid, None, false),
        Err("scheduler failed; check stderr for details".to_string())
    );
    assert_eq!(
        check_run(PlanTool::Matrix, Some(("ubq", "1p1c")), false),
        Err("bench_matrix: scheduler crashed while running (ubq, scenario=1p1c)".to_string())
    );
    assert_eq!(
        check_run(PlanTool::Matrix, None, false),
        Err("bench_matrix: scheduler crashed; check stderr for details".to_string())
    );
}

#[test]
fn increment_reports_read_as_expected() {
    let names: Vec<&str> = atomic_incr_methods().iter().map(|method| method.name()).collect();
    assert_eq!(names, vec!["CAS", "CASB", "FAA", "MAX", "MAXB"]);
    for method in atomic_incr_methods() {
        assert_eq!(run_increments(method, 1000), 1000);
    }
    assert_eq!(total_increments(4, 250), Some(1000));
    assert_eq!(total_increments(usize::MAX, 2), None);
    assert_eq!(
        once_text(4, 1_000_000, 4_000_000),
        "How fast can 4 threads each increment the same counter 1,000,000 times, for a total of 4,000,000?"
    );
    assert_eq!(method_line(IncrMethod::Cas, "1ms"), "For  CAS: 1ms");
    assert_eq!(method_line(IncrMethod::Maxb, "1ms"), "For MAXB: 1ms");
}

#[test]
fn commands_are_picked_by_the_first_argument() {
    assert_eq!(pick_command(&Vec::new()), IncrCommand::Once(0));
    assert_eq!(pick_command(&words(&["help", "sweep"])), IncrCommand::Help);
    assert_eq!(pick_command(&words(&["once", "--threads"])), IncrCommand::Once(1));
    assert_eq!(pick_command(&words(&["sweep"])), IncrCommand::Sweep(1));
    assert_eq!(pick_command(&words(&["--threads", "3"])), IncrCommand::Once(0));
}

#[test]
fn sweep_cases_vary_the_repeat_fastest() {
    let cfg = SweepConfig {
        thread_counts: vec![1, 2],
        increments: vec![10, 20, 30],
        repeats: 2,
        out_path: "out.csv".to_string(),
    };
    let case = |threads: usize, increments: usize, repeat: usize| SweepCase {
        threads,
        increments,
        repeat,
    };
    assert_eq!(sweep_case(&cfg, 0), Some(case(1, 10, 1)));
    assert_eq!(sweep_case(&cfg, 1), Some(case(1, 10, 2)));
    assert_eq!(sweep_case(&cfg, 2), Some(case(1, 20, 1)));
    assert_eq!(sweep_case(&cfg, 11), Some(case(2, 30, 2)));
    assert_eq!(sweep_case(&cfg, 12), None);
    assert_eq!(
        case_text(case(2, 3000, 1), 7, 12, 6000),
        "[7/12] threads=2, increments_per_thread=3,000, total=6,000"
    );
    assert_eq!(
        sweep_row(IncrMethod::Faa, case(2, 30, 2), 60, 1500000, "1.5"),
        "FAA,2,30,60,2,1500000,1.5"
    );
    assert_eq!(sweep_heading().split(',').count(), 7);
}

#[test]
fn profile_runs_are_announced() {
    let mut args = ProfileArgs {
        queue: ProfileQueue::Ubq,
        queue_name: "ubq".to_string(),
        duration_secs: 30,
        batch_size: None,
        items_per_producer: None,
        prewarm_items_per_producer: None,
        has_ubq_label: false,
        has_lubq_backoff: false,
        fastfifo_block_size: None,
        fastfifo_capacity: None,
        lfqueue_segment_size: None,
    };
    assert_eq!(
        announce(&args, "1p1c", 2),
        "profiling queue=ubq scenario=1p1c batch=scalar warmup=2s duration=30s fixed_items=calibrated"
    );
    args.batch_size = Some(8);
    args.items_per_producer = Some(100);
    assert_eq!(
        announce(&args, "1p1c", 0),
        "profiling queue=ubq scenario=1p1c batch=8 warmup=0s duration=30s fixed_items=100"
    );
}

#[test]
fn progress_is_due_every_half_minute() {
    let mut progress = Progress::new();
    assert!(!progress.due(29));
    assert!(progress.due(30));
    assert!(!progress.due(59));
    assert!(progress.due(75));
    assert_eq!(progress.next_secs, 90);
    assert_eq!(bench_result(Some(0), "a.log"), Ok(()));
    assert_eq!(
        bench_result(Some(3), "a.log"),
        Err("bench command failed with exit code 3 (log: a.log)".to_string())
    );
    assert_eq!(
        bench_result(None, "a.log"),
        Err("bench command failed with exit code 1 (log: a.log)".to_string())
    );
}

#[test]
fn result_names_are_built_from_their_parts() {
    assert_eq!(result_file("head-reload", 17, 4), "head-reload-17-4.json");
    assert_eq!(out_dir_name(12, "my.host_1"), "12-my-host_1");
}

#[test]
fn dependency_directories_are_resolved() {
    let file = words(&["home", "dep", "lib.rs"]);
    assert_eq!(dependency_dir("../dep", &file, true), Ok(words(&["home", "dep"])));
    assert_eq!(dependency_dir("../dep", &file, false), Ok(file.clone()));
    assert_eq!(
        dependency_dir("x", &Vec::new(), true),
        Err("local cargo path dependency 'x' resolved to file without parent: /".to_string())
    );
    let dir = words(&["home", "dep"]);
    assert_eq!(check_manifest("../dep", &dir, true), Ok(()));
    assert_eq!(
        check_manifest("../dep", &dir, false),
        Err("local cargo path dependency '../dep' resolved to /home/dep but \
             /home/dep/Cargo.toml is missing"
            .to_string())
    );
}

#[test]
fn words_and_cursors_are_shown() {
    let cursor = Cursor::<4>::for_version(3).incr_off().incr_off();
    assert_eq!(cursor.text(), "3:2");
    let word = WrappedU64::new(4, 5, 6).unwrap();
    assert_eq!(word.text(), "4(15):5:6");
    assert_eq!(word.get_components().text(), "4(15):5:6");
    let mut control = HeaderControl::for_capacity(10);
    let _ = control.take.fetch_add(3);
    let _ = control.give.fetch_add(1);
    assert_eq!(control.debug(), "4(15)|0:3/1 (t/g)");
    let _ = control.take.fetch_add(16);
    assert_eq!(control.debug(), "4(15)|1:3/0:1 (t/g)");
}

#[test]
fn rooms_are_told() {
    assert!(is_page_size(4096));
    assert!(!is_page_size(0));
    assert!(!is_page_size(4095));
    let mut queue: UBQ<u8> = UBQ::new(4096, 31);
    assert!(queue.has_room_for(1000));
    assert!(!queue.has_room_for(usize::MAX - 1));
    queue.push(1);
    assert!(queue.has_room_for(1));
    let shards: SPMC<u8> = SPMC::new(4096, 31);
    assert!(shards.has_room_for(1000));
    assert!(!shards.has_room_for(usize::MAX));
    let (core, sender, _receiver) = channel::<u8>(4096, 31);
    assert!(core.has_room_for(sender.shard(), 1000));
    assert!(JniQueue::new(4096, 1).unwrap().has_room_for(1000));
    assert!(BoundedUbq::new(3, 4096, 31).unwrap().has_room());
}

#[test]
fn a_search_stops_scenarios_that_have_nothing_to_measure() {
    let plan = |complete: bool, labels: &[&str], key: Option<&str>| ScenarioRoundPlan {
        complete,
        plan_labels: words(labels),
        unresolved_no_seed: false,
        missing_key: key.map(|key| key.to_string()),
    };
    let mut search = Search::new(words(&["1p1c", "2p2c", "4p4c"]));
    assert_eq!(search.going_on(), vec![0, 1, 2]);
    let round = search.run_round(&vec![
        plan(true, &[], None),
        plan(false, &["a"], Some("k")),
        plan(false, &[], None),
    ]);
    assert_eq!(round.planned, vec![1]);
    assert_eq!(
        round.verdicts,
        vec![Some(Verdict::Complete), Some(Verdict::Bench), Some(Verdict::NoLabels)]
    );
    assert_eq!(search.going_on(), vec![1]);
    let round = search.run_round(&vec![
        plan(false, &["b"], Some("x")),
        plan(false, &["a"], Some("k")),
        plan(false, &[], None),
    ]);
    assert_eq!(round.planned, Vec::<usize>::new());
    assert_eq!(round.verdicts, vec![None, Some(Verdict::NoProgress), None]);
    assert_eq!(search.going_on(), Vec::<usize>::new());
    assert_eq!(search.states[1].rounds_run, 1);
    assert_eq!(search.states[2].reason.as_deref(), Some("no-labels"));
}
