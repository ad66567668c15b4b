use ubq::tooling::fleet::{
    find_missing_machine_labels, join_remote_path, machine_labels, normalize_machine_list,
    remote_cd_expr,
};
use ubq::tooling::rounds::{
    evaluate_scenario_round, filter_scenarios_for_host, gather, has_no_progress,
    incomplete_scenarios, search_result, GroupedScenario, ScenarioState, Verdict,
};
use ubq::tooling::runfile::{read_run, samples_of};
use ubq::tooling::runs::{format_missing_key, group_samples, sample_key, RunMeta, RunRecord};
use ubq::tooling::scenarios::parse_scenarios;
use ubq::tooling::search::{
    bench_label_sort_key, format_cmd, normalize_machine, normalize_scenario, normalize_ubq_label,
    parse_csv_list, parse_scenario_threads, parse_ubq_label, scenario_sort_key, shell_quote,
    total_valid_ubq_label_count,
};
use ubq::tooling::shorthand::{spell_out, spell_out_entries};
use ubq::tooling::winners::{
    has_complete_immediate_winner_variants, immediate_neighbors,
    strict_immediate_winner_ubq_labels, Entries, Stats,
};

/// Means are ordered like the bits of their floating-point form.
fn stats(mean: f64) -> Stats {
    Stats {
        mean_ops_per_sec: mean.to_bits(),
    }
}

fn entries_of(list: &[(&str, f64)]) -> Entries {
    let mut entries = Entries::new();
    for (label, mean) in list {
        entries.insert(label.to_string(), stats(*mean));
    }
    entries
}

fn holds(list: &[String], label: &str) -> bool {
    list.iter().any(|item| item == label)
}

#[test]
fn ubq_label_parse_and_normalize() {
    let parsed = parse_ubq_label("pool_conservative,8,2047,yield", true).expect("parse");
    assert_eq!(parsed.preset, "pool_conservative");
    assert_eq!(parsed.pool, 8);
    assert_eq!(parsed.block, 2047);
    assert_eq!(parsed.backoff, "yield");
    assert_eq!(parsed.text(), "pool_conservative,8,2047,yield");
    assert_eq!(parsed.safe(), "pool_conservative_8_2047_yield");
    assert!(normalize_ubq_label("no_pool,0,1023,crossbeam", true).is_some());
    assert!(normalize_ubq_label("no_pool,8,1023,crossbeam", true).is_none());
}

#[test]
fn immediate_neighbors_cover_v6_and_pooled_variants() {
    let entries = entries_of(&[
        ("ubq_pool_conservative,1,1023,crossbeam", 120.0),
        ("ubq_balanced,1,1023,crossbeam", 80.0),
        ("ubq_no_pool,0,1023,crossbeam", 60.0),
    ]);
    let (winner, required) = strict_immediate_winner_ubq_labels(&entries).expect("winner");
    assert_eq!(winner, "ubq_pool_conservative,1,1023,crossbeam");
    assert!(holds(&required, "ubq_no_pool,0,1023,crossbeam"));
    assert!(holds(&required, "ubq_balanced,1,1023,crossbeam"));
    assert!(holds(&required, "ubq_aggressive_prepare,1,1023,crossbeam"));
    assert!(holds(&required, "ubq_consumer_pool_only,1,1023,crossbeam"));
}

#[test]
fn pooled_winner_requires_v6_at_same_block_for_any_pool() {
    let entries = entries_of(&[
        ("ubq_consumer_pool_only,16,511,crossbeam", 200.0),
        ("ubq_pool_conservative,16,511,crossbeam", 150.0),
    ]);
    let (_winner, required) = strict_immediate_winner_ubq_labels(&entries).expect("winner");
    assert!(holds(&required, "ubq_no_pool,0,511,crossbeam"));
}

#[test]
fn complete_variants_detection() {
    let entries = entries_of(&[
        ("ubq_balanced,1,1023,crossbeam", 120.0),
        ("ubq_aggressive_prepare,1,1023,crossbeam", 110.0),
        ("ubq_pool_conservative,1,1023,crossbeam", 100.0),
        ("ubq_consumer_pool_only,1,1023,crossbeam", 90.0),
        ("ubq_no_pool,0,1023,crossbeam", 95.0),
        ("ubq_balanced,2,1023,crossbeam", 80.0),
        ("ubq_balanced,1,511,crossbeam", 70.0),
        ("ubq_balanced,1,2047,crossbeam", 60.0),
        ("ubq_balanced,1,1023,yield", 50.0),
    ]);
    assert!(has_complete_immediate_winner_variants(&entries));
}

#[test]
fn command_helper_generation() {
    assert_eq!(shell_quote("a'b"), "'a'\\''b'");
}

#[test]
fn ubq_label_domain_size_is_finite_and_expected() {
    assert_eq!(total_valid_ubq_label_count(), 464);
}

#[test]
fn scenario_round_missing_seed() {
    let grouped: Vec<GroupedScenario> = Vec::new();
    let plan = evaluate_scenario_round("local", "1p1c", "throughput", &grouped, None);
    assert!(!plan.complete);
    assert!(plan.plan_labels.is_empty());
    assert!(plan.unresolved_no_seed);
}

#[test]
fn scenario_round_uses_seed_when_no_winner() {
    let grouped: Vec<GroupedScenario> = Vec::new();
    let plan =
        evaluate_scenario_round("local", "1p1c", "throughput", &grouped, Some("v4,8,127"));
    assert!(!plan.complete);
    assert_eq!(plan.plan_labels, vec!["v4,8,127".to_string()]);
}

#[test]
fn detects_no_progress_from_missing_key() {
    assert!(has_no_progress(
        Some("ubq_v4,8,127|v4,4,127"),
        Some("ubq_v4,8,127|v4,4,127")
    ));
    assert!(!has_no_progress(
        Some("ubq_v4,8,127|v4,4,127"),
        Some("ubq_v4,8,127|v4,16,127")
    ));
    assert!(!has_no_progress(None, Some("x")));
    assert!(!has_no_progress(Some("x"), None));
}

#[test]
fn filters_scenarios_above_available_parallelism() {
    let scenarios = vec![
        "1p1c".to_string(),
        "8p8c".to_string(),
        "16p16c".to_string(),
        "64p64c".to_string(),
    ];
    let (runnable, skipped) = filter_scenarios_for_host(&scenarios, 16);
    assert_eq!(runnable, vec!["1p1c".to_string(), "8p8c".to_string()]);
    assert_eq!(skipped, vec!["16p16c".to_string(), "64p64c".to_string()]);
}

#[test]
fn a_round_with_all_neighbors_is_complete_and_one_without_plans_the_rest() {
    let full = entries_of(&[
        ("ubq_balanced,1,1023,crossbeam", 120.0),
        ("ubq_aggressive_prepare,1,1023,crossbeam", 110.0),
        ("ubq_pool_conservative,1,1023,crossbeam", 100.0),
        ("ubq_consumer_pool_only,1,1023,crossbeam", 90.0),
        ("ubq_no_pool,0,1023,crossbeam", 95.0),
        ("ubq_balanced,2,1023,crossbeam", 80.0),
        ("ubq_balanced,1,511,crossbeam", 70.0),
        ("ubq_balanced,1,2047,crossbeam", 60.0),
        ("ubq_balanced,1,1023,yield", 50.0),
    ]);
    let grouped = vec![GroupedScenario {
        machine: "local".to_string(),
        mode: "throughput".to_string(),
        scenario: "1p1c".to_string(),
        entries: full,
    }];
    let plan = evaluate_scenario_round("local", "1p1c", "throughput", &grouped, None);
    assert!(plan.complete);
    assert!(plan.plan_labels.is_empty());

    let part = entries_of(&[
        ("ubq_balanced,1,1023,crossbeam", 120.0),
        ("ubq_balanced,2,1023,crossbeam", 80.0),
    ]);
    let grouped = vec![GroupedScenario {
        machine: "local".to_string(),
        mode: "throughput".to_string(),
        scenario: "1p1c".to_string(),
        entries: part,
    }];
    let plan = evaluate_scenario_round("local", "1p1c", "throughput", &grouped, None);
    assert!(!plan.complete);
    assert!(holds(&plan.plan_labels, "no_pool,0,1023,crossbeam"));
    assert!(!holds(&plan.plan_labels, "balanced,2,1023,crossbeam"));

    let mut state = ScenarioState::new();
    assert!(!matches!(state.decide(&plan), Verdict::NoProgress));
    assert!(matches!(state.decide(&plan), Verdict::NoProgress));
    assert_eq!(
        incomplete_scenarios(&vec!["1p1c".to_string()], &vec![state]),
        vec!["1p1c".to_string()]
    );
    assert!(search_result(1, false).is_err());
    assert!(search_result(1, true).is_ok());
}

#[test]
fn the_neighbors_of_a_label_differ_in_one_place() {
    let label = parse_ubq_label("balanced,1,1023,crossbeam", true).unwrap();
    let first = immediate_neighbors(&label, 0);
    assert!(!first.is_empty());
}

#[test]
fn labels_that_do_not_read_as_labels_are_refused() {
    assert!(parse_ubq_label("v4,8,127", true).is_err());
    assert!(parse_ubq_label("balanced,8,127,crossbeam,x", true).is_err());
    assert!(parse_ubq_label("balanced,x,127,crossbeam", true).is_err());
    assert!(parse_ubq_label("unheard_of,8,127,crossbeam", true).is_err());
}

#[test]
fn labels_are_sorted_by_preset_pool_and_block() {
    let small = bench_label_sort_key("balanced,1,127,crossbeam");
    let large = bench_label_sort_key("balanced,1,1023,crossbeam");
    assert!(small < large);
}

#[test]
fn scenarios_are_read_folded_and_sorted_by_threads() {
    assert_eq!(normalize_scenario("  1P1C "), "1p1c");
    assert_eq!(parse_scenario_threads("8p4c"), Some((8, 4)));
    assert_eq!(parse_scenario_threads("8x4"), None);
    assert!(scenario_sort_key("2p2c") < scenario_sort_key("16p16c"));
    assert_eq!(
        parse_csv_list(" a, b ,,c"),
        vec!["a".to_string(), "b".to_string(), "c".to_string()]
    );
    assert_eq!(
        parse_scenarios(Some("8p8c,1p1c,8p8c")),
        vec!["1p1c".to_string(), "8p8c".to_string()]
    );
}

#[test]
fn machines_are_folded_listed_once_and_compared() {
    assert_eq!(normalize_machine(" Lab "), "lab");
    assert_eq!(
        normalize_machine_list("local, LAB,local"),
        vec!["local".to_string(), "lab".to_string()]
    );
    assert_eq!(
        find_missing_machine_labels(
            &["lab".to_string(), "local".to_string()],
            &["local".to_string()]
        ),
        vec!["lab".to_string()]
    );
    assert_eq!(
        machine_labels(&vec![
            Some("local".to_string()),
            None,
            Some("lab".to_string()),
            Some("local".to_string()),
        ]),
        vec!["lab".to_string(), "local".to_string()]
    );
}

#[test]
fn remote_paths_are_joined_and_quoted() {
    assert_eq!(join_remote_path("~/UBQ/", "runs"), "~/UBQ/runs");
    assert_eq!(remote_cd_expr("~/UBQ"), "\"$HOME/UBQ\"");
    assert_eq!(
        format_cmd(&["echo".to_string(), "a b".to_string()]),
        "'echo' 'a b'"
    );
}

#[test]
fn samples_are_filed_by_machine_mode_and_scenario() {
    let meta = RunMeta {
        machine_label: Some("local".to_string()),
        ubq_label: Some("balanced,8,127,crossbeam".to_string()),
    };
    let ubq = RunRecord {
        skipped_reason: None,
        ops_per_sec: Some(100.0_f64.to_bits()),
        queue: Some("ubq".to_string()),
        scenario: Some("1p1c".to_string()),
        mode: Some("throughput".to_string()),
    };
    let seg = RunRecord {
        skipped_reason: None,
        ops_per_sec: Some(100.0_f64.to_bits()),
        queue: Some("segqueue".to_string()),
        scenario: Some("1p1c".to_string()),
        mode: Some("throughput".to_string()),
    };
    let without = RunRecord {
        skipped_reason: None,
        ops_per_sec: None,
        queue: Some("segqueue".to_string()),
        scenario: Some("1p1c".to_string()),
        mode: Some("throughput".to_string()),
    };
    let keys = vec![
        sample_key(&meta, &ubq),
        sample_key(&meta, &seg),
        sample_key(&meta, &without),
    ];
    assert_eq!(
        keys[0].as_ref().unwrap().label,
        "ubq_balanced,8,127,crossbeam"
    );
    assert_eq!(keys[1].as_ref().unwrap().label, "segqueue");
    assert!(keys[2].is_none());
    assert_eq!(group_samples(&keys).len(), 2);
}

#[test]
fn missing_labels_make_a_key() {
    assert_eq!(
        format_missing_key("ubq_v4,8,127", &vec!["v4,4,127".to_string()]),
        "ubq_v4,8,127|v4,4,127"
    );
}

#[test]
fn scenario_round_complete() {
    let entries = entries_of(&[
        ("ubq_v4,1,1023", 120.0),
        ("ubq_v3,1,1023", 110.0),
        ("ubq_v5,1,1023", 109.0),
        ("ubq_v7,1,1023", 108.0),
        ("ubq_v6,0,1023", 107.0),
        ("ubq_v4,2,1023", 106.0),
        ("ubq_v4,1,511", 105.0),
        ("ubq_v4,1,2047", 104.0),
        ("ubq_v4,1,1023,b", 103.0),
    ]);
    let grouped = vec![GroupedScenario {
        machine: "local".to_string(),
        mode: "throughput".to_string(),
        scenario: "1p1c".to_string(),
        entries,
    }];
    let plan =
        evaluate_scenario_round("local", "1p1c", "throughput", &grouped, Some("v4,8,127"));
    assert!(plan.complete);
    assert!(plan.plan_labels.is_empty());
}

#[test]
fn short_labels_are_spelled_out() {
    assert_eq!(spell_out("ubq_v6,0,1023,b"), "ubq_no_pool,0,1023,yield");
    assert_eq!(spell_out("ubq_v4,8,127"), "ubq_balanced,8,127,crossbeam");
    assert_eq!(spell_out("ubq_v8,8,127"), "ubq_v8,8,127");
    assert_eq!(spell_out("ubq_v4,8,127,c"), "ubq_v4,8,127,c");
    assert_eq!(spell_out("segqueue"), "segqueue");

    let spelled = spell_out_entries(&entries_of(&[
        ("ubq_balanced,8,127,crossbeam", 5.0),
        ("ubq_v4,8,127", 7.0),
    ]));
    assert_eq!(spelled.len(), 1);
    assert_eq!(spelled.at(0).0, "ubq_balanced,8,127,crossbeam");
}

const RUN: &str = r#"{
    "meta": { "ubq_label": "balanced,8,127,crossbeam", "machine_label": "local" },
    "results": [
        {"queue":"ubq","scenario":"1p1c","mode":"throughput","ops_per_sec":100.0},
        {"queue":"segqueue","scenario":"1p1c","mode":"throughput","ops_per_sec":90},
        {"queue":"segqueue","scenario":"1p1c","ops_per_sec":80.0,"skipped_reason":"slow"},
        {"queue":"segqueue","scenario":"1p1c","ops_per_sec":null},
        7
    ]
}"#;

#[test]
fn a_run_file_is_read_and_its_results_are_filed() {
    let (meta, records) = read_run(RUN).expect("json");
    assert_eq!(meta.machine_label.as_deref(), Some("local"));
    assert_eq!(meta.ubq_label.as_deref(), Some("balanced,8,127,crossbeam"));
    assert_eq!(records.len(), 5);
    assert_eq!(records[0].ops_per_sec, Some(100.0_f64.to_bits()));
    assert_eq!(records[1].ops_per_sec, Some(90.0_f64.to_bits()));
    assert_eq!(records[2].skipped_reason.as_deref(), Some("slow"));
    assert_eq!(records[3].ops_per_sec, None);
    assert!(records[4].queue.is_none());
    assert!(read_run("{").is_none());
    let (empty, none) = read_run("[]").expect("json");
    assert!(empty.machine_label.is_none());
    assert!(none.is_empty());

    let samples = samples_of(&vec![(meta, records)]);
    assert_eq!(samples.keys.len(), 5);
    let groups = group_samples(&samples.keys);
    assert_eq!(groups.len(), 2);
    let grouped = gather(&groups, &vec![90, 100]);
    assert_eq!(grouped.len(), 1);
    assert_eq!(grouped[0].machine, "local");
    assert_eq!(grouped[0].mode, "throughput");
    assert_eq!(grouped[0].scenario, "1p1c");
    assert!(grouped[0].entries.contains_key("ubq_balanced,8,127,crossbeam"));
    assert!(grouped[0].entries.contains_key("segqueue"));
    assert_eq!(grouped[0].entries.at(0).1.mean_ops_per_sec, 90);
}

#[test]
fn a_short_label_does_not_replace_a_full_one() {
    let entries = entries_of(&[
        ("ubq_balanced,1,1023,crossbeam", 120.0),
        ("ubq_no_pool,0,31,yield", 100.0),
        ("ubq_v4,1,1023", 1.0),
    ]);
    let spelled = spell_out_entries(&entries);
    assert_eq!(spelled.len(), 2);
    assert_eq!(spelled.at(0).1, stats(120.0));
    let grouped = vec![GroupedScenario {
        machine: "local".to_string(),
        mode: "throughput".to_string(),
        scenario: "1p1c".to_string(),
        entries,
    }];
    let plan = evaluate_scenario_round("local", "1p1c", "throughput", &grouped, None);
    assert!(!plan.complete);
    assert!(plan
        .missing_key
        .expect("key")
        .starts_with("ubq_balanced,1,1023,crossbeam|"));
}

#[test]
fn command_lines_tell_words_apart() {
    let line = |words: &[&str]| {
        let words: Vec<String> = words.iter().map(|word| word.to_string()).collect();
        format_cmd(&words)
    };
    assert_eq!(line(&[]), "");
    assert_eq!(line(&["it's"]), shell_quote("it's"));
    assert_eq!(line(&["a", "", "b c"]), "'a' '' 'b c'");
    assert_ne!(line(&["a b"]), line(&["a", "b"]));
    assert_ne!(line(&[""]), line(&[]));
}

#[test]
fn aggregate_runs_layout_machine_first() {
    let payload = r#"{
        "meta": {
            "ubq_label": "balanced,8,127,crossbeam",
            "machine_label": "local"
        },
        "results": [
            {"queue":"ubq","scenario":"1p1c","mode":"throughput","ops_per_sec":100.0},
            {"queue":"segqueue","scenario":"1p1c","mode":"throughput","ops_per_sec":90.0}
        ]
    }"#;
    let samples = samples_of(&vec![read_run(payload).expect("json")]);
    let groups = group_samples(&samples.keys);
    let means = groups
        .iter()
        .map(|group| samples.ops[group.members[0]].expect("number"))
        .collect();
    let grouped = gather(&groups, &means);
    let entries = &grouped
        .iter()
        .find(|group| {
            group.machine == "local" && group.mode == "throughput" && group.scenario == "1p1c"
        })
        .expect("entries")
        .entries;
    assert!(entries.contains_key("ubq_balanced,8,127,crossbeam"));
    assert!(entries.contains_key("segqueue"));
}

#[test]
fn collect_machine_labels_reads_machine_first_layout() {
    let local_payload = r#"{ "meta": { "machine_label": "local" }, "results": [] }"#;
    let lab_payload = r#"{ "meta": { "machine_label": "lab" }, "results": [] }"#;
    let found: Vec<Option<String>> = [local_payload, lab_payload]
        .iter()
        .map(|payload| read_run(payload).expect("json").0.machine_label)
        .collect();
    let labels = machine_labels(&found);
    assert_eq!(labels, vec!["lab".to_string(), "local".to_string()]);
}
