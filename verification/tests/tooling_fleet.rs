use clap::{Arg, Command};
use ubq::tooling::commands::{
    build_local_complete_cmd, build_pull_runs_cmd, build_remote_bench_payload,
    build_remote_check_tmux_cmd, build_remote_complete_cmd, build_remote_count_json_cmd,
    build_remote_dir_exists_cmd, build_remote_stream_log_cmd, build_remote_tmux_launch_cmd,
    build_sync_cmd, describe_remote_stream_failure, fleet_runtime, plot_command,
    remote_bench_log_expr, resolve_machine, signed_text, tmux_session_name, FleetDefaults,
    FleetRuntime, MachineConfig, ResolvedMachine,
};
use ubq::tooling::complete::{
    bench_log_name, build_bench_cmd, check_args, holding_dir, log_tail, read_args, sanitize_name,
    CommandLine, CompleteArgs,
};
use ubq::tooling::discovery::Discovery;
use ubq::tooling::fleet::{join_remote_path, normalize_machine_list, validate_forwarded_args};
use ubq::tooling::manifest::{
    manifest_path_dependencies, manifest_text_dependencies, ManifestEntry, ManifestValue,
};
use ubq::tooling::paths::{
    build_path_dep_sync_cmd, record_path_dependency_sync, remote_parent_dir,
    resolve_remote_dependency_dir, PathDependencySync,
};
use ubq::tooling::remote::{
    check_fleet_args, choose_python, forbidden_frontier_args, local_result, plot_decision,
    python_candidates, resolve_machines, NamedMachine, PlotDecision,
};

fn runtime() -> FleetRuntime {
    FleetRuntime {
        runs_dir: "bench_results/runs".to_string(),
        plot_out_dir: "bench_results/plots".to_string(),
        scenarios: vec!["1p1c".to_string(), "8p8c".to_string()],
        queues: vec![
            "ubq".to_string(),
            "segqueue".to_string(),
            "concurrent-queue".to_string(),
        ],
        modes: vec!["throughput".to_string()],
        items_per_producer: vec![1_000],
        repeats: 2,
        ubq_labels: vec!["balanced,8,127,crossbeam,cas".to_string()],
        fastfifo_block_sizes: vec![64, 256, 1024, 4096],
        lfqueue_segment_sizes: vec![32, 256, 1024],
        wcq_capacities: vec![4096, 65536, 1048576],
        sync_repo: true,
        dry_run: true,
        frontier_args: vec!["--parallelism=16".to_string()],
    }
}

fn machine_local() -> ResolvedMachine {
    ResolvedMachine {
        name: "local".to_string(),
        is_local: true,
        host: "local".to_string(),
        machine_label: "local".to_string(),
        remote_repo_dir: "~/UBQ".to_string(),
        remote_runs_dir: "bench_results/runs".to_string(),
    }
}

fn machine_remote() -> ResolvedMachine {
    ResolvedMachine {
        name: "lab".to_string(),
        is_local: false,
        host: "lab".to_string(),
        machine_label: "lab".to_string(),
        remote_repo_dir: "~/UBQ".to_string(),
        remote_runs_dir: "bench_results/runs".to_string(),
    }
}

fn path(parts: &[&str]) -> Vec<String> {
    parts.iter().map(|part| part.to_string()).collect()
}

#[test]
fn local_frontier_command_contains_expected_args() {
    let runtime = runtime();
    let machine = machine_local();
    let cmd = build_local_complete_cmd(&runtime, &machine);
    assert!(cmd.starts_with(&[
        "cargo".to_string(),
        "run".to_string(),
        "--quiet".to_string(),
        "--release".to_string(),
        "--features".to_string(),
        "bench_registry".to_string(),
        "--bin".to_string(),
        "bench_frontier".to_string(),
        "--".to_string(),
    ]));
    assert!(cmd.contains(&"--machine-label".to_string()));
    assert!(cmd.contains(&"local".to_string()));
    assert!(cmd.contains(&"--seed-label".to_string()));
}

#[test]
fn local_frontier_command_enables_fastfifo_feature_when_selected() {
    let mut runtime = runtime();
    runtime.queues.push("fastfifo".to_string());
    let machine = machine_local();
    let cmd = build_local_complete_cmd(&runtime, &machine);
    assert!(cmd.contains(&"bench_registry,bench_fastfifo".to_string()));
    assert!(cmd.contains(&"--fastfifo-block-sizes".to_string()));
    assert!(cmd.contains(&"64,256,1024,4096".to_string()));
}

#[test]
fn local_frontier_command_enables_publication_queue_features_when_selected() {
    let mut runtime = runtime();
    runtime.queues.push("lfqueue".to_string());
    runtime.queues.push("wcq".to_string());
    let machine = machine_local();
    let cmd = build_local_complete_cmd(&runtime, &machine);
    assert!(cmd.contains(&"bench_registry,bench_lfqueue,bench_wcq".to_string()));
    assert!(cmd.contains(&"--lfqueue-segment-sizes".to_string()));
    assert!(cmd.contains(&"32,256,1024".to_string()));
    assert!(cmd.contains(&"--wcq-capacities".to_string()));
    assert!(cmd.contains(&"4096,65536,1048576".to_string()));
}

#[test]
fn remote_frontier_command_uses_ssh_and_cargo() {
    let runtime = runtime();
    let machine = machine_remote();
    let cmd = build_remote_complete_cmd(&runtime, &machine);
    assert_eq!(cmd[0], "ssh");
    assert_eq!(cmd[1], "lab");
    assert!(cmd[2].contains("cargo"));
    assert!(cmd[2].contains("--quiet"));
    assert!(cmd[2].contains("bench_frontier"));
    assert!(cmd[2].contains("cd \"$HOME/UBQ\""));
}

#[test]
fn sync_and_pull_commands_are_formed() {
    let machine = machine_remote();
    let sync = build_sync_cmd(&machine);
    assert_eq!(sync[0], "rsync");
    assert!(sync.iter().any(|arg| arg == "--delete"));

    let remote_runs_root = join_remote_path(&machine.remote_repo_dir, &machine.remote_runs_dir);
    let pull = build_pull_runs_cmd(&machine, &remote_runs_root, "bench_results/runs");
    assert_eq!(pull[0], "rsync");
    assert!(pull[2].starts_with("lab:"));
}

#[test]
fn path_dependency_sync_creates_remote_parent() {
    let machine = machine_remote();
    let cmd = build_path_dep_sync_cmd(
        &machine,
        &PathDependencySync {
            local_dir: path(&["tmp", "FastFifo"]),
            remote_dir: "~/UBQ/vendor/FastFifo".to_string(),
        },
    );
    assert!(cmd.contains(&"--rsync-path".to_string()));
    assert!(cmd.contains(&"mkdir -p \"$HOME/UBQ/vendor\" && rsync".to_string()));
}

#[test]
fn remote_parent_dir_handles_common_forms() {
    assert_eq!(remote_parent_dir("~/UBQ/vendor/FastFifo"), "~/UBQ/vendor");
    assert_eq!(
        remote_parent_dir("/srv/bench/UBQ/vendor/FastFifo"),
        "/srv/bench/UBQ/vendor"
    );
    assert_eq!(remote_parent_dir("FastFifo"), ".");
}

#[test]
fn remote_dependency_paths_preserve_relative_layout() {
    assert_eq!(
        resolve_remote_dependency_dir("~/UBQ", "../FastFifo").expect("resolve"),
        "~/FastFifo"
    );
    assert_eq!(
        resolve_remote_dependency_dir("/srv/bench/UBQ", "../FastFifo").expect("resolve"),
        "/srv/bench/FastFifo"
    );
    assert_eq!(
        resolve_remote_dependency_dir("UBQ", "../FastFifo").expect("resolve"),
        "FastFifo"
    );
}

#[test]
fn discover_path_dependency_syncs_follow_recursive_manifests() {
    let repo = path(&["tmp", "UBQ"]);
    let dep_a = path(&["tmp", "UBQ", "vendor", "FastFifo"]);
    let dep_b = path(&["tmp", "UBQ", "vendor", "FastFifo", "fastfifoprocmacro"]);
    let dep_c = path(&["tmp", "UBQ", "vendor", "AtomicList"]);
    let manifests = [
        (
            "~/UBQ",
            r#"[package]
name = "ubq"
version = "0.1.0"
edition = "2024"

[dependencies]
fastfifo = { path = "vendor/FastFifo", optional = true }
"#,
        ),
        (
            "~/UBQ/vendor/FastFifo",
            r#"[package]
name = "fastfifo"
version = "0.1.0"
edition = "2024"

[dependencies]
fastfifoprocmacro = { path = "./fastfifoprocmacro" }
atomic_list = { path = "../AtomicList" }
"#,
        ),
        (
            "~/UBQ/vendor/FastFifo/fastfifoprocmacro",
            "[package]\nname = \"fastfifoprocmacro\"\nversion = \"0.1.0\"\nedition = \"2024\"\n",
        ),
        (
            "~/UBQ/vendor/AtomicList",
            "[package]\nname = \"atomic_list\"\nversion = \"0.1.0\"\nedition = \"2024\"\n",
        ),
    ];

    let mut discovery = Discovery::new(repo, "~/UBQ");
    while let Some(place) = discovery.next_manifest() {
        let (_, raw) = manifests
            .iter()
            .find(|(remote, _)| *remote == place.remote)
            .expect("manifest");
        for dependency in manifest_text_dependencies(raw).expect("toml") {
            let local = match dependency.as_str() {
                "vendor/FastFifo" => dep_a.clone(),
                "./fastfifoprocmacro" => dep_b.clone(),
                "../AtomicList" => dep_c.clone(),
                other => panic!("unknown dependency {other}"),
            };
            discovery
                .add_dependency(&place.remote, &dependency, local)
                .expect("discover syncs");
        }
    }
    let syncs = discovery.finish();
    assert_eq!(
        syncs.len(),
        2,
        "nested deps inside FastFifo should be covered"
    );
    assert!(syncs
        .iter()
        .any(|sync| sync.local_dir == dep_a && sync.remote_dir == "~/UBQ/vendor/FastFifo"));
    assert!(syncs
        .iter()
        .any(|sync| sync.local_dir == dep_c && sync.remote_dir == "~/UBQ/vendor/AtomicList"));
    assert!(
        !syncs.iter().any(|sync| sync.local_dir == dep_b),
        "FastFifo sync should already include fastfifoprocmacro"
    );
}

#[test]
fn forwarded_arg_validation_blocks_protected_keys() {
    let bad = vec!["--machine-label=foo".to_string()];
    assert!(validate_forwarded_args(&bad, &forbidden_frontier_args()).is_err());
    let ok = vec![
        "--parallelism=16".to_string(),
        "--seed-label=balanced,8,127,crossbeam,cas".to_string(),
    ];
    assert!(validate_forwarded_args(&ok, &forbidden_frontier_args()).is_ok());
}

#[test]
fn parse_args_accepts_top_level_repeats_override() {
    let args = Command::new("prog")
        .arg(Arg::new("machines").long("machines").value_delimiter(','))
        .arg(Arg::new("repeats").long("repeats"))
        .try_get_matches_from(["prog", "--machines", "local,lab", "--repeats", "3"])
        .expect("parse args");
    let machines: Vec<String> = args
        .get_many::<String>("machines")
        .expect("machines")
        .cloned()
        .collect();
    let repeats = args
        .get_one::<String>("repeats")
        .map(|repeats| repeats.parse().expect("number"));
    let machines = normalize_machine_list(&machines.join(","));
    assert_eq!(machines, vec!["local".to_string(), "lab".to_string()]);
    assert_eq!(repeats, Some(3));
    let runtime = fleet_runtime(&no_defaults(), repeats, false, false, &Vec::new());
    assert_eq!(runtime.repeats, 3);
}

#[test]
fn forwarded_arg_validation_blocks_repeats() {
    let bad = vec!["--repeats=4".to_string()];
    assert!(validate_forwarded_args(&bad, &forbidden_frontier_args()).is_err());
}

#[test]
fn configured_python_is_used_when_present() {
    let candidates = python_candidates(Some("python3")).expect("candidates");
    let resolved =
        choose_python(Some("python3"), &candidates, &vec![true]).expect("resolve python");
    assert_eq!(resolved, "python3");
}

#[test]
fn tmux_session_name_is_deterministic_and_safe() {
    assert_eq!(tmux_session_name("lab"), "ubq_bench_lab");
    assert_eq!(tmux_session_name("my-server"), "ubq_bench_my_server");
    assert_eq!(tmux_session_name("box.local"), "ubq_bench_box_local");
}

#[test]
fn session_names_keep_letters_of_any_script() {
    assert_eq!(tmux_session_name("b\u{e9}1-\u{2603}"), "ubq_bench_b\u{e9}1__");
}

#[test]
fn remote_bench_log_expr_expands_home() {
    let machine = machine_remote();
    let expr = remote_bench_log_expr(&machine);
    assert!(expr.contains("$HOME"), "log expr should reference $HOME");
    assert!(
        expr.contains("ubq_bench_lab"),
        "log expr should include machine label"
    );
    assert!(expr.ends_with(".log\""), "log expr should end with .log");
}

#[test]
fn tmux_launch_cmd_wraps_payload_and_sentinel() {
    let machine = machine_remote();
    let launch = build_remote_tmux_launch_cmd(
        &machine,
        "ubq_bench_lab",
        "cd /repo && cargo run",
        "\"$HOME/UBQ/target/ubq_bench_lab.log\"",
    );
    assert_eq!(launch[0], "ssh");
    assert_eq!(launch[1], "lab");
    assert!(launch[2].contains("tmux new-session"));
    assert!(
        launch[2].contains("__BENCH_DONE__"),
        "sentinel must be written on completion"
    );
}

#[test]
fn tmux_stream_cmd_tails_log_with_sentinel_exit() {
    let machine = machine_remote();
    let stream = build_remote_stream_log_cmd(
        &machine,
        "ubq_bench_lab",
        "\"$HOME/UBQ/target/ubq_bench_lab.log\"",
    );
    assert_eq!(stream[0], "ssh");
    assert!(
        stream[2].contains("tail -n +1 -f"),
        "must replay from beginning"
    );
    assert!(
        stream[2].contains("__BENCH_DONE__"),
        "must stop at sentinel"
    );
    assert!(
        stream[2].contains("tmux has-session"),
        "must detect dead tmux sessions"
    );
}

#[test]
fn remote_stream_failures_are_descriptive() {
    let machine = machine_remote();
    assert!(
        describe_remote_stream_failure(&machine, 2).contains("log file was created"),
        "exit code 2 should explain the missing log case"
    );
    assert!(
        describe_remote_stream_failure(&machine, 3).contains("completion sentinel"),
        "exit code 3 should explain the missing sentinel case"
    );
}

#[test]
fn remote_bench_payload_includes_features_flag() {
    let runtime = runtime();
    let machine = machine_remote();
    let payload = build_remote_bench_payload(&runtime, &machine);
    assert!(
        payload.contains("--features"),
        "payload must pass --features"
    );
    assert!(
        payload.contains("bench_registry"),
        "payload must enable bench_registry"
    );
}

#[test]
fn build_cmd_contains_local_only_flags() {
    let args = CompleteArgs {
        machine_label: "lab".to_string(),
        runs_dir: "bench_results/runs".to_string(),
        scenarios: vec!["1p1c".to_string()],
        mode: "throughput".to_string(),
        seed_label: Some("v4,8,127".to_string()),
        allow_incomplete: true,
        bench_script: "./scripts/bench_dual_host.sh".to_string(),
        bench_args: vec!["--items-per-producer=1000".to_string()],
        dry_run: true,
    };
    let cmd = build_bench_cmd(&args, "1p1c", &vec!["v4,8,127".to_string()]);
    assert!(cmd.contains(&"--skip-remote".to_string()));
    assert!(cmd.contains(&"--local-machine-label".to_string()));
    assert!(cmd.contains(&"lab".to_string()));
    assert!(cmd.contains(&"--out-root".to_string()));
    assert!(cmd.contains(&"bench_results".to_string()));
}

fn no_defaults() -> FleetDefaults {
    FleetDefaults {
        runs_dir: None,
        plot_out_dir: None,
        remote_repo_dir: None,
        remote_runs_dir: None,
        scenarios: None,
        queues: None,
        modes: None,
        items_per_producer: None,
        repeats: None,
        ubq_labels: None,
        fastfifo_block_sizes: None,
        lfqueue_segment_sizes: None,
        wcq_capacities: None,
    }
}

fn remote_config() -> MachineConfig {
    MachineConfig {
        local: None,
        host: Some("lab.example".to_string()),
        machine_label: None,
        remote_repo_dir: None,
        remote_runs_dir: None,
    }
}

#[test]
fn defaults_fill_what_the_configuration_leaves_out() {
    let runtime = fleet_runtime(&no_defaults(), None, true, false, &Vec::new());
    assert_eq!(runtime.repeats, 1);
    assert_eq!(runtime.runs_dir, "bench_results/runs");
    assert_eq!(runtime.items_per_producer, vec![1_000_000]);
    assert!(!runtime.sync_repo);
    let machine = resolve_machine("lab", &no_defaults(), &remote_config()).expect("machine");
    assert_eq!(machine.host, "lab.example");
    assert!(!machine.is_local);
}

#[test]
fn machines_that_are_not_configured_are_refused() {
    let table = vec![NamedMachine {
        name: "lab".to_string(),
        config: remote_config(),
    }];
    let found = resolve_machines(&vec!["lab".to_string()], &table, &no_defaults());
    assert_eq!(found.unwrap().len(), 1);
    let missing = resolve_machines(&vec!["box".to_string()], &table, &no_defaults());
    assert_eq!(missing.unwrap_err(), "machine 'box' not found in config");
}

#[test]
fn a_fleet_needs_a_machine_and_keeps_its_own_options() {
    let named = check_fleet_args(&vec!["local,Lab".to_string()], &Vec::new());
    assert_eq!(
        named.unwrap(),
        vec!["local".to_string(), "lab".to_string()]
    );
    assert_eq!(
        check_fleet_args(&vec![" ".to_string()], &Vec::new()).unwrap_err(),
        "--machines produced no valid machine names"
    );
    assert_eq!(
        check_fleet_args(&vec!["lab".to_string()], &vec!["--dry-run".to_string()]).unwrap_err(),
        "forwarded arg '--dry-run' cannot set protected option '--dry-run'"
    );
}

#[test]
fn plots_wait_for_all_machines_unless_asked_for() {
    assert!(matches!(plot_decision(0, true, 0, 0, false), PlotDecision::Skip { .. }));
    assert_eq!(plot_decision(0, false, 1, 0, false).exit_code(), 0);
    assert_eq!(plot_decision(1, false, 1, 0, true).exit_code(), 1);
    assert_eq!(plot_decision(0, false, 0, 0, false).exit_code(), 1);
}

#[test]
fn commands_that_fail_are_reported() {
    assert!(local_result(0).is_ok());
    assert!(local_result(1).is_err());
    assert_eq!(signed_text(-15), "-15");
}

#[test]
fn a_remote_python_that_is_missing_is_reported() {
    let candidates = python_candidates(Some("python9")).expect("candidates");
    assert!(choose_python(Some("python9"), &candidates, &vec![false]).is_err());
    let all = python_candidates(None).expect("candidates");
    assert!(all.len() > 1);
}

#[test]
fn sessions_counts_and_directories_are_asked_for_over_ssh() {
    let machine = machine_remote();
    assert!(build_remote_check_tmux_cmd(&machine, "s")[2].contains("tmux has-session -t"));
    assert!(build_remote_count_json_cmd(&machine, "~/UBQ/runs")[2].contains("-name '*.json'"));
    assert!(build_remote_dir_exists_cmd(&machine, "~/UBQ/runs")[2].contains("$HOME/UBQ/runs"));
    assert_eq!(plot_command(&runtime(), "python3", false)[0], "python3");
}

#[test]
fn recorded_directories_cover_those_inside_them() {
    let mut syncs = Vec::new();
    record_path_dependency_sync(
        &mut syncs,
        PathDependencySync {
            local_dir: path(&["a", "b"]),
            remote_dir: "~/b".to_string(),
        },
    )
    .expect("first");
    record_path_dependency_sync(
        &mut syncs,
        PathDependencySync {
            local_dir: path(&["a", "b", "c"]),
            remote_dir: "~/b/c".to_string(),
        },
    )
    .expect("inside");
    assert_eq!(syncs.len(), 1);
    assert!(record_path_dependency_sync(
        &mut syncs,
        PathDependencySync {
            local_dir: path(&["a", "b"]),
            remote_dir: "~/elsewhere".to_string(),
        },
    )
    .is_err());
}

#[test]
fn path_dependencies_are_found_in_tables() {
    let table = ManifestValue::Table(vec![ManifestEntry {
        key: "dependencies".to_string(),
        value: ManifestValue::Table(vec![ManifestEntry {
            key: "fastfifo".to_string(),
            value: ManifestValue::Table(vec![ManifestEntry {
                key: "path".to_string(),
                value: ManifestValue::Text("vendor/FastFifo".to_string()),
            }]),
        }]),
    }]);
    assert_eq!(
        manifest_path_dependencies(&table),
        vec!["vendor/FastFifo".to_string()]
    );
}

#[test]
fn the_command_line_of_a_search_is_read_and_checked() {
    let args = path(&[
        "--machine-label",
        "lab",
        "--scenarios",
        "1p1c",
        "--seed-label",
        "balanced,8,127,crossbeam",
        "--dry-run",
    ]);
    match read_args(&args) {
        CommandLine::Draft(draft) => {
            let args = check_args(draft, true).expect("arguments");
            assert_eq!(args.machine_label, "lab");
            assert_eq!(args.scenarios, vec!["1p1c".to_string()]);
            assert!(args.dry_run);
        }
        _ => panic!("arguments expected"),
    }
    assert!(matches!(read_args(&path(&["--help"])), CommandLine::Help));
    assert!(matches!(read_args(&path(&["--what"])), CommandLine::Refused(_)));
}

#[test]
fn log_names_and_tails() {
    assert_eq!(sanitize_name("a b"), "a_b");
    let (_, name) = bench_log_name("lab", "1p1c", 2, 77);
    assert!(name.contains("77"));
    assert_eq!(
        log_tail(path(&["1", "2", "3"]), 2),
        path(&["2", "3"])
    );
    assert_eq!(holding_dir("bench_results/runs"), "bench_results");
}

#[test]
fn path_dependencies_are_read_from_the_text_of_a_manifest() {
    let raw = r#"
[package]
name = "x"

[dependencies]
serde = "1"
b = { path = " ../b " }
c = { path = "" }

[dev-dependencies.a]
path = "vendor/a"

[target.'cfg(unix)'.dependencies]
d = { path = "../d", version = "1" }

[[bench]]
path = "benches/e.rs"
"#;
    assert_eq!(
        manifest_text_dependencies(raw).expect("toml"),
        vec!["../b".to_string(), "../d".to_string(), "vendor/a".to_string()]
    );
    assert!(!manifest_text_dependencies("a = ").expect_err("no value").is_empty());
}

#[test]
fn a_search_needs_only_its_machine() {
    let line = read_args(&vec!["--machine-label".to_string(), "Lab".to_string()]);
    let CommandLine::Draft(draft) = line else {
        panic!("the line is complete");
    };
    let args = check_args(draft, true).expect("defaults");
    assert_eq!(args.machine_label, "lab");
    assert_eq!(args.runs_dir, "bench_results/runs");
    assert_eq!(args.mode, "throughput");
    assert_eq!(args.seed_label.as_deref(), Some("v4,8,127"));
    assert_eq!(args.scenarios.len(), 24);
    assert!(!args.allow_incomplete);
    assert!(args.bench_args.is_empty());
    assert!(!args.dry_run);
}
