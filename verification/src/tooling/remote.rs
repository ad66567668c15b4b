//! The course of a search on a machine, and what follows from all of them.
use vstd::prelude::*;

use crate::text::{chars_of, join, joined, same, split, texts, trim, trimmed};
use crate::tooling::commands::{
    build_pull_runs_cmd, build_remote_bench_payload, build_remote_check_tmux_cmd,
    build_remote_count_json_cmd, build_remote_dir_exists_cmd, build_remote_stream_log_cmd,
    build_remote_tmux_launch_cmd, build_sync_cmd, check_words, count_words,
    describe_remote_stream_failure, exists_words, first_text, launch_words, log_word, own_label,
    pull_words, remote_bench_log_expr, remote_payload, resolve_machine, safe_label, signed,
    signed_text, stream_failure, stream_words, sync_words, text_or, tmux_session_name,
    FleetDefaults, FleetRuntime, MachineConfig, ResolvedMachine,
};
use crate::tooling::fleet::{
    distinct, folded_all, join_remote_path, joined_path, normalize_machine_list,
    protected_message, quoted, sets, validate_forwarded_args,
};
use crate::tooling::paths::{
    build_path_dep_sync_cmd, dependency_words, show_dir, shown, sync_views, PathDependencySync,
    SyncParts,
};

verus! {

/// One command of a search on a remote machine.
#[derive(Clone, Copy, Debug, PartialEq, Eq, Structural)]
pub enum Step {
    SyncRepo,
    SyncDependency(usize),
    CheckSession,
    CountResults,
    Launch,
    Stream,
    ProbeRuns,
    PullRuns,
}

/// What comes after a command.
pub enum Next {
    Do(Step),
    Done,
    DoneWithoutRuns,
    Failed(String),
}

/// What comes after a command, with the message as characters.
pub enum Course {
    Do(Step),
    Done,
    DoneWithoutRuns,
    Failed(Seq<char>),
}

impl View for Next {
    type V = Course;

    open spec fn view(&self) -> Course {
        match self {
            Next::Do(step) => Course::Do(*step),
            Next::Done => Course::Done,
            Next::DoneWithoutRuns => Course::DoneWithoutRuns,
            Next::Failed(message) => Course::Failed(message@),
        }
    }
}

/// The first command.
pub open spec fn first(sync_repo: bool) -> Step {
    if sync_repo {
        Step::SyncRepo
    } else {
        Step::CheckSession
    }
}

pub fn first_step(sync_repo: bool) -> (step: Step)
    ensures
        step == first(sync_repo),
{
    if sync_repo {
        Step::SyncRepo
    } else {
        Step::CheckSession
    }
}

/// The session of a machine.
pub open spec fn session_of(machine: ResolvedMachine) -> Seq<char> {
    "ubq_bench_"@ + safe_label(machine.machine_label@)
}

/// The directory with the results of a machine.
pub open spec fn runs_root(machine: ResolvedMachine) -> Seq<char> {
    joined_path(machine.remote_repo_dir@, machine.remote_runs_dir@)
}

/// The copy behind number `i`, or what follows the copies.
pub open spec fn sync_from(i: int, syncs: Seq<SyncParts>) -> Step {
    if i < syncs.len() {
        Step::SyncDependency(i as usize)
    } else {
        Step::CheckSession
    }
}

/// What comes after a command that ended with an exit code: the copies one
/// after the other, then the session, a running one being followed and a
/// missing one being started, then its log, then the results. Anything that
/// fails ends the course; results that are not there do not.
pub open spec fn course(
    step: Step,
    code: i32,
    machine: ResolvedMachine,
    syncs: Seq<SyncParts>,
) -> Course {
    match step {
        Step::SyncRepo => if code != 0 {
            Course::Failed("repo sync failed with exit code "@ + signed(code))
        } else {
            Course::Do(sync_from(0, syncs))
        },
        Step::SyncDependency(i) => if code != 0 {
            Course::Failed(
                "cargo path dependency sync failed for "@ + shown(syncs[i as int].local_dir)
                    + " with exit code "@ + signed(code),
            )
        } else {
            Course::Do(sync_from(i + 1, syncs))
        },
        Step::CheckSession => if code == 0 {
            Course::Do(Step::CountResults)
        } else {
            Course::Do(Step::Launch)
        },
        Step::CountResults => Course::Do(Step::Stream),
        Step::Launch => if code != 0 {
            Course::Failed(
                "failed to launch tmux session '"@ + session_of(machine) + "' on "@
                    + machine.host@,
            )
        } else {
            Course::Do(Step::Stream)
        },
        Step::Stream => if code != 0 {
            Course::Failed(stream_failure(machine, code))
        } else {
            Course::Do(Step::ProbeRuns)
        },
        Step::ProbeRuns => if code == 1 {
            Course::DoneWithoutRuns
        } else if code != 0 {
            Course::Failed(
                "failed to probe remote runs dir (exit "@ + signed(code) + ") for "@
                    + machine.name@,
            )
        } else {
            Course::Do(Step::PullRuns)
        },
        Step::PullRuns => if code != 0 {
            Course::Failed("failed to pull remote runs with exit code "@ + signed(code))
        } else {
            Course::Done
        },
    }
}

/// A step that the list of copies has.
pub open spec fn possible(step: Step, syncs: Seq<SyncParts>) -> bool {
    step matches Step::SyncDependency(i) ==> i < syncs.len()
}

/// How many commands can still follow, this one included.
pub open spec fn remaining(step: Step, syncs: Seq<SyncParts>) -> int {
    match step {
        Step::SyncRepo => syncs.len() as int + 6,
        Step::SyncDependency(i) => syncs.len() as int - i + 5,
        Step::CheckSession => 5,
        Step::CountResults => 4,
        Step::Launch => 4,
        Step::Stream => 3,
        Step::ProbeRuns => 2,
        Step::PullRuns => 1,
    }
}

/// A course ends: whatever the exit codes are, each command leaves fewer to
/// come, and each is one that there is.
pub proof fn law_course_ends(
    step: Step,
    code: i32,
    machine: ResolvedMachine,
    syncs: Seq<SyncParts>,
)
    requires
        possible(step, syncs),
        syncs.len() <= usize::MAX,
    ensures
        course(step, code, machine, syncs) matches Course::Do(next) ==> possible(next, syncs) && 0
            <= remaining(next, syncs) < remaining(step, syncs),
{
}

/// A command that fails does not let the course go on, but for the two that
/// only ask: whether a session runs and how much there is already.
pub proof fn law_failure_stops(
    step: Step,
    code: i32,
    machine: ResolvedMachine,
    syncs: Seq<SyncParts>,
)
    requires
        code != 0,
        step != Step::CheckSession,
        step != Step::CountResults,
    ensures
        course(step, code, machine, syncs) !is Do,
        course(step, code, machine, syncs) !is Done,
{
}

fn with_code(front: &str, code: i32) -> (message: String)
    ensures
        message@ == front@ + signed(code),
{
    let number = signed_text(code);
    let mut message = front.to_owned();
    message.append(number.as_str());
    message
}

fn next_sync(i: usize, syncs: &Vec<PathDependencySync>) -> (step: Step)
    ensures
        step == sync_from(i as int, sync_views(syncs@)),
{
    assert(sync_views(syncs@).len() == syncs@.len());
    if i < syncs.len() {
        Step::SyncDependency(i)
    } else {
        Step::CheckSession
    }
}

/// What comes after a command that ended with an exit code.
pub fn after_step(
    step: Step,
    code: i32,
    machine: &ResolvedMachine,
    syncs: &Vec<PathDependencySync>,
) -> (next: Next)
    requires
        possible(step, sync_views(syncs@)),
    ensures
        next@ == course(step, code, *machine, sync_views(syncs@)),
{
    match step {
        Step::SyncRepo => {
            if code != 0 {
                return Next::Failed(with_code("repo sync failed with exit code ", code));
            }
            Next::Do(next_sync(0, syncs))
        },
        Step::SyncDependency(i) => {
            assert(sync_views(syncs@)[i as int] == syncs@[i as int]@);
            if code != 0 {
                let dir = show_dir(&syncs[i].local_dir);
                let mut message = "cargo path dependency sync failed for ".to_owned();
                message.append(dir.as_str());
                message.append(" with exit code ");
                let number = signed_text(code);
                message.append(number.as_str());
                return Next::Failed(message);
            }
            let len: usize = syncs.len();
            assert(i < len);
            Next::Do(next_sync(i + 1, syncs))
        },
        Step::CheckSession => {
            if code == 0 {
                Next::Do(Step::CountResults)
            } else {
                Next::Do(Step::Launch)
            }
        },
        Step::CountResults => Next::Do(Step::Stream),
        Step::Launch => {
            if code != 0 {
                let session = tmux_session_name(machine.machine_label.as_str());
                let mut message = "failed to launch tmux session '".to_owned();
                message.append(session.as_str());
                message.append("' on ");
                message.append(machine.host.as_str());
                return Next::Failed(message);
            }
            Next::Do(Step::Stream)
        },
        Step::Stream => {
            if code != 0 {
                return Next::Failed(describe_remote_stream_failure(machine, code));
            }
            Next::Do(Step::ProbeRuns)
        },
        Step::ProbeRuns => {
            if code == 1 {
                return Next::DoneWithoutRuns;
            }
            if code != 0 {
                let mut message = with_code("failed to probe remote runs dir (exit ", code);
                message.append(") for ");
                message.append(machine.name.as_str());
                return Next::Failed(message);
            }
            Next::Do(Step::PullRuns)
        },
        Step::PullRuns => {
            if code != 0 {
                return Next::Failed(with_code("failed to pull remote runs with exit code ", code));
            }
            Next::Done
        },
    }
}

/// The command of a step.
pub open spec fn step_words(
    step: Step,
    runtime: FleetRuntime,
    machine: ResolvedMachine,
    syncs: Seq<SyncParts>,
) -> Seq<Seq<char>> {
    match step {
        Step::SyncRepo => sync_words(machine),
        Step::SyncDependency(i) => dependency_words(machine, syncs[i as int]),
        Step::CheckSession => check_words(machine, session_of(machine)),
        Step::CountResults => count_words(machine, runs_root(machine)),
        Step::Launch => launch_words(
            machine,
            session_of(machine),
            remote_payload(runtime, machine),
            log_word(machine),
        ),
        Step::Stream => stream_words(machine, session_of(machine), log_word(machine)),
        Step::ProbeRuns => exists_words(machine, runs_root(machine)),
        Step::PullRuns => pull_words(machine, runs_root(machine), runtime.runs_dir@),
    }
}

/// The command of a step.
pub fn step_command(
    step: Step,
    runtime: &FleetRuntime,
    machine: &ResolvedMachine,
    syncs: &Vec<PathDependencySync>,
) -> (cmd: Vec<String>)
    requires
        possible(step, sync_views(syncs@)),
    ensures
        texts(cmd@) == step_words(step, *runtime, *machine, sync_views(syncs@)),
{
    let session = tmux_session_name(machine.machine_label.as_str());
    let root = join_remote_path(
        machine.remote_repo_dir.as_str(),
        machine.remote_runs_dir.as_str(),
    );
    let log = remote_bench_log_expr(machine);
    match step {
        Step::SyncRepo => build_sync_cmd(machine),
        Step::SyncDependency(i) => {
            assert(sync_views(syncs@)[i as int] == syncs@[i as int]@);
            build_path_dep_sync_cmd(machine, &syncs[i])
        },
        Step::CheckSession => build_remote_check_tmux_cmd(machine, session.as_str()),
        Step::CountResults => build_remote_count_json_cmd(machine, root.as_str()),
        Step::Launch => {
            let payload = build_remote_bench_payload(runtime, machine);
            build_remote_tmux_launch_cmd(
                machine,
                session.as_str(),
                payload.as_str(),
                log.as_str(),
            )
        },
        Step::Stream => build_remote_stream_log_cmd(machine, session.as_str(), log.as_str()),
        Step::ProbeRuns => build_remote_dir_exists_cmd(machine, root.as_str()),
        Step::PullRuns => build_pull_runs_cmd(machine, root.as_str(), runtime.runs_dir.as_str()),
    }
}

/// The name of a directory without what holds it.
pub open spec fn dir_name(dir: Seq<Seq<char>>) -> Seq<char> {
    if dir.len() == 0 {
        "<unknown>"@
    } else {
        dir.last()
    }
}

/// What is said before a step, if anything.
pub open spec fn said_before(
    step: Step,
    machine: ResolvedMachine,
    syncs: Seq<SyncParts>,
) -> Option<Seq<char>> {
    match step {
        Step::SyncRepo => Some(
            "  syncing repo to "@ + machine.host@ + ":"@ + machine.remote_repo_dir@,
        ),
        Step::SyncDependency(i) => Some(
            "  syncing cargo path dependency "@ + dir_name(syncs[i as int].local_dir) + " to "@
                + machine.host@ + ":"@ + syncs[i as int].remote_dir,
        ),
        Step::CountResults => Some(
            "  reconnecting to existing tmux session '"@ + session_of(machine) + "' on "@
                + machine.host@,
        ),
        Step::Launch => Some(
            "  launching bench_frontier on "@ + machine.host@ + " via tmux session '"@
                + session_of(machine) + "'"@,
        ),
        Step::ProbeRuns => Some(
            "  pulling runs from "@ + machine.host@ + ":"@ + runs_root(machine),
        ),
        _ => None,
    }
}

pub fn announcement(
    step: Step,
    machine: &ResolvedMachine,
    syncs: &Vec<PathDependencySync>,
) -> (line: Option<String>)
    requires
        possible(step, sync_views(syncs@)),
    ensures
        match line {
            Some(line) => said_before(step, *machine, sync_views(syncs@)) == Some(line@),
            None => said_before(step, *machine, sync_views(syncs@)) is None,
        },
{
    match step {
        Step::SyncRepo => {
            let mut line = "  syncing repo to ".to_owned();
            line.append(machine.host.as_str());
            line.append(":");
            line.append(machine.remote_repo_dir.as_str());
            Some(line)
        },
        Step::SyncDependency(i) => {
            let ghost dir = texts(syncs@[i as int].local_dir@);
            assert(sync_views(syncs@)[i as int] == syncs@[i as int]@);
            let len: usize = syncs[i].local_dir.len();
            let mut line = "  syncing cargo path dependency ".to_owned();
            if len == 0 {
                assert(dir.len() == 0);
                line.append("<unknown>");
            } else {
                assert(dir.last() == syncs@[i as int].local_dir@[len - 1]@);
                line.append(syncs[i].local_dir[len - 1].as_str());
            }
            line.append(" to ");
            line.append(machine.host.as_str());
            line.append(":");
            line.append(syncs[i].remote_dir.as_str());
            Some(line)
        },
        Step::CountResults => {
            let session = tmux_session_name(machine.machine_label.as_str());
            let mut line = "  reconnecting to existing tmux session '".to_owned();
            line.append(session.as_str());
            line.append("' on ");
            line.append(machine.host.as_str());
            Some(line)
        },
        Step::Launch => {
            let session = tmux_session_name(machine.machine_label.as_str());
            let mut line = "  launching bench_frontier on ".to_owned();
            line.append(machine.host.as_str());
            line.append(" via tmux session '");
            line.append(session.as_str());
            line.append("'");
            Some(line)
        },
        Step::ProbeRuns => {
            let root = join_remote_path(
                machine.remote_repo_dir.as_str(),
                machine.remote_runs_dir.as_str(),
            );
            let mut line = "  pulling runs from ".to_owned();
            line.append(machine.host.as_str());
            line.append(":");
            line.append(root.as_str());
            Some(line)
        },
        _ => None,
    }
}

/// How a search on this machine ended.
pub fn local_result(code: i32) -> (result: Result<(), String>)
    ensures
        result is Ok <==> code == 0,
        result matches Err(message) ==> message@ == "local bench_frontier failed with exit code "@
            + signed(code),
{
    if code == 0 {
        Ok(())
    } else {
        Err(with_code("local bench_frontier failed with exit code ", code))
    }
}

/// Whether and how the plots are drawn once all machines are through.
#[derive(Clone, Copy, Debug, PartialEq, Eq, Structural)]
pub enum PlotDecision {
    Skip { code: i32 },
    NothingToPlot,
    Incomplete,
    Render { no_clean: bool, code: i32 },
}

/// Decides on the plots: drawn unless they are not wanted, there is nothing to
/// draw, or something is missing and partial plots were not asked for. What
/// failed shows in the exit code.
pub fn plot_decision(
    failures: usize,
    skip_local_plot: bool,
    seen_labels: usize,
    missing_runs: usize,
    plot_partial: bool,
) -> (decision: PlotDecision)
    ensures
        ({
            let code: i32 = if failures == 0 {
                0
            } else {
                1
            };
            let partial = failures > 0 || missing_runs > 0;
            decision == if skip_local_plot {
                PlotDecision::Skip { code }
            } else if seen_labels == 0 {
                PlotDecision::NothingToPlot
            } else if partial && !plot_partial {
                PlotDecision::Incomplete
            } else {
                PlotDecision::Render { no_clean: partial, code }
            }
        }),
{
    let code: i32 = if failures == 0 {
        0
    } else {
        1
    };
    if skip_local_plot {
        return PlotDecision::Skip { code };
    }
    if seen_labels == 0 {
        return PlotDecision::NothingToPlot;
    }
    let partial = failures > 0 || missing_runs > 0;
    if partial && !plot_partial {
        return PlotDecision::Incomplete;
    }
    PlotDecision::Render { no_clean: partial, code }
}

impl PlotDecision {
    /// The exit code of the program, unless drawing fails.
    pub fn exit_code(self) -> (code: i32)
        ensures
            code == (match self {
                PlotDecision::Skip { code } => code,
                PlotDecision::NothingToPlot => 1,
                PlotDecision::Incomplete => 1,
                PlotDecision::Render { no_clean, code } => code,
            }),
    {
        match self {
            PlotDecision::Skip { code } => code,
            PlotDecision::NothingToPlot => 1,
            PlotDecision::Incomplete => 1,
            PlotDecision::Render { no_clean: _, code } => code,
        }
    }
}

/// A configured machine.
pub struct NamedMachine {
    pub name: String,
    pub config: MachineConfig,
}

/// The entry for a name is number `i`.
pub open spec fn configured(table: Seq<NamedMachine>, name: Seq<char>, i: int) -> bool {
    &&& 0 <= i < table.len()
    &&& table[i].name@ == name
    &&& forall|j: int| 0 <= j < i ==> (#[trigger] table[j]).name@ != name
}

/// The message for a name that stands in the way, if it does.
pub open spec fn refusal(table: Seq<NamedMachine>, name: Seq<char>) -> Option<Seq<char>> {
    if exists|i: int| configured(table, name, i) {
        let i = choose|i: int| configured(table, name, i);
        if own_label(name, table[i].config).len() == 0 {
            Some("machine "@ + name + ": machine_label cannot be empty"@)
        } else {
            None
        }
    } else {
        Some("machine '"@ + name + "' not found in config"@)
    }
}

/// `machine` is what the settings make of a name.
pub open spec fn resolves(
    machine: ResolvedMachine,
    name: Seq<char>,
    config: MachineConfig,
    defaults: FleetDefaults,
) -> bool {
    &&& machine.name@ == name
    &&& machine.is_local == (config.local == Some(true))
    &&& machine.host@ == trimmed(text_or(config.host, name))
    &&& machine.machine_label@ == crate::text::folded(own_label(name, config))
    &&& machine.remote_repo_dir@ == first_text(
        config.remote_repo_dir,
        defaults.remote_repo_dir,
        "~/UBQ"@,
    )
    &&& machine.remote_runs_dir@ == first_text(
        config.remote_runs_dir,
        defaults.remote_runs_dir,
        "bench_results/runs"@,
    )
}

/// Fills in all machines; the first name that cannot be is reported.
pub fn resolve_machines(
    names: &Vec<String>,
    table: &Vec<NamedMachine>,
    defaults: &FleetDefaults,
) -> (result: Result<Vec<ResolvedMachine>, String>)
    ensures
        match result {
            Ok(machines) => {
                &&& machines@.len() == names@.len()
                &&& forall|i: int|
                    0 <= i < names@.len() ==> refusal(table@, (#[trigger] names@[i])@) is None
                        && exists|k: int|
                        #![trigger configured(table@, names@[i]@, k)]
                        configured(table@, names@[i]@, k) && resolves(
                            machines@[i],
                            names@[i]@,
                            table@[k].config,
                            *defaults,
                        )
            },
            Err(message) => exists|i: int|
                {
                    &&& 0 <= i < names@.len()
                    &&& refusal(table@, (#[trigger] names@[i])@) == Some(message@)
                    &&& forall|j: int|
                        0 <= j < i ==> refusal(table@, (#[trigger] names@[j])@) is None
                },
        },
{
    let mut machines: Vec<ResolvedMachine> = Vec::new();
    let mut i: usize = 0;
    while i < names.len()
        invariant
            i <= names@.len(),
            machines@.len() == i,
            forall|j: int|
                0 <= j < i ==> refusal(table@, (#[trigger] names@[j])@) is None && exists|k: int|
                    #![trigger configured(table@, names@[j]@, k)]
                    configured(table@, names@[j]@, k) && resolves(
                        machines@[j],
                        names@[j]@,
                        table@[k].config,
                        *defaults,
                    ),
        decreases names@.len() - i,
    {
        let ghost name = names@[i as int]@;
        let ghost done = machines@;
        let mut k: usize = 0;
        while k < table.len() && !same(table[k].name.as_str(), names[i].as_str())
            invariant
                i < names@.len(),
                name == names@[i as int]@,
                k <= table@.len(),
                forall|j: int| 0 <= j < k ==> (#[trigger] table@[j]).name@ != name,
            decreases table@.len() - k,
        {
            k = k + 1;
        }
        if k == table.len() {
            let mut message = "machine '".to_owned();
            message.append(names[i].as_str());
            message.append("' not found in config");
            assert(refusal(table@, name) == Some(message@));
            return Err(message);
        }
        assert(configured(table@, name, k as int));
        assert forall|j: int| configured(table@, name, j) implies j == k by {
            if j < k {
                assert(table@[j].name@ != name);
            } else if k < j {
                assert(table@[k as int].name@ != name);
            }
        }
        match resolve_machine(names[i].as_str(), defaults, &table[k].config) {
            Ok(machine) => {
                assert(resolves(machine, name, table@[k as int].config, *defaults));
                machines.push(machine);
                assert(forall|j: int| 0 <= j < i ==> machines@[j] == done[j]);
            },
            Err(message) => {
                assert(refusal(table@, name) == Some(message@));
                return Err(message);
            },
        }
        i = i + 1;
    }
    Ok(machines)
}

/// The commands to try for Python: the one that is set, else the usual names.
pub fn python_candidates(py_override: Option<&str>) -> (result: Result<Vec<String>, String>)
    ensures
        match result {
            Ok(list) => match py_override {
                Some(value) => trimmed(value@).len() > 0 && texts(list@) == seq![trimmed(value@)],
                None => texts(list@) == seq!["python3"@, "python"@],
            },
            Err(message) => (py_override matches Some(value) && trimmed(value@).len() == 0)
                && message@ == "PYTHON is set but empty"@,
        },
{
    let mut list: Vec<String> = Vec::new();
    match py_override {
        Some(value) => {
            let command = trim(value);
            if chars_of(command.as_str()).len() == 0 {
                return Err("PYTHON is set but empty".to_owned());
            }
            list.push(command);
            assert(texts(list@) =~= seq![trimmed(value@)]);
        },
        None => {
            list.push("python3".to_owned());
            list.push("python".to_owned());
            assert(texts(list@) =~= seq!["python3"@, "python"@]);
        },
    }
    Ok(list)
}

/// The first candidate that is there. `exists` says of each whether it is.
pub fn choose_python(py_override: Option<&str>, candidates: &Vec<String>, exists: &Vec<bool>) -> (
    result: Result<String, String>)
    requires
        candidates@.len() == exists@.len(),
    ensures
        match result {
            Ok(command) => exists|i: int|
                {
                    &&& 0 <= i < candidates@.len()
                    &&& #[trigger] exists@[i]
                    &&& command@ == candidates@[i]@
                    &&& forall|j: int| 0 <= j < i ==> !#[trigger] exists@[j]
                },
            Err(message) => {
                &&& forall|j: int| 0 <= j < exists@.len() ==> !#[trigger] exists@[j]
                &&& message@ == (match py_override {
                    Some(value) => "configured python command not found: "@ + trimmed(value@),
                    None => "missing required command: python3 or python"@,
                })
            },
        },
{
    let mut i: usize = 0;
    while i < candidates.len()
        invariant
            candidates@.len() == exists@.len(),
            i <= candidates@.len(),
            forall|j: int| 0 <= j < i ==> !#[trigger] exists@[j],
        decreases candidates@.len() - i,
    {
        if exists[i] {
            return Ok(candidates[i].clone());
        }
        i = i + 1;
    }
    match py_override {
        Some(value) => {
            let command = trim(value);
            let mut message = "configured python command not found: ".to_owned();
            message.append(command.as_str());
            Err(message)
        },
        None => Err("missing required command: python3 or python".to_owned()),
    }
}

/// The options that the fleet sets itself.
pub open spec fn protected_key(j: int) -> Seq<char> {
    if j == 0 {
        "--machine-label"@
    } else if j == 1 {
        "--runs-dir"@
    } else if j == 2 {
        "--repeats"@
    } else {
        "--dry-run"@
    }
}

/// An argument sets one of them.
pub open spec fn is_protected(arg: Seq<char>) -> bool {
    exists|j: int| 0 <= j < 4 && sets(arg, #[trigger] protected_key(j))
}

pub open spec fn any_protected(args: Seq<Seq<char>>) -> bool {
    exists|i: int| 0 <= i < args.len() && is_protected(#[trigger] args[i])
}

/// The machines that lists of names ask for.
pub open spec fn named_machines(machines: Seq<String>) -> Seq<Seq<char>> {
    distinct(folded_all(split(joined(texts(machines), ","@), ',')))
}

/// What is said of the first argument that sets one of them.
pub open spec fn refuses(message: Seq<char>, args: Seq<Seq<char>>, i: int, j: int) -> bool {
    &&& 0 <= i < args.len()
    &&& 0 <= j < 4
    &&& sets(args[i], protected_key(j))
    &&& message == protected_message(args[i], protected_key(j))
    &&& forall|k: int| 0 <= k < j ==> !sets(args[i], #[trigger] protected_key(k))
    &&& forall|m: int| 0 <= m < i ==> !is_protected(#[trigger] args[m])
}

proof fn lemma_refused(message: Seq<char>, args: Seq<Seq<char>>, i: int, j: int)
    requires
        refuses(message, args, i, j),
    ensures
        exists|i: int, j: int| #[trigger] refuses(message, args, i, j),
        any_protected(args),
{
    assert(is_protected(args[i]));
}

/// The options that must not be forwarded.
pub fn forbidden_frontier_args() -> (keys: Vec<&'static str>)
    ensures
        keys@ == seq!["--machine-label", "--runs-dir", "--repeats", "--dry-run"],
{
    let mut keys: Vec<&'static str> = Vec::new();
    keys.push("--machine-label");
    keys.push("--runs-dir");
    keys.push("--repeats");
    keys.push("--dry-run");
    keys
}

/// The machines that were asked for, unless an option is forwarded that the
/// fleet sets itself or no machine is named.
pub fn check_fleet_args(machines: &Vec<String>, frontier_args: &Vec<String>) -> (result: Result<
    Vec<String>,
    String,
>)
    ensures
        result is Ok <==> !any_protected(texts(frontier_args@)) && named_machines(machines@).len()
            > 0,
        result is Ok ==> texts(result->Ok_0@) == named_machines(machines@),
        any_protected(texts(frontier_args@)) ==> exists|i: int, j: int| #[trigger]
            refuses(result->Err_0@, texts(frontier_args@), i, j),
        result is Err && !any_protected(texts(frontier_args@)) ==> result->Err_0@
            == "--machines produced no valid machine names"@,
{
    let keys = forbidden_frontier_args();
    let ghost args = texts(frontier_args@);
    proof {
        assert forall|k: int| 0 <= k < 4 implies (#[trigger] keys@[k])@ == protected_key(k) by {}
    }
    match validate_forwarded_args(frontier_args.as_slice(), keys.as_slice()) {
        Ok(_) => {
            proof {
                assert forall|i: int| 0 <= i < args.len() implies !is_protected(
                    #[trigger] args[i],
                ) by {
                    assert forall|k: int| 0 <= k < 4 implies !sets(
                        args[i],
                        #[trigger] protected_key(k),
                    ) by {
                        assert(!sets(frontier_args@[i]@, keys@[k]@));
                    }
                }
            }
        },
        Err(message) => {
            proof {
                let (i, j) = choose|i: int, j: int|
                    {
                        &&& 0 <= i < frontier_args@.len()
                        &&& 0 <= j < keys@.len()
                        &&& sets(#[trigger] frontier_args@[i]@, #[trigger] keys@[j]@)
                        &&& message@ == protected_message(frontier_args@[i]@, keys@[j]@)
                        &&& forall|k: int|
                            0 <= k < j ==> !sets(frontier_args@[i]@, #[trigger] keys@[k]@)
                        &&& forall|m: int, k: int|
                            0 <= m < i && 0 <= k < keys@.len() ==> !sets(
                                #[trigger] frontier_args@[m]@,
                                #[trigger] keys@[k]@,
                            )
                    };
                assert(args[i] == frontier_args@[i]@);
                assert(sets(args[i], protected_key(j)));
                assert(is_protected(args[i]));
                assert forall|k: int| 0 <= k < j implies !sets(
                    args[i],
                    #[trigger] protected_key(k),
                ) by {
                    assert(!sets(frontier_args@[i]@, keys@[k]@));
                }
                assert forall|m: int| 0 <= m < i implies !is_protected(#[trigger] args[m]) by {
                    assert forall|k: int| 0 <= k < 4 implies !sets(
                        args[m],
                        #[trigger] protected_key(k),
                    ) by {
                        assert(!sets(frontier_args@[m]@, keys@[k]@));
                    }
                }
                lemma_refused(message@, texts(frontier_args@), i, j);
            }
            assert(exists|i: int, j: int| #[trigger] refuses(message@, texts(frontier_args@), i, j));
            let refusal: Result<Vec<String>, String> = Err(message);
            assert(refusal->Err_0@ == message@);
            assert(exists|i: int, j: int| #[trigger]
                refuses(refusal->Err_0@, texts(frontier_args@), i, j));
            return refusal;
        },
    }
    let raw = join(machines, ",");
    let names = normalize_machine_list(raw.as_str());
    assert(texts(names@).len() == names@.len());
    if names.len() == 0 {
        return Err("--machines produced no valid machine names".to_owned());
    }
    Ok(names)
}

/// A course in which every command succeeds: the repository and all dependencies
/// are copied, then a session that runs is followed and one that does not run is
/// started and followed, and at the end the results that are there are fetched.
pub proof fn law_a_course_without_failures(machine: ResolvedMachine, syncs: Seq<SyncParts>, i: usize)
    requires
        syncs.len() <= usize::MAX,
        i < syncs.len(),
    ensures
        first(true) == Step::SyncRepo,
        first(false) == Step::CheckSession,
        course(Step::SyncRepo, 0, machine, syncs) == Course::Do(Step::SyncDependency(0)),
        course(Step::SyncRepo, 0, machine, Seq::empty()) == Course::Do(Step::CheckSession),
        course(Step::SyncDependency(i), 0, machine, syncs) == Course::Do(
            if i + 1 < syncs.len() {
                Step::SyncDependency((i + 1) as usize)
            } else {
                Step::CheckSession
            },
        ),
        course(Step::CheckSession, 0, machine, syncs) == Course::Do(Step::CountResults),
        forall|code: i32|
            code != 0 ==> #[trigger] course(Step::CheckSession, code, machine, syncs) == Course::Do(
                Step::Launch,
            ),
        forall|code: i32| #[trigger]
            course(Step::CountResults, code, machine, syncs) == Course::Do(Step::Stream),
        course(Step::Launch, 0, machine, syncs) == Course::Do(Step::Stream),
        course(Step::Stream, 0, machine, syncs) == Course::Do(Step::ProbeRuns),
        course(Step::ProbeRuns, 0, machine, syncs) == Course::Do(Step::PullRuns),
        course(Step::ProbeRuns, 1, machine, syncs) == Course::DoneWithoutRuns,
        course(Step::PullRuns, 0, machine, syncs) == Course::Done,
{
}

/// A session that is started is the one that is looked for and followed, its log
/// is the one that is read, and the results that are counted and looked for are
/// those that are fetched, to the directory of the plan.
pub proof fn law_the_steps_speak_of_the_same_session(
    runtime: FleetRuntime,
    machine: ResolvedMachine,
    syncs: Seq<SyncParts>,
)
    ensures
        step_words(Step::CheckSession, runtime, machine, syncs)[2] == "tmux has-session -t "@
            + quoted("ubq_bench_"@ + safe_label(machine.machine_label@)) + " 2>/dev/null"@,
        step_words(Step::Launch, runtime, machine, syncs)[2] == "tmux new-session -d -s "@ + quoted(
            "ubq_bench_"@ + safe_label(machine.machine_label@),
        ) + " "@ + quoted(
            crate::tooling::commands::session_text(
                remote_payload(runtime, machine),
                log_word(machine),
            ),
        ),
        step_words(Step::Stream, runtime, machine, syncs)[2]
            == crate::tooling::commands::stream_text(
            quoted("ubq_bench_"@ + safe_label(machine.machine_label@)),
            log_word(machine),
        ),
        step_words(Step::ProbeRuns, runtime, machine, syncs)[2] == "test -d "@
            + crate::tooling::fleet::cd_argument(
            joined_path(machine.remote_repo_dir@, machine.remote_runs_dir@),
        ),
        step_words(Step::PullRuns, runtime, machine, syncs)[2] == machine.host@ + ":"@
            + crate::tooling::fleet::trim_end_slashes(
            joined_path(machine.remote_repo_dir@, machine.remote_runs_dir@),
        ) + "/"@,
        step_words(Step::PullRuns, runtime, machine, syncs)[3] == runtime.runs_dir@ + "/"@,
{
}

/// An argument is protected exactly if it is one of the four options that the
/// fleet sets itself, alone or with a value behind an equals sign.
pub proof fn law_protected_arguments(arg: Seq<char>)
    ensures
        is_protected(arg) <==> {
            ||| arg == "--machine-label"@ || crate::text::begins(arg, "--machine-label="@)
            ||| arg == "--runs-dir"@ || crate::text::begins(arg, "--runs-dir="@)
            ||| arg == "--repeats"@ || crate::text::begins(arg, "--repeats="@)
            ||| arg == "--dry-run"@ || crate::text::begins(arg, "--dry-run="@)
        },
{
    reveal_strlit("=");
    reveal_strlit("--machine-label");
    reveal_strlit("--machine-label=");
    reveal_strlit("--runs-dir");
    reveal_strlit("--runs-dir=");
    reveal_strlit("--repeats");
    reveal_strlit("--repeats=");
    reveal_strlit("--dry-run");
    reveal_strlit("--dry-run=");
    assert("--machine-label="@ =~= protected_key(0) + "="@);
    assert("--runs-dir="@ =~= protected_key(1) + "="@);
    assert("--repeats="@ =~= protected_key(2) + "="@);
    assert("--dry-run="@ =~= protected_key(3) + "="@);
    if is_protected(arg) {
        let j = choose|j: int| 0 <= j < 4 && sets(arg, #[trigger] protected_key(j));
        assert(j == 0 || j == 1 || j == 2 || j == 3);
    }
}

} // verus!
