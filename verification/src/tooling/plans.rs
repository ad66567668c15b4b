//! What the benchmark planners settle before anything runs, and what they say
//! of it.
use vstd::prelude::*;

use crate::bench::numbers::{insert_number, rising};
use crate::order::{ascending, insert};
use crate::text::{decimal, decimal_text, join, joined, same, texts};

verus! {

/// A scenario and the threads that it needs.
#[derive(Clone, Debug)]
pub struct PlanScenario {
    pub name: String,
    pub threads: usize,
}

/// The scenarios that a host can run, and the names of those that it cannot.
#[derive(Debug)]
pub struct SplitScenarios {
    pub runnable: Vec<PlanScenario>,
    pub skipped: Vec<String>,
}

/// A queue that a planner was asked for.
#[derive(Clone, Debug)]
pub struct PlanQueue {
    pub name: String,
    pub ubq: bool,
    pub baseline: bool,
}

/// The item counts that a scenario runs with.
#[derive(Clone, Debug)]
pub struct Bundle {
    pub scenario: String,
    pub items: Vec<u64>,
}

/// How many threads may run at once: what was asked for, else one per core
/// that was named, else what the host has. A host that cannot be asked stops
/// the planner even where cores were named.
pub open spec fn parallelism(
    requested: Option<usize>,
    cores: Option<usize>,
    detected: Result<usize, Seq<char>>,
) -> Result<usize, Seq<char>> {
    match requested {
        Some(n) => Ok(n),
        None => match detected {
            Err(message) => Err(message),
            Ok(host) => match cores {
                Some(n) => Ok(n),
                None => Ok(host),
            },
        },
    }
}

/// A result with its message as characters.
pub open spec fn with_text<T>(result: Result<T, String>) -> Result<T, Seq<char>> {
    match result {
        Ok(n) => Ok(n),
        Err(message) => Err(message@),
    }
}

/// How many threads may run at once. `cores` is how many cores were named.
pub fn available_parallelism(
    requested: Option<usize>,
    cores: Option<usize>,
    detected: Result<usize, String>,
) -> (available: Result<usize, String>)
    ensures
        with_text(available) == parallelism(requested, cores, with_text(detected)),
{
    match requested {
        Some(n) => Ok(n),
        None => match detected {
            Err(message) => Err(message),
            Ok(host) => match cores {
                Some(n) => Ok(n),
                None => Ok(host),
            },
        },
    }
}

/// A scenario as its name and its thread count.
pub open spec fn outline(scenarios: Seq<PlanScenario>) -> Seq<(Seq<char>, usize)> {
    scenarios.map_values(|s: PlanScenario| (s.name@, s.threads))
}

/// The scenarios with no more threads than `available`, in order.
pub open spec fn fitting(all: Seq<(Seq<char>, usize)>, available: usize) -> Seq<
    (Seq<char>, usize),
> {
    all.filter(|s: (Seq<char>, usize)| s.1 <= available)
}

/// The names of the scenarios with more threads than `available`, in order.
pub open spec fn too_wide(all: Seq<(Seq<char>, usize)>, available: usize) -> Seq<Seq<char>> {
    all.filter(|s: (Seq<char>, usize)| s.1 > available).map_values(
        |s: (Seq<char>, usize)| s.0,
    )
}

/// Parts the scenarios that a host can run from those that it cannot.
pub fn split_scenarios(all: &Vec<PlanScenario>, available: usize) -> (split: SplitScenarios)
    ensures
        outline(split.runnable@) == fitting(outline(all@), available),
        texts(split.skipped@) == too_wide(outline(all@), available),
{
    let ghost shape = outline(all@);
    let mut runnable: Vec<PlanScenario> = Vec::new();
    let mut skipped: Vec<String> = Vec::new();
    let mut i: usize = 0;
    proof {
        reveal(Seq::filter);
        assert(shape.take(0) =~= Seq::<(Seq<char>, usize)>::empty());
        assert(outline(runnable@) =~= fitting(shape.take(0), available));
        assert(texts(skipped@) =~= too_wide(shape.take(0), available));
    }
    while i < all.len()
        invariant
            shape == outline(all@),
            i <= all@.len(),
            outline(runnable@) == fitting(shape.take(i as int), available),
            texts(skipped@) == too_wide(shape.take(i as int), available),
        decreases all@.len() - i,
    {
        let ghost ran = runnable@;
        let ghost left = skipped@;
        let ghost here = (all@[i as int].name@, all@[i as int].threads);
        proof {
            reveal(Seq::filter);
            assert(shape.take(i + 1).drop_last() =~= shape.take(i as int));
            assert(shape.take(i + 1).last() == here);
        }
        let name = all[i].name.clone();
        let threads: usize = all[i].threads;
        if threads <= available {
            runnable.push(PlanScenario { name, threads });
            proof {
                assert(outline(runnable@) =~= outline(ran).push(here));
            }
        } else {
            skipped.push(name);
            proof {
                assert(texts(skipped@) =~= texts(left).push(here.0));
                assert(too_wide(shape.take(i + 1), available) =~= too_wide(
                    shape.take(i as int),
                    available,
                ).push(here.0));
            }
        }
        i = i + 1;
    }
    assert(shape.take(i as int) =~= shape);
    SplitScenarios { runnable, skipped }
}

/// No scenario is lost or run that does not fit.
pub proof fn law_split_is_complete(all: Seq<(Seq<char>, usize)>, available: usize)
    ensures
        fitting(all, available).len() + too_wide(all, available).len() == all.len(),
        forall|s: (Seq<char>, usize)| #[trigger]
            fitting(all, available).contains(s) <==> all.contains(s) && s.1 <= available,
    decreases all.len(),
{
    reveal(Seq::filter);
    if all.len() > 0 {
        let rest = all.drop_last();
        law_split_is_complete(rest, available);
        let last = all.last();
        assert(all =~= rest.push(last));
        let kept = fitting(rest, available);
        assert forall|s: (Seq<char>, usize)| #[trigger]
            fitting(all, available).contains(s) <==> all.contains(s) && s.1 <= available by {
            if rest.contains(s) {
                assert(all[rest.index_of(s)] == s);
            }
            if all.contains(s) && s != last {
                assert(rest[all.index_of(s)] == s);
            }
            if kept.contains(s) && last.1 <= available {
                assert(fitting(all, available)[kept.index_of(s)] == s);
            }
            if last.1 <= available {
                assert(fitting(all, available) == kept.push(last));
                assert(fitting(all, available)[kept.len() as int] == last);
                assert(all[rest.len() as int] == last);
                if fitting(all, available).contains(s) && s != last {
                    assert(kept[fitting(all, available).index_of(s)] == s);
                }
            }
        }
    }
}

/// Fails where no scenario is left.
pub fn check_runnable(split: &SplitScenarios) -> (result: Result<(), String>)
    ensures
        match result {
            Ok(_) => split.runnable@.len() > 0,
            Err(message) => split.runnable@.len() == 0 && message@
                == "no runnable scenarios remain for this machine"@,
        },
{
    if split.runnable.len() == 0 {
        Err("no runnable scenarios remain for this machine".to_owned())
    } else {
        Ok(())
    }
}

/// What is said of a scenario that a host cannot run.
pub open spec fn wide_text(name: Seq<char>, threads: usize, available: usize) -> Seq<char> {
    "scenario "@ + name + " requires "@ + decimal(threads as nat)
        + " threads but available_parallelism is "@ + decimal(available as nat)
}

/// What is said of a scenario that a host cannot run.
pub fn wide_message(scenario: &PlanScenario, available: usize) -> (text: String)
    ensures
        text@ == wide_text(scenario.name@, scenario.threads, available),
{
    let mut text = "scenario ".to_owned();
    text.append(scenario.name.as_str());
    text.append(" requires ");
    text.append(decimal_text(scenario.threads as u128).as_str());
    text.append(" threads but available_parallelism is ");
    text.append(decimal_text(available as u128).as_str());
    text
}

/// Why a frontier search cannot start.
pub open spec fn frontier_refusal(has_label: bool, seeds: nat, queues: Seq<PlanQueue>) -> Option<
    Seq<char>,
> {
    if !has_label {
        Some("--machine-label is required"@)
    } else if seeds == 0 {
        Some("at least one --seed-label is required"@)
    } else if !queues.any(|q: PlanQueue| q.ubq) {
        Some("frontier search requires ubq in --queues"@)
    } else if !queues.any(|q: PlanQueue| q.baseline) {
        Some("frontier search requires at least one baseline queue"@)
    } else {
        None
    }
}

/// The names of the baseline queues, in order.
pub open spec fn baselines(queues: Seq<PlanQueue>) -> Seq<Seq<char>> {
    queues.filter(|q: PlanQueue| q.baseline).map_values(|q: PlanQueue| q.name@)
}

/// The baseline queues of a frontier search, or why it cannot start.
pub fn check_frontier(
    has_label: bool,
    seeds: &Vec<String>,
    queues: &Vec<PlanQueue>,
) -> (result: Result<Vec<String>, String>)
    ensures
        match result {
            Ok(names) => frontier_refusal(has_label, seeds@.len(), queues@) is None && texts(names@)
                == baselines(queues@),
            Err(message) => frontier_refusal(has_label, seeds@.len(), queues@) == Some(message@),
        },
{
    if !has_label {
        return Err("--machine-label is required".to_owned());
    }
    if seeds.len() == 0 {
        return Err("at least one --seed-label is required".to_owned());
    }
    let ghost is_ubq = |q: PlanQueue| q.ubq;
    let ghost is_baseline = |q: PlanQueue| q.baseline;
    let mut ubq = false;
    let mut baseline = false;
    let mut names: Vec<String> = Vec::new();
    let mut i: usize = 0;
    proof {
        reveal(Seq::filter);
        assert(queues@.take(0) =~= Seq::<PlanQueue>::empty());
        assert(texts(names@) =~= baselines(queues@.take(0)));
    }
    while i < queues.len()
        invariant
            is_ubq == (|q: PlanQueue| q.ubq),
            is_baseline == (|q: PlanQueue| q.baseline),
            i <= queues@.len(),
            ubq == exists|k: int| 0 <= k < i && #[trigger] is_ubq(queues@[k]),
            baseline == exists|k: int| 0 <= k < i && #[trigger] is_baseline(queues@[k]),
            texts(names@) == baselines(queues@.take(i as int)),
        decreases queues@.len() - i,
    {
        let ghost before = names@;
        let ghost here = queues@[i as int];
        proof {
            reveal(Seq::filter);
            assert(queues@.take(i + 1).drop_last() =~= queues@.take(i as int));
            assert(queues@.take(i + 1).last() == here);
            assert(is_ubq(here) == here.ubq && is_baseline(here) == here.baseline);
        }
        if queues[i].ubq {
            ubq = true;
        }
        if queues[i].baseline {
            baseline = true;
            names.push(queues[i].name.clone());
            proof {
                assert(texts(names@) =~= texts(before).push(here.name@));
                assert(baselines(queues@.take(i + 1)) =~= baselines(queues@.take(i as int)).push(
                    here.name@,
                ));
            }
        }
        i = i + 1;
    }
    assert(queues@.take(i as int) =~= queues@);
    proof {
        assert(ubq == queues@.any(is_ubq)) by {
            if ubq {
                let k = choose|k: int| 0 <= k < i && #[trigger] is_ubq(queues@[k]);
                assert(is_ubq(queues@[k]));
            }
        }
        assert(baseline == queues@.any(is_baseline)) by {
            if baseline {
                let k = choose|k: int| 0 <= k < i && #[trigger] is_baseline(queues@[k]);
                assert(is_baseline(queues@[k]));
            }
        }
    }
    if !ubq {
        return Err("frontier search requires ubq in --queues".to_owned());
    }
    if !baseline {
        return Err("frontier search requires at least one baseline queue".to_owned());
    }
    Ok(names)
}

/// The names of the scenarios of a list of bundles.
pub open spec fn scenarios_of(bundles: Seq<Bundle>) -> Seq<Seq<char>> {
    bundles.map_values(|b: Bundle| b.scenario@)
}

/// Some bundle runs the scenario with this item count.
pub open spec fn runs_with(bundles: Seq<Bundle>, scenario: Seq<char>, count: u64) -> bool {
    exists|k: int|
        0 <= k < bundles.len() && (#[trigger] bundles[k]).scenario@ == scenario
            && bundles[k].items@.contains(count)
}

/// The item counts of all bundles, one entry for each scenario, in order and
/// without repetition.
pub fn items_by_scenario(bundles: &Vec<Bundle>) -> (list: Vec<Bundle>)
    ensures
        ascending(scenarios_of(list@)),
        forall|t: Seq<char>| #[trigger]
            scenarios_of(list@).contains(t) <==> scenarios_of(bundles@).contains(t),
        forall|i: int| 0 <= i < list@.len() ==> rising((#[trigger] list@[i]).items@),
        forall|i: int, v: u64|
            0 <= i < list@.len() ==> (#[trigger] list@[i].items@.contains(v) <==> runs_with(
                bundles@,
                list@[i].scenario@,
                v,
            )),
{
    let ghost given = scenarios_of(bundles@);
    let mut names: Vec<String> = Vec::new();
    let mut i: usize = 0;
    assert(texts(names@) =~= Seq::<Seq<char>>::empty());
    while i < bundles.len()
        invariant
            given == scenarios_of(bundles@),
            i <= bundles@.len(),
            ascending(texts(names@)),
            forall|t: Seq<char>| #[trigger]
                texts(names@).contains(t) <==> exists|k: int| 0 <= k < i && given[k] == t,
        decreases bundles@.len() - i,
    {
        assert(given[i as int] == bundles@[i as int].scenario@);
        insert(&mut names, bundles[i].scenario.clone());
        i = i + 1;
    }
    let ghost sorted = texts(names@);
    let mut list: Vec<Bundle> = Vec::new();
    let mut i: usize = 0;
    while i < names.len()
        invariant
            sorted == texts(names@),
            i <= names@.len(),
            list@.len() == i,
            forall|j: int| 0 <= j < i ==> (#[trigger] list@[j]).scenario@ == sorted[j],
            forall|j: int| 0 <= j < i ==> rising((#[trigger] list@[j]).items@),
            forall|j: int, v: u64|
                0 <= j < i ==> (#[trigger] list@[j].items@.contains(v) <==> runs_with(
                    bundles@,
                    list@[j].scenario@,
                    v,
                )),
        decreases names@.len() - i,
    {
        assert(sorted[i as int] == names@[i as int]@);
        let scenario = names[i].clone();
        let items = items_of(bundles, scenario.as_str());
        list.push(Bundle { scenario, items });
        i = i + 1;
    }
    assert(scenarios_of(list@) =~= sorted);
    list
}

/// The item counts of one scenario, in order and without repetition.
fn items_of(bundles: &Vec<Bundle>, scenario: &str) -> (items: Vec<u64>)
    ensures
        rising(items@),
        forall|v: u64| #[trigger] items@.contains(v) <==> runs_with(bundles@, scenario@, v),
{
    let mut items: Vec<u64> = Vec::new();
    let mut i: usize = 0;
    assert(bundles@.take(0) =~= Seq::<Bundle>::empty());
    while i < bundles.len()
        invariant
            i <= bundles@.len(),
            rising(items@),
            forall|v: u64| #[trigger]
                items@.contains(v) <==> runs_with(bundles@.take(i as int), scenario@, v),
        decreases bundles@.len() - i,
    {
        let ghost seen = bundles@.take(i as int);
        let ghost here = bundles@[i as int];
        let ghost before = items@;
        let wanted = same(bundles[i].scenario.as_str(), scenario);
        if wanted {
            let mut j: usize = 0;
            while j < bundles[i].items.len()
                invariant
                    i < bundles@.len(),
                    here == bundles@[i as int],
                    j <= here.items@.len(),
                    rising(items@),
                    forall|v: u64| #[trigger]
                        items@.contains(v) <==> before.contains(v) || exists|k: int|
                            0 <= k < j && here.items@[k] == v,
                decreases here.items@.len() - j,
            {
                insert_number(&mut items, bundles[i].items[j]);
                j = j + 1;
            }
        }
        proof {
            let next = bundles@.take(i + 1);
            assert forall|v: u64| #[trigger] items@.contains(v) <==> runs_with(
                next,
                scenario@,
                v,
            ) by {
                if runs_with(seen, scenario@, v) {
                    let k = choose|k: int|
                        0 <= k < seen.len() && (#[trigger] seen[k]).scenario@ == scenario@
                            && seen[k].items@.contains(v);
                    assert(next[k] == seen[k]);
                }
                if wanted && here.items@.contains(v) {
                    assert(next[i as int] == here);
                }
                if runs_with(next, scenario@, v) {
                    let k = choose|k: int|
                        0 <= k < next.len() && (#[trigger] next[k]).scenario@ == scenario@
                            && next[k].items@.contains(v);
                    if k < i {
                        assert(seen[k] == next[k]);
                    } else {
                        let m = here.items@.index_of(v);
                        assert(here.items@[m] == v);
                    }
                }
            }
        }
        i = i + 1;
    }
    assert(bundles@.take(i as int) =~= bundles@);
    items
}

/// Numbers in decimal digits.
pub open spec fn decimals(values: Seq<u64>) -> Seq<Seq<char>> {
    values.map_values(|v: u64| decimal(v as nat))
}

fn decimal_texts(values: &Vec<u64>) -> (list: Vec<String>)
    ensures
        texts(list@) == decimals(values@),
{
    let mut list: Vec<String> = Vec::new();
    let mut i: usize = 0;
    while i < values.len()
        invariant
            i <= values@.len(),
            list@.len() == i,
            forall|j: int| 0 <= j < i ==> #[trigger] list@[j]@ == decimal(values@[j] as nat),
        decreases values@.len() - i,
    {
        list.push(decimal_text(values[i] as u128));
        i = i + 1;
    }
    assert(texts(list@) =~= decimals(values@));
    list
}

/// A scenario, an equals sign and its item counts with strokes between them.
pub open spec fn bundle_text(bundle: Bundle) -> Seq<char> {
    bundle.scenario@ + "="@ + joined(decimals(bundle.items@), "/"@)
}

/// The item counts of all scenarios on one line.
pub open spec fn bundles_text(list: Seq<Bundle>) -> Seq<char> {
    joined(list.map_values(|b: Bundle| bundle_text(b)), ", "@)
}

/// The item counts of all scenarios on one line.
pub fn items_text(list: &Vec<Bundle>) -> (text: String)
    ensures
        text@ == bundles_text(list@),
{
    let mut parts: Vec<String> = Vec::new();
    let mut i: usize = 0;
    while i < list.len()
        invariant
            i <= list@.len(),
            parts@.len() == i,
            forall|j: int| 0 <= j < i ==> #[trigger] parts@[j]@ == bundle_text(list@[j]),
        decreases list@.len() - i,
    {
        let mut part = list[i].scenario.clone();
        part.append("=");
        let counts = decimal_texts(&list[i].items);
        part.append(join(&counts, "/").as_str());
        parts.push(part);
        i = i + 1;
    }
    assert(texts(parts@) =~= list@.map_values(|b: Bundle| bundle_text(b)));
    join(&parts, ", ")
}

/// What a grid run says before it starts. `items` holds one bundle for each
/// scenario; `variants` counts the configurations of the queue.
pub struct GridReport {
    pub machine_label: String,
    pub runs_dir: String,
    pub available: usize,
    pub core_placement: String,
    pub item_policy: String,
    pub items: Vec<Bundle>,
    pub includes_ubq: bool,
    pub variants: usize,
    pub batch_sizes: Vec<u64>,
    pub rerun: bool,
    pub skipped: Vec<String>,
}

/// The lines on the configurations of the queue.
pub open spec fn variant_lines(variants: usize, batches: nat) -> Seq<Seq<char>> {
    seq![
        "static UBQ variants: page-derived ("@ + decimal(variants as nat)
            + " backoff configurations before constraints)"@,
        "throughput variants per UBQ configuration: "@ + decimal(batches + 1)
            + " (scalar-compatible + "@ + decimal(batches) + " batch sizes)"@,
    ]
}

/// All lines of a grid run's report.
pub open spec fn grid_lines(report: GridReport) -> Seq<Seq<char>> {
    seq![
        "machine: "@ + report.machine_label@,
        "runs dir: "@ + report.runs_dir@,
        "available parallelism: "@ + decimal(report.available as nat),
        "core placement: "@ + report.core_placement@,
        "item policy: "@ + report.item_policy@,
        "items per producer by scenario: "@ + bundles_text(report.items@),
    ] + (if report.includes_ubq {
        variant_lines(report.variants, report.batch_sizes@.len())
    } else {
        Seq::empty()
    }) + seq![
        "queue batch sizes (UBQ/LUBQ/SegQueue): "@ + joined(decimals(report.batch_sizes@), ","@),
        "existing data: "@ + (if report.rerun {
            "ignored (--rerun)"@
        } else {
            "reused"@
        }),
    ] + (if report.skipped@.len() > 0 {
        seq![
            "skipping scenarios above available_parallelism: "@ + joined(
                texts(report.skipped@),
                ", "@,
            ),
        ]
    } else {
        Seq::empty()
    })
}

fn labelled(label: &str, value: &str) -> (line: String)
    ensures
        line@ == label@ + value@,
{
    let mut line = label.to_owned();
    line.append(value);
    line
}

/// The lines of a grid run's report.
pub fn grid_report(report: &GridReport) -> (lines: Vec<String>)
    ensures
        texts(lines@) == grid_lines(*report),
{
    let mut lines: Vec<String> = Vec::new();
    lines.push(labelled("machine: ", report.machine_label.as_str()));
    lines.push(labelled("runs dir: ", report.runs_dir.as_str()));
    lines.push(
        labelled("available parallelism: ", decimal_text(report.available as u128).as_str()),
    );
    lines.push(labelled("core placement: ", report.core_placement.as_str()));
    lines.push(labelled("item policy: ", report.item_policy.as_str()));
    lines.push(labelled("items per producer by scenario: ", items_text(&report.items).as_str()));
    if report.includes_ubq {
        let mut line = labelled(
            "static UBQ variants: page-derived (",
            decimal_text(report.variants as u128).as_str(),
        );
        line.append(" backoff configurations before constraints)");
        lines.push(line);
        let batches: u128 = report.batch_sizes.len() as u128;
        let mut line = labelled(
            "throughput variants per UBQ configuration: ",
            decimal_text(batches + 1).as_str(),
        );
        line.append(" (scalar-compatible + ");
        line.append(decimal_text(batches).as_str());
        line.append(" batch sizes)");
        lines.push(line);
    }
    let sizes = decimal_texts(&report.batch_sizes);
    lines.push(labelled("queue batch sizes (UBQ/LUBQ/SegQueue): ", join(&sizes, ",").as_str()));
    if report.rerun {
        lines.push(labelled("existing data: ", "ignored (--rerun)"));
    } else {
        lines.push(labelled("existing data: ", "reused"));
    }
    if report.skipped.len() > 0 {
        lines.push(
            labelled(
                "skipping scenarios above available_parallelism: ",
                join(&report.skipped, ", ").as_str(),
            ),
        );
    }
    assert(texts(lines@) =~= grid_lines(*report));
    lines
}

/// The tool that a run belongs to.
#[derive(Clone, Copy, Debug, PartialEq, Eq, Structural)]
pub enum PlanTool {
    Grid,
    Matrix,
}

/// Why a run failed: the job that crashed, where one did.
pub open spec fn run_failure(
    tool: PlanTool,
    crashed: Option<(Seq<char>, Seq<char>)>,
    success: bool,
) -> Option<Seq<char>> {
    match crashed {
        Some(job) => Some(
            (match tool {
                PlanTool::Grid => "scheduler crashed while running ("@,
                PlanTool::Matrix => "bench_matrix: scheduler crashed while running ("@,
            }) + job.0 + ", scenario="@ + job.1 + ")"@,
        ),
        None => if success {
            None
        } else {
            Some(
                match tool {
                    PlanTool::Grid => "scheduler failed; check stderr for details"@,
                    PlanTool::Matrix => "bench_matrix: scheduler crashed; check stderr for details"@,
                },
            )
        },
    }
}

/// Whether a run succeeded. `crashed` is the queue label and the scenario of
/// the job that crashed.
pub fn check_run(tool: PlanTool, crashed: Option<(&str, &str)>, success: bool) -> (result: Result<
    (),
    String,
>)
    ensures
        ({
            let job = match crashed {
                Some(job) => Some((job.0@, job.1@)),
                None => None,
            };
            match result {
                Ok(_) => run_failure(tool, job, success) is None,
                Err(message) => run_failure(tool, job, success) == Some(message@),
            }
        }),
{
    if let Some((label, scenario)) = crashed {
        let mut message = match tool {
            PlanTool::Grid => "scheduler crashed while running (".to_owned(),
            PlanTool::Matrix => "bench_matrix: scheduler crashed while running (".to_owned(),
        };
        message.append(label);
        message.append(", scenario=");
        message.append(scenario);
        message.append(")");
        return Err(message);
    }
    if !success {
        return Err(
            match tool {
                PlanTool::Grid => "scheduler failed; check stderr for details".to_owned(),
                PlanTool::Matrix => {
                    "bench_matrix: scheduler crashed; check stderr for details".to_owned()
                },
            },
        );
    }
    Ok(())
}

/// As many threads run at once as were asked for. Where none were asked for, the
/// cores that were named count, and else what the host has; a host that cannot be
/// asked then stops the planner.
pub proof fn law_what_was_asked_for_comes_first(
    requested: Option<usize>,
    cores: Option<usize>,
    detected: Result<usize, Seq<char>>,
)
    ensures
        requested is Some ==> parallelism(requested, cores, detected) == Ok::<usize, Seq<char>>(
            requested->0,
        ),
        requested is None && detected is Ok && cores is Some ==> parallelism(
            requested,
            cores,
            detected,
        ) == Ok::<usize, Seq<char>>(cores->0),
        requested is None && detected is Ok && cores is None ==> parallelism(
            requested,
            cores,
            detected,
        ) == detected,
        requested is None && detected is Err ==> parallelism(requested, cores, detected)
            == detected,
{
}

/// A search starts exactly with a machine label, a seed, the queue that is
/// searched and a queue to compare it with, and compares it with all of these.
pub proof fn law_a_search_needs_something_to_compare(
    has_label: bool,
    seeds: nat,
    queues: Seq<PlanQueue>,
    k: int,
)
    ensures
        frontier_refusal(has_label, seeds, queues) is None <==> {
            &&& has_label
            &&& seeds > 0
            &&& exists|i: int| 0 <= i < queues.len() && (#[trigger] queues[i]).ubq
            &&& exists|i: int| 0 <= i < queues.len() && (#[trigger] queues[i]).baseline
        },
        0 <= k < queues.len() && queues[k].baseline ==> baselines(queues).contains(
            queues[k].name@,
        ),
{
    let is_ubq = |q: PlanQueue| q.ubq;
    let is_baseline = |q: PlanQueue| q.baseline;
    if exists|i: int| 0 <= i < queues.len() && (#[trigger] queues[i]).ubq {
        let i = choose|i: int| 0 <= i < queues.len() && (#[trigger] queues[i]).ubq;
        assert(is_ubq(queues[i]));
        assert(queues.any(is_ubq));
    }
    if exists|i: int| 0 <= i < queues.len() && (#[trigger] queues[i]).baseline {
        let i = choose|i: int| 0 <= i < queues.len() && (#[trigger] queues[i]).baseline;
        assert(is_baseline(queues[i]));
        assert(queues.any(is_baseline));
    }
    if queues.any(is_ubq) {
        let i = choose|i: int| 0 <= i < queues.len() && is_ubq(#[trigger] queues[i]);
        assert(queues[i].ubq);
    }
    if queues.any(is_baseline) {
        let i = choose|i: int| 0 <= i < queues.len() && is_baseline(#[trigger] queues[i]);
        assert(queues[i].baseline);
    }
    if 0 <= k < queues.len() && queues[k].baseline {
        broadcast use vstd::seq_lib::group_filter_ensures;
        let kept = queues.filter(is_baseline);
        assert(is_baseline(queues[k]));
        assert(kept.contains(queues[k]));
        let m = kept.index_of(queues[k]);
        assert(baselines(queues)[m] == queues[k].name@);
    }
}

/// A run counts as a success exactly if no job crashed and the scheduler says so.
pub proof fn law_a_crash_is_a_failure(
    tool: PlanTool,
    crashed: Option<(Seq<char>, Seq<char>)>,
    success: bool,
)
    ensures
        run_failure(tool, crashed, success) is None <==> crashed is None && success,
{
}

} // verus!
