//! The command lines that a fleet of machines is driven with.
use vstd::prelude::*;

use crate::text::{
    decimal, decimal_text, fold, folded, join, joined, push_char, same, texts, trim, trimmed,
};
use crate::tooling::fleet::{
    cd_argument, command_line, format_cmd, normalize_machine, quoted, remote_cd_expr, shell_quote,
    trim_end_slashes, without_trailing_slashes,
};

verus! {

/// What the configuration file says for all machines.
#[derive(Clone, Debug)]
pub struct FleetDefaults {
    pub runs_dir: Option<String>,
    pub plot_out_dir: Option<String>,
    pub remote_repo_dir: Option<String>,
    pub remote_runs_dir: Option<String>,
    pub scenarios: Option<Vec<String>>,
    pub queues: Option<Vec<String>>,
    pub modes: Option<Vec<String>>,
    pub items_per_producer: Option<Vec<u64>>,
    pub repeats: Option<usize>,
    pub ubq_labels: Option<Vec<String>>,
    pub fastfifo_block_sizes: Option<Vec<usize>>,
    pub lfqueue_segment_sizes: Option<Vec<usize>>,
    pub wcq_capacities: Option<Vec<usize>>,
}

/// What the configuration file says for one machine.
#[derive(Clone, Debug)]
pub struct MachineConfig {
    pub local: Option<bool>,
    pub host: Option<String>,
    pub machine_label: Option<String>,
    pub remote_repo_dir: Option<String>,
    pub remote_runs_dir: Option<String>,
}

/// One machine with everything filled in.
#[derive(Clone, Debug)]
pub struct ResolvedMachine {
    pub name: String,
    pub is_local: bool,
    pub host: String,
    pub machine_label: String,
    pub remote_repo_dir: String,
    pub remote_runs_dir: String,
}

/// The plan that all machines follow.
#[derive(Clone, Debug)]
pub struct FleetRuntime {
    pub runs_dir: String,
    pub plot_out_dir: String,
    pub scenarios: Vec<String>,
    pub queues: Vec<String>,
    pub modes: Vec<String>,
    pub items_per_producer: Vec<u64>,
    pub repeats: usize,
    pub ubq_labels: Vec<String>,
    pub fastfifo_block_sizes: Vec<usize>,
    pub lfqueue_segment_sizes: Vec<usize>,
    pub wcq_capacities: Vec<usize>,
    pub sync_repo: bool,
    pub dry_run: bool,
    pub frontier_args: Vec<String>,
}

/// The text, `other` if there is none.
pub open spec fn text_or(value: Option<String>, other: Seq<char>) -> Seq<char> {
    match value {
        Some(text) => text@,
        None => other,
    }
}

fn copy_or(value: &Option<String>, other: &str) -> (text: String)
    ensures
        text@ == text_or(*value, other@),
{
    match value {
        Some(text) => text.clone(),
        None => other.to_owned(),
    }
}

/// The first text that is there.
pub open spec fn first_text(a: Option<String>, b: Option<String>, other: Seq<char>) -> Seq<char> {
    match a {
        Some(text) => text@,
        None => text_or(b, other),
    }
}

fn copy_first(a: &Option<String>, b: &Option<String>, other: &str) -> (text: String)
    ensures
        text@ == first_text(*a, *b, other@),
{
    match a {
        Some(text) => text.clone(),
        None => copy_or(b, other),
    }
}

/// The label of a machine before it is normalized.
pub open spec fn own_label(name: Seq<char>, config: MachineConfig) -> Seq<char> {
    trimmed(text_or(config.machine_label, name))
}

/// Fills in a machine: its own settings, then the settings for all machines,
/// then what is usual. A blank label is refused.
pub fn resolve_machine(
    name: &str,
    defaults: &FleetDefaults,
    machine_cfg: &MachineConfig,
) -> (result: Result<ResolvedMachine, String>)
    ensures
        match result {
            Ok(machine) => {
                &&& own_label(name@, *machine_cfg).len() > 0
                &&& machine.name@ == name@
                &&& machine.is_local == (machine_cfg.local == Some(true))
                &&& machine.host@ == trimmed(text_or(machine_cfg.host, name@))
                &&& machine.machine_label@ == folded(own_label(name@, *machine_cfg))
                &&& machine.remote_repo_dir@ == first_text(
                    machine_cfg.remote_repo_dir,
                    defaults.remote_repo_dir,
                    "~/UBQ"@,
                )
                &&& machine.remote_runs_dir@ == first_text(
                    machine_cfg.remote_runs_dir,
                    defaults.remote_runs_dir,
                    "bench_results/runs"@,
                )
            },
            Err(message) => {
                &&& own_label(name@, *machine_cfg).len() == 0
                &&& message@ == "machine "@ + name@ + ": machine_label cannot be empty"@
            },
        },
{
    let is_local = match machine_cfg.local {
        Some(local) => local,
        None => false,
    };
    let host = copy_or(&machine_cfg.host, name);
    let label = copy_or(&machine_cfg.machine_label, name);
    let machine_label = trim(label.as_str());
    if crate::text::chars_of(machine_label.as_str()).len() == 0 {
        let mut message = "machine ".to_owned();
        message.append(name);
        message.append(": machine_label cannot be empty");
        return Err(message);
    }
    Ok(
        ResolvedMachine {
            name: name.to_owned(),
            is_local,
            host: trim(host.as_str()),
            machine_label: normalize_machine(machine_label.as_str()),
            remote_repo_dir: copy_first(
                &machine_cfg.remote_repo_dir,
                &defaults.remote_repo_dir,
                "~/UBQ",
            ),
            remote_runs_dir: copy_first(
                &machine_cfg.remote_runs_dir,
                &defaults.remote_runs_dir,
                "bench_results/runs",
            ),
        },
    )
}

/// A copy of a list of strings.
pub(crate) fn copy_texts(list: &Vec<String>) -> (copy: Vec<String>)
    ensures
        texts(copy@) == texts(list@),
{
    let mut copy: Vec<String> = Vec::new();
    let mut i: usize = 0;
    while i < list.len()
        invariant
            i <= list@.len(),
            copy@.len() == i,
            forall|j: int| 0 <= j < i ==> #[trigger] copy@[j]@ == list@[j]@,
        decreases list@.len() - i,
    {
        copy.push(list[i].clone());
        i = i + 1;
    }
    assert(texts(copy@) =~= texts(list@));
    copy
}

fn copy_numbers(list: &Vec<usize>) -> (copy: Vec<usize>)
    ensures
        copy@ == list@,
{
    let mut copy: Vec<usize> = Vec::new();
    let mut i: usize = 0;
    while i < list.len()
        invariant
            i <= list@.len(),
            copy@ == list@.take(i as int),
        decreases list@.len() - i,
    {
        copy.push(list[i]);
        assert(list@.take(i + 1) =~= list@.take(i as int).push(list@[i as int]));
        i = i + 1;
    }
    assert(list@.take(i as int) =~= list@);
    copy
}

fn copy_counts(list: &Vec<u64>) -> (copy: Vec<u64>)
    ensures
        copy@ == list@,
{
    let mut copy: Vec<u64> = Vec::new();
    let mut i: usize = 0;
    while i < list.len()
        invariant
            i <= list@.len(),
            copy@ == list@.take(i as int),
        decreases list@.len() - i,
    {
        copy.push(list[i]);
        assert(list@.take(i + 1) =~= list@.take(i as int).push(list@[i as int]));
        i = i + 1;
    }
    assert(list@.take(i as int) =~= list@);
    copy
}

/// The list, `other` if there is none.
pub open spec fn texts_or(value: Option<Vec<String>>, other: Seq<Seq<char>>) -> Seq<Seq<char>> {
    match value {
        Some(list) => texts(list@),
        None => other,
    }
}

/// The numbers, `other` if there are none.
pub open spec fn numbers_or(value: Option<Vec<usize>>, other: Seq<usize>) -> Seq<usize> {
    match value {
        Some(list) => list@,
        None => other,
    }
}

fn copy_numbers_or(value: &Option<Vec<usize>>, other: Vec<usize>) -> (list: Vec<usize>)
    ensures
        list@ == numbers_or(*value, other@),
{
    match value {
        Some(list) => copy_numbers(list),
        None => other,
    }
}

/// The plan that a configuration and the command line ask for.
pub fn fleet_runtime(
    defaults: &FleetDefaults,
    repeats: Option<usize>,
    no_sync_repo: bool,
    dry_run: bool,
    frontier_args: &Vec<String>,
) -> (runtime: FleetRuntime)
    ensures
        runtime.runs_dir@ == text_or(defaults.runs_dir, "bench_results/runs"@),
        runtime.plot_out_dir@ == text_or(defaults.plot_out_dir, "bench_results/plots"@),
        texts(runtime.scenarios@) == texts_or(defaults.scenarios, Seq::empty()),
        texts(runtime.queues@) == texts_or(
            defaults.queues,
            seq!["ubq"@, "segqueue"@, "concurrent-queue"@],
        ),
        texts(runtime.modes@) == texts_or(defaults.modes, seq!["throughput"@]),
        runtime.items_per_producer@ == (match defaults.items_per_producer {
            Some(list) => list@,
            None => seq![1_000_000u64],
        }),
        runtime.repeats == (match repeats {
            Some(count) => count,
            None => match defaults.repeats {
                Some(count) => count,
                None => 1,
            },
        }),
        texts(runtime.ubq_labels@) == texts_or(defaults.ubq_labels, Seq::empty()),
        runtime.fastfifo_block_sizes@ == numbers_or(
            defaults.fastfifo_block_sizes,
            seq![64usize, 256, 1024, 4096],
        ),
        runtime.lfqueue_segment_sizes@ == numbers_or(
            defaults.lfqueue_segment_sizes,
            seq![32usize, 256, 1024],
        ),
        runtime.wcq_capacities@ == numbers_or(
            defaults.wcq_capacities,
            seq![4096usize, 65536, 1048576],
        ),
        runtime.sync_repo == !no_sync_repo,
        runtime.dry_run == dry_run,
        texts(runtime.frontier_args@) == texts(frontier_args@),
{
    let scenarios = match &defaults.scenarios {
        Some(list) => copy_texts(list),
        None => Vec::new(),
    };
    let queues = match &defaults.queues {
        Some(list) => copy_texts(list),
        None => {
            let mut list: Vec<String> = Vec::new();
            list.push("ubq".to_owned());
            list.push("segqueue".to_owned());
            list.push("concurrent-queue".to_owned());
            assert(texts(list@) =~= seq!["ubq"@, "segqueue"@, "concurrent-queue"@]);
            list
        },
    };
    let modes = match &defaults.modes {
        Some(list) => copy_texts(list),
        None => {
            let mut list: Vec<String> = Vec::new();
            list.push("throughput".to_owned());
            assert(texts(list@) =~= seq!["throughput"@]);
            list
        },
    };
    let items_per_producer = match &defaults.items_per_producer {
        Some(list) => copy_counts(list),
        None => vec![1_000_000],
    };
    let repeats: usize = match repeats {
        Some(count) => count,
        None => match defaults.repeats {
            Some(count) => count,
            None => 1,
        },
    };
    let ubq_labels = match &defaults.ubq_labels {
        Some(list) => copy_texts(list),
        None => Vec::new(),
    };
    FleetRuntime {
        runs_dir: copy_or(&defaults.runs_dir, "bench_results/runs"),
        plot_out_dir: copy_or(&defaults.plot_out_dir, "bench_results/plots"),
        scenarios,
        queues,
        modes,
        items_per_producer,
        repeats,
        ubq_labels,
        fastfifo_block_sizes: copy_numbers_or(
            &defaults.fastfifo_block_sizes,
            vec![64, 256, 1024, 4096],
        ),
        lfqueue_segment_sizes: copy_numbers_or(&defaults.lfqueue_segment_sizes, vec![32, 256, 1024]),
        wcq_capacities: copy_numbers_or(&defaults.wcq_capacities, vec![4096, 65536, 1048576]),
        sync_repo: !no_sync_repo,
        dry_run,
        frontier_args: copy_texts(frontier_args),
    }
}

/// Appends a word to a command.
pub(crate) fn push_word(cmd: &mut Vec<String>, word: &str)
    ensures
        texts(final(cmd)@) == texts(old(cmd)@).push(word@),
{
    let ghost before = texts(cmd@);
    cmd.push(word.to_owned());
    assert(texts(cmd@) =~= before.push(word@));
}

/// Appends words to a command.
pub(crate) fn push_words(cmd: &mut Vec<String>, words: &[&str])
    ensures
        texts(final(cmd)@) == texts(old(cmd)@) + word_views(words@),
{
    let ghost before = texts(cmd@);
    let ghost all = word_views(words@);
    let mut i: usize = 0;
    assert(before + all.take(0) =~= before);
    while i < words.len()
        invariant
            all == word_views(words@),
            i <= words@.len(),
            texts(cmd@) == before + all.take(i as int),
        decreases words@.len() - i,
    {
        push_word(cmd, words[i]);
        assert(before + all.take(i + 1) =~= (before + all.take(i as int)).push(all[i as int]));
        i = i + 1;
    }
    assert(all.take(i as int) =~= all);
}

/// The words of a list of literals.
pub open spec fn word_views(words: Seq<&str>) -> Seq<Seq<char>> {
    words.map_values(|word: &str| word@)
}

/// An option with its value.
pub open spec fn option_words(flag: Seq<char>, value: Seq<char>) -> Seq<Seq<char>> {
    seq![flag, value]
}

/// An option with a list, left out for an empty list.
pub open spec fn list_option(flag: Seq<char>, list: Seq<Seq<char>>) -> Seq<Seq<char>> {
    if list.len() == 0 {
        Seq::empty()
    } else {
        option_words(flag, joined(list, ","@))
    }
}

/// Numbers in decimal notation.
pub open spec fn number_texts(list: Seq<usize>) -> Seq<Seq<char>> {
    list.map_values(|n: usize| decimal(n as nat))
}

/// Numbers in decimal notation.
pub open spec fn count_texts(list: Seq<u64>) -> Seq<Seq<char>> {
    list.map_values(|n: u64| decimal(n as nat))
}

fn push_list_option(cmd: &mut Vec<String>, flag: &str, list: &Vec<String>)
    ensures
        texts(final(cmd)@) == texts(old(cmd)@) + list_option(flag@, texts(list@)),
{
    let ghost before = texts(cmd@);
    if list.len() > 0 {
        push_word(cmd, flag);
        let value = join(list, ",");
        push_word(cmd, value.as_str());
        assert(texts(list@).len() > 0);
    } else {
        assert(texts(list@).len() == 0);
    }
    assert(texts(cmd@) =~= before + list_option(flag@, texts(list@)));
}

fn push_number_option(cmd: &mut Vec<String>, flag: &str, list: &Vec<usize>)
    ensures
        texts(final(cmd)@) == texts(old(cmd)@) + list_option(flag@, number_texts(list@)),
{
    let mut words: Vec<String> = Vec::new();
    let mut i: usize = 0;
    while i < list.len()
        invariant
            i <= list@.len(),
            words@.len() == i,
            forall|j: int| 0 <= j < i ==> #[trigger] words@[j]@ == decimal(list@[j] as nat),
        decreases list@.len() - i,
    {
        words.push(decimal_text(list[i] as u128));
        i = i + 1;
    }
    assert(texts(words@) =~= number_texts(list@));
    push_list_option(cmd, flag, &words);
}

fn push_count_option(cmd: &mut Vec<String>, flag: &str, list: &Vec<u64>)
    ensures
        texts(final(cmd)@) == texts(old(cmd)@) + list_option(flag@, count_texts(list@)),
{
    let mut words: Vec<String> = Vec::new();
    let mut i: usize = 0;
    while i < list.len()
        invariant
            i <= list@.len(),
            words@.len() == i,
            forall|j: int| 0 <= j < i ==> #[trigger] words@[j]@ == decimal(list@[j] as nat),
        decreases list@.len() - i,
    {
        words.push(decimal_text(list[i] as u128));
        i = i + 1;
    }
    assert(texts(words@) =~= count_texts(list@));
    push_list_option(cmd, flag, &words);
}

/// The same option once for each value.
pub open spec fn repeated_option(flag: Seq<char>, values: Seq<Seq<char>>) -> Seq<Seq<char>>
    decreases values.len(),
{
    if values.len() == 0 {
        Seq::empty()
    } else {
        repeated_option(flag, values.drop_last()) + option_words(flag, values.last())
    }
}

/// The arguments of the search on one machine.
pub open spec fn frontier_words(
    runtime: FleetRuntime,
    machine_label: Seq<char>,
    runs_dir: Seq<char>,
) -> Seq<Seq<char>> {
    option_words("--machine-label"@, machine_label) + option_words("--runs-dir"@, runs_dir)
        + list_option("--scenarios"@, texts(runtime.scenarios@)) + list_option(
        "--queues"@,
        texts(runtime.queues@),
    ) + list_option("--modes"@, texts(runtime.modes@)) + list_option(
        "--items-per-producer"@,
        count_texts(runtime.items_per_producer@),
    ) + option_words("--repeats"@, decimal(runtime.repeats as nat)) + repeated_option(
        "--seed-label"@,
        texts(runtime.ubq_labels@),
    ) + list_option("--fastfifo-block-sizes"@, number_texts(runtime.fastfifo_block_sizes@))
        + list_option(
        "--lfqueue-segment-sizes"@,
        number_texts(runtime.lfqueue_segment_sizes@),
    ) + list_option("--wcq-capacities"@, number_texts(runtime.wcq_capacities@)) + texts(
        runtime.frontier_args@,
    ) + (if runtime.dry_run {
        seq!["--dry-run"@]
    } else {
        Seq::empty()
    })
}

/// The arguments of the search on one machine.
pub fn make_frontier_base_args(
    runtime: &FleetRuntime,
    machine_label: &str,
    runs_dir: &str,
) -> (args: Vec<String>)
    ensures
        texts(args@) == frontier_words(*runtime, machine_label@, runs_dir@),
{
    let mut args: Vec<String> = Vec::new();
    push_word(&mut args, "--machine-label");
    push_word(&mut args, machine_label);
    push_word(&mut args, "--runs-dir");
    push_word(&mut args, runs_dir);
    assert(texts(args@) =~= option_words("--machine-label"@, machine_label@) + option_words(
        "--runs-dir"@,
        runs_dir@,
    ));
    push_list_option(&mut args, "--scenarios", &runtime.scenarios);
    push_list_option(&mut args, "--queues", &runtime.queues);
    push_list_option(&mut args, "--modes", &runtime.modes);
    push_count_option(&mut args, "--items-per-producer", &runtime.items_per_producer);
    let ghost part = texts(args@);
    push_word(&mut args, "--repeats");
    let repeats = decimal_text(runtime.repeats as u128);
    push_word(&mut args, repeats.as_str());
    assert(texts(args@) =~= part + option_words("--repeats"@, decimal(runtime.repeats as nat)));
    push_seed_labels(&mut args, &runtime.ubq_labels);
    push_number_option(&mut args, "--fastfifo-block-sizes", &runtime.fastfifo_block_sizes);
    push_number_option(&mut args, "--lfqueue-segment-sizes", &runtime.lfqueue_segment_sizes);
    push_number_option(&mut args, "--wcq-capacities", &runtime.wcq_capacities);
    let ghost part = texts(args@);
    let mut more = copy_texts(&runtime.frontier_args);
    let ghost extra = texts(more@);
    args.append(&mut more);
    assert(texts(args@) =~= part + extra);
    let ghost part = texts(args@);
    if runtime.dry_run {
        push_word(&mut args, "--dry-run");
        assert(texts(args@) =~= part + seq!["--dry-run"@]);
    } else {
        assert(texts(args@) =~= part + Seq::<Seq<char>>::empty());
    }
    args
}

fn push_seed_labels(args: &mut Vec<String>, labels: &Vec<String>)
    ensures
        texts(final(args)@) == texts(old(args)@) + repeated_option(
            "--seed-label"@,
            texts(labels@),
        ),
{
    let ghost before = texts(args@);
    let ghost all = texts(labels@);
    let mut i: usize = 0;
    assert(all.take(0) =~= Seq::<Seq<char>>::empty());
    assert(before + Seq::<Seq<char>>::empty() =~= before);
    while i < labels.len()
        invariant
            all == texts(labels@),
            i <= labels@.len(),
            texts(args@) == before + repeated_option("--seed-label"@, all.take(i as int)),
        decreases labels@.len() - i,
    {
        let ghost part = texts(args@);
        push_word(args, "--seed-label");
        push_word(args, labels[i].as_str());
        proof {
            let next = all.take(i + 1);
            assert(next.drop_last() =~= all.take(i as int));
            assert(next.last() == labels@[i as int]@);
            assert(texts(args@) =~= before + repeated_option("--seed-label"@, next));
        }
        i = i + 1;
    }
    assert(all.take(i as int) =~= all);
}

/// A queue list that names one of `names`.
pub open spec fn selects(queues: Seq<Seq<char>>, names: Seq<Seq<char>>) -> bool {
    exists|i: int| 0 <= i < queues.len() && names.contains(folded(#[trigger] queues[i]))
}

fn list_selects(queues: &Vec<String>, names: &[&str]) -> (found: bool)
    ensures
        found == selects(texts(queues@), word_views(names@)),
{
    let ghost all = texts(queues@);
    let ghost wanted = word_views(names@);
    let mut i: usize = 0;
    while i < queues.len()
        invariant
            all == texts(queues@),
            wanted == word_views(names@),
            i <= queues@.len(),
            forall|j: int| 0 <= j < i ==> !wanted.contains(folded(#[trigger] all[j])),
        decreases queues@.len() - i,
    {
        assert(all[i as int] == queues@[i as int]@);
        let name = fold(queues[i].as_str());
        let mut k: usize = 0;
        while k < names.len()
            invariant
                wanted == word_views(names@),
                all == texts(queues@),
                i < all.len(),
                name@ == folded(all[i as int]),
                k <= names@.len(),
                forall|j: int| 0 <= j < k ==> wanted[j] != name@,
            decreases names@.len() - k,
        {
            assert(wanted[k as int] == names@[k as int]@);
            if same(names[k], name.as_str()) {
                assert(wanted.contains(folded(all[i as int])));
                return true;
            }
            k = k + 1;
        }
        i = i + 1;
    }
    false
}

/// The other names of the queues that need a feature of their own.
pub open spec fn fastfifo_names() -> Seq<Seq<char>> {
    seq!["fastfifo"@, "fast-fifo"@, "bbq"@]
}

pub open spec fn lfqueue_names() -> Seq<Seq<char>> {
    seq!["lfqueue"@, "lf-queue"@, "lscq"@, "scq"@]
}

pub open spec fn wcq_names() -> Seq<Seq<char>> {
    seq!["wcq"@, "w-cq"@, "wait-free-cq"@, "wait-free-queue"@]
}

pub fn queue_list_includes_fastfifo(queues: &Vec<String>) -> (found: bool)
    ensures
        found == selects(texts(queues@), fastfifo_names()),
{
    let names: [&str; 3] = ["fastfifo", "fast-fifo", "bbq"];
    assert(word_views(names@) =~= fastfifo_names());
    list_selects(queues, &names)
}

pub fn queue_list_includes_lfqueue(queues: &Vec<String>) -> (found: bool)
    ensures
        found == selects(texts(queues@), lfqueue_names()),
{
    let names: [&str; 4] = ["lfqueue", "lf-queue", "lscq", "scq"];
    assert(word_views(names@) =~= lfqueue_names());
    list_selects(queues, &names)
}

pub fn queue_list_includes_wcq(queues: &Vec<String>) -> (found: bool)
    ensures
        found == selects(texts(queues@), wcq_names()),
{
    let names: [&str; 4] = ["wcq", "w-cq", "wait-free-cq", "wait-free-queue"];
    assert(word_views(names@) =~= wcq_names());
    list_selects(queues, &names)
}

/// The features that a queue list needs.
pub open spec fn feature_list(queues: Seq<Seq<char>>) -> Seq<Seq<char>> {
    seq!["bench_registry"@] + (if selects(queues, fastfifo_names()) {
        seq!["bench_fastfifo"@]
    } else {
        Seq::empty()
    }) + (if selects(queues, lfqueue_names()) {
        seq!["bench_lfqueue"@]
    } else {
        Seq::empty()
    }) + (if selects(queues, wcq_names()) {
        seq!["bench_wcq"@]
    } else {
        Seq::empty()
    })
}

pub fn cargo_feature_arg(runtime: &FleetRuntime) -> (features: String)
    ensures
        features@ == joined(feature_list(texts(runtime.queues@)), ","@),
{
    let mut features: Vec<String> = Vec::new();
    push_word(&mut features, "bench_registry");
    if queue_list_includes_fastfifo(&runtime.queues) {
        push_word(&mut features, "bench_fastfifo");
    }
    if queue_list_includes_lfqueue(&runtime.queues) {
        push_word(&mut features, "bench_lfqueue");
    }
    if queue_list_includes_wcq(&runtime.queues) {
        push_word(&mut features, "bench_wcq");
    }
    assert(texts(features@) =~= feature_list(texts(runtime.queues@)));
    join(&features, ",")
}

/// The command that starts the search.
pub open spec fn search_words(
    runtime: FleetRuntime,
    machine_label: Seq<char>,
    runs_dir: Seq<char>,
) -> Seq<Seq<char>> {
    seq![
        "cargo"@,
        "run"@,
        "--quiet"@,
        "--release"@,
        "--features"@,
        joined(feature_list(texts(runtime.queues@)), ","@),
        "--bin"@,
        "bench_frontier"@,
        "--"@,
    ] + frontier_words(runtime, machine_label, runs_dir)
}

fn search_command(runtime: &FleetRuntime, machine_label: &str, runs_dir: &str) -> (cmd: Vec<
    String,
>)
    ensures
        texts(cmd@) == search_words(*runtime, machine_label@, runs_dir@),
{
    let mut cmd: Vec<String> = Vec::new();
    push_word(&mut cmd, "cargo");
    push_word(&mut cmd, "run");
    push_word(&mut cmd, "--quiet");
    push_word(&mut cmd, "--release");
    push_word(&mut cmd, "--features");
    let features = cargo_feature_arg(runtime);
    push_word(&mut cmd, features.as_str());
    push_word(&mut cmd, "--bin");
    push_word(&mut cmd, "bench_frontier");
    push_word(&mut cmd, "--");
    let ghost front = texts(cmd@);
    let mut args = make_frontier_base_args(runtime, machine_label, runs_dir);
    let ghost rest = texts(args@);
    cmd.append(&mut args);
    assert(texts(cmd@) =~= front + rest);
    assert(texts(cmd@) =~= search_words(*runtime, machine_label@, runs_dir@));
    cmd
}

/// The command for the search on this machine.
pub fn build_local_complete_cmd(runtime: &FleetRuntime, machine: &ResolvedMachine) -> (cmd: Vec<
    String,
>)
    ensures
        texts(cmd@) == search_words(*runtime, machine.machine_label@, runtime.runs_dir@),
{
    search_command(runtime, machine.machine_label.as_str(), runtime.runs_dir.as_str())
}

/// The shell text that runs the search on a remote machine.
pub open spec fn remote_payload(runtime: FleetRuntime, machine: ResolvedMachine) -> Seq<char> {
    "if [ -f \"$HOME/.cargo/env\" ]; then . \"$HOME/.cargo/env\"; fi; export PATH=\"$HOME/.cargo/bin:$PATH\"; cd "@
        + cd_argument(machine.remote_repo_dir@) + " && "@ + command_line(
        search_words(runtime, machine.machine_label@, machine.remote_runs_dir@),
    )
}

pub fn build_remote_bench_payload(runtime: &FleetRuntime, machine: &ResolvedMachine) -> (payload:
    String)
    ensures
        payload@ == remote_payload(*runtime, *machine),
{
    let inner = search_command(
        runtime,
        machine.machine_label.as_str(),
        machine.remote_runs_dir.as_str(),
    );
    let line = format_cmd(inner.as_slice());
    let dir = remote_cd_expr(machine.remote_repo_dir.as_str());
    let mut payload =
        "if [ -f \"$HOME/.cargo/env\" ]; then . \"$HOME/.cargo/env\"; fi; export PATH=\"$HOME/.cargo/bin:$PATH\"; cd ".to_owned();
    payload.append(dir.as_str());
    payload.append(" && ");
    payload.append(line.as_str());
    payload
}

/// A shell text run on a machine over ssh.
pub open spec fn over_ssh(machine: ResolvedMachine, text: Seq<char>) -> Seq<Seq<char>> {
    seq!["ssh"@, machine.host@, text]
}

fn ssh_command(machine: &ResolvedMachine, text: &str) -> (cmd: Vec<String>)
    ensures
        texts(cmd@) == over_ssh(*machine, text@),
{
    let mut cmd: Vec<String> = Vec::new();
    push_word(&mut cmd, "ssh");
    push_word(&mut cmd, machine.host.as_str());
    push_word(&mut cmd, text);
    assert(texts(cmd@) =~= over_ssh(*machine, text@));
    cmd
}

/// The command that runs the search on a remote machine directly.
pub fn build_remote_complete_cmd(runtime: &FleetRuntime, machine: &ResolvedMachine) -> (cmd: Vec<
    String,
>)
    ensures
        texts(cmd@) == over_ssh(*machine, remote_payload(*runtime, *machine)),
{
    let payload = build_remote_bench_payload(runtime, machine);
    ssh_command(machine, payload.as_str())
}

/// Whether `char::is_alphanumeric` holds of a character.
pub uninterp spec fn alphanumeric(c: char) -> bool;

/// `char::is_alphanumeric`: whether a character is a letter or a digit by the
/// Unicode tables of std, which are not spelled out here.
#[verifier::external_body]
fn is_alphanumeric(c: char) -> (result: bool)
    ensures
        result == alphanumeric(c),
{
    c.is_alphanumeric()
}

/// A character that can stand in a session name.
pub open spec fn safe_char(c: char) -> char {
    if alphanumeric(c) {
        c
    } else {
        '_'
    }
}

/// A label in which everything but letters and digits is an underscore.
pub open spec fn safe_label(label: Seq<char>) -> Seq<char> {
    label.map_values(|c: char| safe_char(c))
}

fn safe_text(label: &str) -> (text: String)
    ensures
        text@ == safe_label(label@),
{
    let chars = crate::text::chars_of(label);
    let mut text = "".to_owned();
    proof {
        reveal_strlit("");
    }
    let mut i: usize = 0;
    while i < chars.len()
        invariant
            i <= chars@.len(),
            text@.len() == i,
            forall|j: int| 0 <= j < i ==> #[trigger] text@[j] == safe_char(chars@[j]),
        decreases chars@.len() - i,
    {
        let c = if is_alphanumeric(chars[i]) {
            chars[i]
        } else {
            '_'
        };
        push_char(&mut text, c);
        i = i + 1;
    }
    assert(text@ =~= safe_label(label@));
    text
}

/// The tmux session of a machine.
pub fn tmux_session_name(machine_label: &str) -> (name: String)
    ensures
        name@ == "ubq_bench_"@ + safe_label(machine_label@),
{
    let safe = safe_text(machine_label);
    let mut name = "ubq_bench_".to_owned();
    name.append(safe.as_str());
    name
}

/// The log file of a machine, as a shell word.
pub open spec fn log_word(machine: ResolvedMachine) -> Seq<char> {
    cd_argument(
        trim_end_slashes(machine.remote_repo_dir@) + "/target/ubq_bench_"@ + safe_label(
            machine.machine_label@,
        ) + ".log"@,
    )
}

pub fn remote_bench_log_expr(machine: &ResolvedMachine) -> (expr: String)
    ensures
        expr@ == log_word(*machine),
{
    let safe = safe_text(machine.machine_label.as_str());
    let mut path = without_trailing_slashes(machine.remote_repo_dir.as_str());
    path.append("/target/ubq_bench_");
    path.append(safe.as_str());
    path.append(".log");
    remote_cd_expr(path.as_str())
}

/// The command that tells whether a session is alive.
pub open spec fn check_words(machine: ResolvedMachine, session: Seq<char>) -> Seq<Seq<char>> {
    over_ssh(machine, "tmux has-session -t "@ + quoted(session) + " 2>/dev/null"@)
}

pub fn build_remote_check_tmux_cmd(machine: &ResolvedMachine, session: &str) -> (cmd: Vec<String>)
    ensures
        texts(cmd@) == check_words(*machine, session@),
{
    let name = shell_quote(session);
    let mut text = "tmux has-session -t ".to_owned();
    text.append(name.as_str());
    text.append(" 2>/dev/null");
    ssh_command(machine, text.as_str())
}

/// The command that counts the results on a machine.
pub open spec fn count_words(machine: ResolvedMachine, root: Seq<char>) -> Seq<Seq<char>> {
    over_ssh(
        machine,
        "find "@ + cd_argument(root) + " -name '*.json' -type f 2>/dev/null | wc -l"@,
    )
}

pub fn build_remote_count_json_cmd(machine: &ResolvedMachine, remote_runs_root: &str) -> (cmd: Vec<
    String,
>)
    ensures
        texts(cmd@) == count_words(*machine, remote_runs_root@),
{
    let dir = remote_cd_expr(remote_runs_root);
    let mut text = "find ".to_owned();
    text.append(dir.as_str());
    text.append(" -name '*.json' -type f 2>/dev/null | wc -l");
    ssh_command(machine, text.as_str())
}

/// What runs in the session: the search, its output in the log, and a mark in
/// the log behind it.
pub open spec fn session_text(payload: Seq<char>, log: Seq<char>) -> Seq<char> {
    "mkdir -p $(dirname "@ + log + ") && { "@ + payload + "; } 2>&1 | tee "@ + log
        + "; echo __BENCH_DONE__ >> "@ + log
}

/// The command that starts a session.
pub open spec fn launch_words(
    machine: ResolvedMachine,
    session: Seq<char>,
    payload: Seq<char>,
    log: Seq<char>,
) -> Seq<Seq<char>> {
    over_ssh(
        machine,
        "tmux new-session -d -s "@ + quoted(session) + " "@ + quoted(session_text(payload, log)),
    )
}

pub fn build_remote_tmux_launch_cmd(
    machine: &ResolvedMachine,
    session: &str,
    bench_payload: &str,
    log_expr: &str,
) -> (cmd: Vec<String>)
    ensures
        texts(cmd@) == launch_words(*machine, session@, bench_payload@, log_expr@),
{
    let mut inner = "mkdir -p $(dirname ".to_owned();
    inner.append(log_expr);
    inner.append(") && { ");
    inner.append(bench_payload);
    inner.append("; } 2>&1 | tee ");
    inner.append(log_expr);
    inner.append("; echo __BENCH_DONE__ >> ");
    inner.append(log_expr);
    let name = shell_quote(session);
    let body = shell_quote(inner.as_str());
    let mut text = "tmux new-session -d -s ".to_owned();
    text.append(name.as_str());
    text.append(" ");
    text.append(body.as_str());
    ssh_command(machine, text.as_str())
}

/// What follows a log: it waits for the file, then prints it from the start
/// until the mark comes. It exits with 2 if the session ends before there is a
/// log, with 3 if it ends before the mark.
pub open spec fn stream_text(session: Seq<char>, log: Seq<char>) -> Seq<char> {
    "attempt=0; while [ ! -f "@ + log + " ]; do if ! tmux has-session -t "@ + session
        + " 2>/dev/null; then echo \"bench: tmux session exited before log was created\" >&2; exit 2; fi; sleep 2; attempt=$((attempt+1)); [ $((attempt % 15)) -eq 0 ] && echo \"bench: still waiting for log ($((attempt*2))s elapsed)\"; done; (tail -n +1 -f "@
        + log
        + " | awk '/^__BENCH_DONE__$/ {exit} {print; fflush()}') & stream_pid=$!; while kill -0 \"$stream_pid\" 2>/dev/null; do if grep -q '^__BENCH_DONE__$' "@
        + log
        + "; then wait \"$stream_pid\" 2>/dev/null || true; exit 0; fi; if ! tmux has-session -t "@
        + session
        + " 2>/dev/null; then echo \"bench: tmux session exited before completion sentinel\" >&2; kill \"$stream_pid\" 2>/dev/null || true; wait \"$stream_pid\" 2>/dev/null || true; exit 3; fi; sleep 2; done; wait \"$stream_pid\""@
}

/// The command that follows the log of a session.
pub open spec fn stream_words(
    machine: ResolvedMachine,
    session: Seq<char>,
    log: Seq<char>,
) -> Seq<Seq<char>> {
    over_ssh(machine, stream_text(quoted(session), log))
}

pub fn build_remote_stream_log_cmd(
    machine: &ResolvedMachine,
    session: &str,
    log_expr: &str,
) -> (cmd: Vec<String>)
    ensures
        texts(cmd@) == stream_words(*machine, session@, log_expr@),
{
    let name = shell_quote(session);
    let mut text = "attempt=0; while [ ! -f ".to_owned();
    text.append(log_expr);
    text.append(" ]; do if ! tmux has-session -t ");
    text.append(name.as_str());
    text.append(
        " 2>/dev/null; then echo \"bench: tmux session exited before log was created\" >&2; exit 2; fi; sleep 2; attempt=$((attempt+1)); [ $((attempt % 15)) -eq 0 ] && echo \"bench: still waiting for log ($((attempt*2))s elapsed)\"; done; (tail -n +1 -f ",
    );
    text.append(log_expr);
    text.append(
        " | awk '/^__BENCH_DONE__$/ {exit} {print; fflush()}') & stream_pid=$!; while kill -0 \"$stream_pid\" 2>/dev/null; do if grep -q '^__BENCH_DONE__$' ",
    );
    text.append(log_expr);
    text.append(
        "; then wait \"$stream_pid\" 2>/dev/null || true; exit 0; fi; if ! tmux has-session -t ",
    );
    text.append(name.as_str());
    text.append(
        " 2>/dev/null; then echo \"bench: tmux session exited before completion sentinel\" >&2; kill \"$stream_pid\" 2>/dev/null || true; wait \"$stream_pid\" 2>/dev/null || true; exit 3; fi; sleep 2; done; wait \"$stream_pid\"",
    );
    ssh_command(machine, text.as_str())
}

/// What a failed log stream means.
pub open spec fn stream_failure(machine: ResolvedMachine, code: i32) -> Seq<char> {
    if code == 2 {
        "remote tmux session on "@ + machine.host@
            + " exited before its log file was created"@
    } else if code == 3 {
        "remote tmux session on "@ + machine.host@
            + " exited before writing the completion sentinel"@
    } else {
        "remote log stream failed for "@ + machine.name@ + " with exit code "@ + signed(code)
    }
}

/// A number in decimal notation, with its sign if it is negative.
pub open spec fn signed(code: i32) -> Seq<char> {
    if code < 0 {
        "-"@ + decimal((0 - code) as nat)
    } else {
        decimal(code as nat)
    }
}

pub fn signed_text(code: i32) -> (text: String)
    ensures
        text@ == signed(code),
{
    if code < 0 {
        let size: i64 = 0 - (code as i64);
        let digits = decimal_text(size as u128);
        let mut text = "-".to_owned();
        text.append(digits.as_str());
        text
    } else {
        decimal_text(code as u128)
    }
}

pub fn describe_remote_stream_failure(machine: &ResolvedMachine, code: i32) -> (message: String)
    ensures
        message@ == stream_failure(*machine, code),
{
    if code == 2 {
        let mut message = "remote tmux session on ".to_owned();
        message.append(machine.host.as_str());
        message.append(" exited before its log file was created");
        message
    } else if code == 3 {
        let mut message = "remote tmux session on ".to_owned();
        message.append(machine.host.as_str());
        message.append(" exited before writing the completion sentinel");
        message
    } else {
        let mut message = "remote log stream failed for ".to_owned();
        message.append(machine.name.as_str());
        message.append(" with exit code ");
        let number = signed_text(code);
        message.append(number.as_str());
        message
    }
}

/// A directory on a machine, in the notation of rsync.
pub open spec fn rsync_dir(machine: ResolvedMachine, dir: Seq<char>) -> Seq<char> {
    machine.host@ + ":"@ + trim_end_slashes(dir) + "/"@
}

pub(crate) fn rsync_place(machine: &ResolvedMachine, dir: &str) -> (text: String)
    ensures
        text@ == rsync_dir(*machine, dir@),
{
    let path = without_trailing_slashes(dir);
    let mut text = machine.host.clone();
    text.append(":");
    text.append(path.as_str());
    text.append("/");
    text
}

/// The command that copies the repository to a machine.
pub open spec fn sync_words(machine: ResolvedMachine) -> Seq<Seq<char>> {
    seq![
        "rsync"@,
        "-avz"@,
        "--delete"@,
        "--prune-empty-dirs"@,
        "--include=/.gitmodules"@,
        "--include=/Cargo.toml"@,
        "--include=/Cargo.lock"@,
        "--include=/build.rs"@,
        "--include=/src/"@,
        "--include=/src/**"@,
        "--include=/benches/"@,
        "--include=/benches/**"@,
        "--exclude=*"@,
        "./"@,
        rsync_dir(machine, machine.remote_repo_dir@),
    ]
}

pub fn build_sync_cmd(machine: &ResolvedMachine) -> (cmd: Vec<String>)
    ensures
        texts(cmd@) == sync_words(*machine),
{
    let mut cmd: Vec<String> = Vec::new();
    let words: [&str; 14] = [
        "rsync",
        "-avz",
        "--delete",
        "--prune-empty-dirs",
        "--include=/.gitmodules",
        "--include=/Cargo.toml",
        "--include=/Cargo.lock",
        "--include=/build.rs",
        "--include=/src/",
        "--include=/src/**",
        "--include=/benches/",
        "--include=/benches/**",
        "--exclude=*",
        "./",
    ];
    push_words(&mut cmd, &words);
    let place = rsync_place(machine, machine.remote_repo_dir.as_str());
    push_word(&mut cmd, place.as_str());
    assert(texts(cmd@) =~= sync_words(*machine));
    cmd
}

/// The command that tells whether a directory is there.
pub open spec fn exists_words(machine: ResolvedMachine, root: Seq<char>) -> Seq<Seq<char>> {
    over_ssh(machine, "test -d "@ + cd_argument(root))
}

pub fn build_remote_dir_exists_cmd(machine: &ResolvedMachine, remote_runs_root: &str) -> (cmd: Vec<
    String,
>)
    ensures
        texts(cmd@) == exists_words(*machine, remote_runs_root@),
{
    let dir = remote_cd_expr(remote_runs_root);
    let mut text = "test -d ".to_owned();
    text.append(dir.as_str());
    ssh_command(machine, text.as_str())
}

/// The command that fetches the results of a machine.
pub open spec fn pull_words(
    machine: ResolvedMachine,
    root: Seq<char>,
    local: Seq<char>,
) -> Seq<Seq<char>> {
    seq!["rsync"@, "-avz"@, rsync_dir(machine, root), local + "/"@]
}

pub fn build_pull_runs_cmd(
    machine: &ResolvedMachine,
    remote_runs_root: &str,
    local_runs_dir: &str,
) -> (cmd: Vec<String>)
    ensures
        texts(cmd@) == pull_words(*machine, remote_runs_root@, local_runs_dir@),
{
    let mut cmd: Vec<String> = Vec::new();
    push_word(&mut cmd, "rsync");
    push_word(&mut cmd, "-avz");
    let place = rsync_place(machine, remote_runs_root);
    push_word(&mut cmd, place.as_str());
    let mut local = local_runs_dir.to_owned();
    local.append("/");
    push_word(&mut cmd, local.as_str());
    assert(texts(cmd@) =~= pull_words(*machine, remote_runs_root@, local_runs_dir@));
    cmd
}

/// The command that draws the plots.
pub open spec fn plot_words(
    runtime: FleetRuntime,
    python: Seq<char>,
    no_clean: bool,
) -> Seq<Seq<char>> {
    seq![
        python,
        "scripts/plot_runs_folder.py"@,
        "--runs-dir"@,
        runtime.runs_dir@,
        "--out-dir"@,
        runtime.plot_out_dir@,
    ] + (if no_clean {
        seq!["--no-clean"@]
    } else {
        Seq::empty()
    }) + (if runtime.dry_run {
        seq!["--dry-run"@]
    } else {
        Seq::empty()
    })
}

pub fn plot_command(runtime: &FleetRuntime, python: &str, no_clean: bool) -> (cmd: Vec<String>)
    ensures
        texts(cmd@) == plot_words(*runtime, python@, no_clean),
{
    let mut cmd: Vec<String> = Vec::new();
    push_word(&mut cmd, python);
    push_word(&mut cmd, "scripts/plot_runs_folder.py");
    push_word(&mut cmd, "--runs-dir");
    push_word(&mut cmd, runtime.runs_dir.as_str());
    push_word(&mut cmd, "--out-dir");
    push_word(&mut cmd, runtime.plot_out_dir.as_str());
    if no_clean {
        push_word(&mut cmd, "--no-clean");
    }
    if runtime.dry_run {
        push_word(&mut cmd, "--dry-run");
    }
    assert(texts(cmd@) =~= plot_words(*runtime, python@, no_clean));
    cmd
}

/// An option of the search and its value that the plan asks for.
spec fn is_asked_for(
    runtime: FleetRuntime,
    machine_label: Seq<char>,
    runs_dir: Seq<char>,
    flag: Seq<char>,
    value: Seq<char>,
) -> bool {
    ||| flag == "--machine-label"@ && value == machine_label
    ||| flag == "--runs-dir"@ && value == runs_dir
    ||| runtime.scenarios@.len() > 0 && flag == "--scenarios"@ && value == joined(texts(runtime.scenarios@), ","@)
    ||| runtime.queues@.len() > 0 && flag == "--queues"@ && value == joined(texts(runtime.queues@), ","@)
    ||| runtime.modes@.len() > 0 && flag == "--modes"@ && value == joined(texts(runtime.modes@), ","@)
    ||| runtime.items_per_producer@.len() > 0 && flag == "--items-per-producer"@ && value == joined(count_texts(runtime.items_per_producer@), ","@)
    ||| flag == "--repeats"@ && value == decimal(runtime.repeats as nat)
    ||| runtime.fastfifo_block_sizes@.len() > 0 && flag == "--fastfifo-block-sizes"@ && value == joined(number_texts(runtime.fastfifo_block_sizes@), ","@)
    ||| runtime.lfqueue_segment_sizes@.len() > 0 && flag == "--lfqueue-segment-sizes"@ && value == joined(number_texts(runtime.lfqueue_segment_sizes@), ","@)
    ||| runtime.wcq_capacities@.len() > 0 && flag == "--wcq-capacities"@ && value == joined(number_texts(runtime.wcq_capacities@), ","@)
    ||| flag == "--seed-label"@ && texts(runtime.ubq_labels@).contains(value)
}

/// At every second place of a list of words stands an option that is asked for,
/// and its value behind it.
spec fn is_all_asked_for(
    runtime: FleetRuntime,
    machine_label: Seq<char>,
    runs_dir: Seq<char>,
    words: Seq<Seq<char>>,
) -> bool {
    &&& words.len() % 2 == 0
    &&& forall|k: int|
        0 <= 2 * k < words.len() ==> #[trigger] is_asked_for(
            runtime,
            machine_label,
            runs_dir,
            words[2 * k],
            words[2 * k + 1],
        )
}

proof fn lemma_asked_for_both(
    runtime: FleetRuntime,
    machine_label: Seq<char>,
    runs_dir: Seq<char>,
    a: Seq<Seq<char>>,
    b: Seq<Seq<char>>,
)
    requires
        is_all_asked_for(runtime, machine_label, runs_dir, a),
        is_all_asked_for(runtime, machine_label, runs_dir, b),
    ensures
        is_all_asked_for(runtime, machine_label, runs_dir, a + b),
{
    let half = a.len() as int / 2;
    assert forall|k: int| 0 <= 2 * k < (a + b).len() implies #[trigger] is_asked_for(
        runtime,
        machine_label,
        runs_dir,
        (a + b)[2 * k],
        (a + b)[2 * k + 1],
    ) by {
        if k < half {
            assert(is_asked_for(runtime, machine_label, runs_dir, a[2 * k], a[2 * k + 1]));
        } else {
            let j = k - half;
            assert(is_asked_for(runtime, machine_label, runs_dir, b[2 * j], b[2 * j + 1]));
        }
    }
}

proof fn lemma_asked_for_one(
    runtime: FleetRuntime,
    machine_label: Seq<char>,
    runs_dir: Seq<char>,
    flag: Seq<char>,
    value: Seq<char>,
)
    requires
        is_asked_for(runtime, machine_label, runs_dir, flag, value),
    ensures
        is_all_asked_for(runtime, machine_label, runs_dir, seq![flag, value]),
        is_all_asked_for(runtime, machine_label, runs_dir, Seq::empty()),
{
    let words = seq![flag, value];
    assert forall|k: int| 0 <= 2 * k < words.len() implies #[trigger] is_asked_for(
        runtime,
        machine_label,
        runs_dir,
        words[2 * k],
        words[2 * k + 1],
    ) by {
        assert(k == 0);
    }
}

/// An option that is given once for each value stands before each of them.
proof fn lemma_repeated_option(flag: Seq<char>, values: Seq<Seq<char>>)
    ensures
        repeated_option(flag, values).len() == 2 * values.len(),
        forall|i: int|
            #![trigger values[i]]
            0 <= i < values.len() ==> repeated_option(flag, values).subrange(2 * i, 2 * i + 2)
                == seq![flag, values[i]],
    decreases values.len(),
{
    let all = repeated_option(flag, values);
    if values.len() > 0 {
        let rest = values.drop_last();
        let before = repeated_option(flag, rest);
        lemma_repeated_option(flag, rest);
        assert(all == before + option_words(flag, values.last()));
        assert forall|i: int|
            #![trigger values[i]]
            0 <= i < values.len() implies all.subrange(2 * i, 2 * i + 2) == seq![
            flag,
            values[i],
        ] by {
            if i < rest.len() {
                assert(rest[i] == values[i]);
                assert(all.subrange(2 * i, 2 * i + 2) =~= before.subrange(2 * i, 2 * i + 2));
            } else {
                assert(all.subrange(2 * i, 2 * i + 2) =~= seq![flag, values[i]]);
            }
        }
    }
}

/// Every setting of the plan is among the arguments of the search, its option
/// directly before it: the label and the directory first, the repeats, and each
/// list that is not empty, with commas between its items.
#[verifier::spinoff_prover]
#[verifier::rlimit(40)]
pub proof fn law_the_arguments_give_every_setting(
    runtime: FleetRuntime,
    machine_label: Seq<char>,
    runs_dir: Seq<char>,
)
    ensures
        frontier_words(runtime, machine_label, runs_dir).take(4) == seq!["--machine-label"@, machine_label, "--runs-dir"@, runs_dir],
        runtime.scenarios@.len() > 0 ==> exists|k: int|
            #![trigger frontier_words(runtime, machine_label, runs_dir)[k]]
            {
                &&& 0 <= k < frontier_words(runtime, machine_label, runs_dir).len() - 1
                &&& frontier_words(runtime, machine_label, runs_dir)[k] == "--scenarios"@
                &&& frontier_words(runtime, machine_label, runs_dir)[k + 1] == joined(texts(runtime.scenarios@), ","@)
            },
        runtime.queues@.len() > 0 ==> exists|k: int|
            #![trigger frontier_words(runtime, machine_label, runs_dir)[k]]
            {
                &&& 0 <= k < frontier_words(runtime, machine_label, runs_dir).len() - 1
                &&& frontier_words(runtime, machine_label, runs_dir)[k] == "--queues"@
                &&& frontier_words(runtime, machine_label, runs_dir)[k + 1] == joined(texts(runtime.queues@), ","@)
            },
        runtime.modes@.len() > 0 ==> exists|k: int|
            #![trigger frontier_words(runtime, machine_label, runs_dir)[k]]
            {
                &&& 0 <= k < frontier_words(runtime, machine_label, runs_dir).len() - 1
                &&& frontier_words(runtime, machine_label, runs_dir)[k] == "--modes"@
                &&& frontier_words(runtime, machine_label, runs_dir)[k + 1] == joined(texts(runtime.modes@), ","@)
            },
        runtime.items_per_producer@.len() > 0 ==> exists|k: int|
            #![trigger frontier_words(runtime, machine_label, runs_dir)[k]]
            {
                &&& 0 <= k < frontier_words(runtime, machine_label, runs_dir).len() - 1
                &&& frontier_words(runtime, machine_label, runs_dir)[k] == "--items-per-producer"@
                &&& frontier_words(runtime, machine_label, runs_dir)[k + 1] == joined(count_texts(runtime.items_per_producer@), ","@)
            },
        exists|k: int|
            #![trigger frontier_words(runtime, machine_label, runs_dir)[k]]
            {
                &&& 0 <= k < frontier_words(runtime, machine_label, runs_dir).len() - 1
                &&& frontier_words(runtime, machine_label, runs_dir)[k] == "--repeats"@
                &&& frontier_words(runtime, machine_label, runs_dir)[k + 1] == decimal(runtime.repeats as nat)
            },
        runtime.fastfifo_block_sizes@.len() > 0 ==> exists|k: int|
            #![trigger frontier_words(runtime, machine_label, runs_dir)[k]]
            {
                &&& 0 <= k < frontier_words(runtime, machine_label, runs_dir).len() - 1
                &&& frontier_words(runtime, machine_label, runs_dir)[k] == "--fastfifo-block-sizes"@
                &&& frontier_words(runtime, machine_label, runs_dir)[k + 1] == joined(number_texts(runtime.fastfifo_block_sizes@), ","@)
            },
        runtime.lfqueue_segment_sizes@.len() > 0 ==> exists|k: int|
            #![trigger frontier_words(runtime, machine_label, runs_dir)[k]]
            {
                &&& 0 <= k < frontier_words(runtime, machine_label, runs_dir).len() - 1
                &&& frontier_words(runtime, machine_label, runs_dir)[k] == "--lfqueue-segment-sizes"@
                &&& frontier_words(runtime, machine_label, runs_dir)[k + 1] == joined(number_texts(runtime.lfqueue_segment_sizes@), ","@)
            },
        runtime.wcq_capacities@.len() > 0 ==> exists|k: int|
            #![trigger frontier_words(runtime, machine_label, runs_dir)[k]]
            {
                &&& 0 <= k < frontier_words(runtime, machine_label, runs_dir).len() - 1
                &&& frontier_words(runtime, machine_label, runs_dir)[k] == "--wcq-capacities"@
                &&& frontier_words(runtime, machine_label, runs_dir)[k + 1] == joined(number_texts(runtime.wcq_capacities@), ","@)
            },
{
    let args = frontier_words(runtime, machine_label, runs_dir);
    let labels = texts(runtime.ubq_labels@);
    let p0 = option_words("--machine-label"@, machine_label) + option_words("--runs-dir"@, runs_dir);
    let p1 = p0 + list_option("--scenarios"@, texts(runtime.scenarios@));
    let p2 = p1 + list_option("--queues"@, texts(runtime.queues@));
    let p3 = p2 + list_option("--modes"@, texts(runtime.modes@));
    let p4 = p3 + list_option(
        "--items-per-producer"@,
        count_texts(runtime.items_per_producer@),
    );
    let p5 = p4 + option_words("--repeats"@, decimal(runtime.repeats as nat));
    let seeds = repeated_option("--seed-label"@, labels);
    let p6 = p5 + seeds;
    let p7 = p6 + list_option(
        "--fastfifo-block-sizes"@,
        number_texts(runtime.fastfifo_block_sizes@),
    );
    let p8 = p7 + list_option(
        "--lfqueue-segment-sizes"@,
        number_texts(runtime.lfqueue_segment_sizes@),
    );
    let p9 = p8 + list_option("--wcq-capacities"@, number_texts(runtime.wcq_capacities@));
    let extra = texts(runtime.frontier_args@);
    let mark = if runtime.dry_run {
        seq!["--dry-run"@]
    } else {
        Seq::empty()
    };
    assert(args == p9 + extra + mark);
    lemma_repeated_option("--seed-label"@, labels);
    assert(args.take(4) =~= seq!["--machine-label"@, machine_label, "--runs-dir"@, runs_dir]);
    if runtime.scenarios@.len() > 0 {
        let k = p0.len() as int;
        assert(args[k] == "--scenarios"@);
        assert(args[k + 1] == joined(texts(runtime.scenarios@), ","@));
    }
    if runtime.queues@.len() > 0 {
        let k = p1.len() as int;
        assert(args[k] == "--queues"@);
        assert(args[k + 1] == joined(texts(runtime.queues@), ","@));
    }
    if runtime.modes@.len() > 0 {
        let k = p2.len() as int;
        assert(args[k] == "--modes"@);
        assert(args[k + 1] == joined(texts(runtime.modes@), ","@));
    }
    if runtime.items_per_producer@.len() > 0 {
        let k = p3.len() as int;
        assert(args[k] == "--items-per-producer"@);
        assert(args[k + 1] == joined(count_texts(runtime.items_per_producer@), ","@));
    }
    let k = p4.len() as int;
    assert(args[k] == "--repeats"@);
    assert(args[k + 1] == decimal(runtime.repeats as nat));
    if runtime.fastfifo_block_sizes@.len() > 0 {
        let k = p6.len() as int;
        assert(args[k] == "--fastfifo-block-sizes"@);
        assert(args[k + 1] == joined(number_texts(runtime.fastfifo_block_sizes@), ","@));
    }
    if runtime.lfqueue_segment_sizes@.len() > 0 {
        let k = p7.len() as int;
        assert(args[k] == "--lfqueue-segment-sizes"@);
        assert(args[k + 1] == joined(number_texts(runtime.lfqueue_segment_sizes@), ","@));
    }
    if runtime.wcq_capacities@.len() > 0 {
        let k = p8.len() as int;
        assert(args[k] == "--wcq-capacities"@);
        assert(args[k + 1] == joined(number_texts(runtime.wcq_capacities@), ","@));
    }
}

/// Each seed label is among the arguments of the search with an option of its
/// own directly before it, and they stand together in their order. The returned
/// place is that of the first.
pub proof fn law_the_arguments_give_every_seed_label(
    runtime: FleetRuntime,
    machine_label: Seq<char>,
    runs_dir: Seq<char>,
) -> (first: int)
    ensures
        4 <= first,
        first + 2 * runtime.ubq_labels@.len() <= frontier_words(runtime, machine_label, runs_dir).len(),
        forall|i: int|
            #![trigger runtime.ubq_labels@[i]]
            0 <= i < runtime.ubq_labels@.len() ==> frontier_words(
                runtime,
                machine_label,
                runs_dir,
            ).subrange(first + 2 * i, first + 2 * i + 2) == seq![
                "--seed-label"@,
                runtime.ubq_labels@[i]@,
            ],
{
    let args = frontier_words(runtime, machine_label, runs_dir);
    let labels = texts(runtime.ubq_labels@);
    let p0 = option_words("--machine-label"@, machine_label) + option_words("--runs-dir"@, runs_dir);
    let p1 = p0 + list_option("--scenarios"@, texts(runtime.scenarios@));
    let p2 = p1 + list_option("--queues"@, texts(runtime.queues@));
    let p3 = p2 + list_option("--modes"@, texts(runtime.modes@));
    let p4 = p3 + list_option(
        "--items-per-producer"@,
        count_texts(runtime.items_per_producer@),
    );
    let p5 = p4 + option_words("--repeats"@, decimal(runtime.repeats as nat));
    let seeds = repeated_option("--seed-label"@, labels);
    let p6 = p5 + seeds;
    let p7 = p6 + list_option(
        "--fastfifo-block-sizes"@,
        number_texts(runtime.fastfifo_block_sizes@),
    );
    let p8 = p7 + list_option(
        "--lfqueue-segment-sizes"@,
        number_texts(runtime.lfqueue_segment_sizes@),
    );
    let p9 = p8 + list_option("--wcq-capacities"@, number_texts(runtime.wcq_capacities@));
    let extra = texts(runtime.frontier_args@);
    let mark = if runtime.dry_run {
        seq!["--dry-run"@]
    } else {
        Seq::empty()
    };
    assert(args == p9 + extra + mark);
    lemma_repeated_option("--seed-label"@, labels);
    let first = p5.len() as int;
    assert forall|i: int|
        #![trigger runtime.ubq_labels@[i]]
        0 <= i < runtime.ubq_labels@.len() implies args.subrange(first + 2 * i, first + 2 * i + 2)
        == seq!["--seed-label"@, runtime.ubq_labels@[i]@] by {
        assert(labels[i] == runtime.ubq_labels@[i]@);
        assert(args.subrange(first + 2 * i, first + 2 * i + 2) =~= seeds.subrange(
            2 * i,
            2 * i + 2,
        ));
    }
    first
}

/// The arguments of the search hold nothing that the plan does not ask for: `own`
/// words in pairs of an option and its value, then the words that are handed on,
/// and behind them only the mark of a dry run.
#[verifier::spinoff_prover]
#[verifier::rlimit(40)]
pub proof fn law_the_arguments_give_nothing_else(
    runtime: FleetRuntime,
    machine_label: Seq<char>,
    runs_dir: Seq<char>,
    own: int,
)
    requires
        own == 6 + 2 * runtime.ubq_labels@.len() + (if runtime.scenarios@.len() > 0 { 2int } else { 0 }) + (if runtime.queues@.len() > 0 { 2int } else { 0 }) + (if runtime.modes@.len() > 0 { 2int } else { 0 }) + (if runtime.items_per_producer@.len() > 0 { 2int } else { 0 }) + (if runtime.fastfifo_block_sizes@.len() > 0 { 2int } else { 0 }) + (if runtime.lfqueue_segment_sizes@.len() > 0 { 2int } else { 0 }) + (if runtime.wcq_capacities@.len() > 0 { 2int } else { 0 }),
    ensures
        own <= frontier_words(runtime, machine_label, runs_dir).len(),
        frontier_words(runtime, machine_label, runs_dir).skip(own) == texts(runtime.frontier_args@) + (if runtime.dry_run {
            seq!["--dry-run"@]
        } else {
            Seq::empty()
        }),
        forall|k: int|
            #![trigger frontier_words(runtime, machine_label, runs_dir)[2 * k]]
            0 <= 2 * k < own ==> {
                let flag = frontier_words(runtime, machine_label, runs_dir)[2 * k];
                let value = frontier_words(runtime, machine_label, runs_dir)[2 * k + 1];
                ||| flag == "--machine-label"@ && value == machine_label
                ||| flag == "--runs-dir"@ && value == runs_dir
                ||| runtime.scenarios@.len() > 0 && flag == "--scenarios"@ && value == joined(texts(runtime.scenarios@), ","@)
                ||| runtime.queues@.len() > 0 && flag == "--queues"@ && value == joined(texts(runtime.queues@), ","@)
                ||| runtime.modes@.len() > 0 && flag == "--modes"@ && value == joined(texts(runtime.modes@), ","@)
                ||| runtime.items_per_producer@.len() > 0 && flag == "--items-per-producer"@ && value == joined(count_texts(runtime.items_per_producer@), ","@)
                ||| flag == "--repeats"@ && value == decimal(runtime.repeats as nat)
                ||| runtime.fastfifo_block_sizes@.len() > 0 && flag == "--fastfifo-block-sizes"@ && value == joined(number_texts(runtime.fastfifo_block_sizes@), ","@)
                ||| runtime.lfqueue_segment_sizes@.len() > 0 && flag == "--lfqueue-segment-sizes"@ && value == joined(number_texts(runtime.lfqueue_segment_sizes@), ","@)
                ||| runtime.wcq_capacities@.len() > 0 && flag == "--wcq-capacities"@ && value == joined(number_texts(runtime.wcq_capacities@), ","@)
                ||| flag == "--seed-label"@ && texts(runtime.ubq_labels@).contains(value)
            },
{
    let args = frontier_words(runtime, machine_label, runs_dir);
    let labels = texts(runtime.ubq_labels@);
    let p0 = option_words("--machine-label"@, machine_label) + option_words("--runs-dir"@, runs_dir);
    let p1 = p0 + list_option("--scenarios"@, texts(runtime.scenarios@));
    let p2 = p1 + list_option("--queues"@, texts(runtime.queues@));
    let p3 = p2 + list_option("--modes"@, texts(runtime.modes@));
    let p4 = p3 + list_option(
        "--items-per-producer"@,
        count_texts(runtime.items_per_producer@),
    );
    let p5 = p4 + option_words("--repeats"@, decimal(runtime.repeats as nat));
    let seeds = repeated_option("--seed-label"@, labels);
    let p6 = p5 + seeds;
    let p7 = p6 + list_option(
        "--fastfifo-block-sizes"@,
        number_texts(runtime.fastfifo_block_sizes@),
    );
    let p8 = p7 + list_option(
        "--lfqueue-segment-sizes"@,
        number_texts(runtime.lfqueue_segment_sizes@),
    );
    let p9 = p8 + list_option("--wcq-capacities"@, number_texts(runtime.wcq_capacities@));
    let extra = texts(runtime.frontier_args@);
    let mark = if runtime.dry_run {
        seq!["--dry-run"@]
    } else {
        Seq::empty()
    };
    assert(args == p9 + extra + mark);
    lemma_repeated_option("--seed-label"@, labels);
    assert(own == p9.len());
    assert(args.skip(own) =~= extra + mark);
    lemma_own_words(runtime, machine_label, runs_dir);
    assert forall|k: int|
        #![trigger args[2 * k]]
        0 <= 2 * k < own implies is_asked_for(
        runtime,
        machine_label,
        runs_dir,
        args[2 * k],
        args[2 * k + 1],
    ) by {
        assert(is_asked_for(runtime, machine_label, runs_dir, p9[2 * k], p9[2 * k + 1]));
    }
}

proof fn lemma_own_words(runtime: FleetRuntime, machine_label: Seq<char>, runs_dir: Seq<char>)
    ensures
        is_all_asked_for(
            runtime,
            machine_label,
            runs_dir,
            option_words("--machine-label"@, machine_label) + option_words("--runs-dir"@, runs_dir)
                + list_option("--scenarios"@, texts(runtime.scenarios@)) + list_option(
                "--queues"@,
                texts(runtime.queues@),
            ) + list_option("--modes"@, texts(runtime.modes@)) + list_option(
                "--items-per-producer"@,
                count_texts(runtime.items_per_producer@),
            ) + option_words("--repeats"@, decimal(runtime.repeats as nat)) + repeated_option(
                "--seed-label"@,
                texts(runtime.ubq_labels@),
            ) + list_option("--fastfifo-block-sizes"@, number_texts(runtime.fastfifo_block_sizes@))
                + list_option(
                "--lfqueue-segment-sizes"@,
                number_texts(runtime.lfqueue_segment_sizes@),
            ) + list_option("--wcq-capacities"@, number_texts(runtime.wcq_capacities@)),
        ),
{
    let labels = texts(runtime.ubq_labels@);
    let a = option_words("--machine-label"@, machine_label);
    let b = option_words("--runs-dir"@, runs_dir);
    let c = list_option("--scenarios"@, texts(runtime.scenarios@));
    let d = list_option("--queues"@, texts(runtime.queues@));
    let e = list_option("--modes"@, texts(runtime.modes@));
    let f = list_option("--items-per-producer"@, count_texts(runtime.items_per_producer@));
    let g = option_words("--repeats"@, decimal(runtime.repeats as nat));
    let h = repeated_option("--seed-label"@, labels);
    let i = list_option("--fastfifo-block-sizes"@, number_texts(runtime.fastfifo_block_sizes@));
    let j = list_option("--lfqueue-segment-sizes"@, number_texts(runtime.lfqueue_segment_sizes@));
    let k = list_option("--wcq-capacities"@, number_texts(runtime.wcq_capacities@));
    lemma_asked_for_one(runtime, machine_label, runs_dir, "--machine-label"@, machine_label);
    lemma_asked_for_one(runtime, machine_label, runs_dir, "--runs-dir"@, runs_dir);
    lemma_asked_for_one(
        runtime,
        machine_label,
        runs_dir,
        "--repeats"@,
        decimal(runtime.repeats as nat),
    );
    if runtime.scenarios@.len() > 0 {
        lemma_asked_for_one(runtime, machine_label, runs_dir, c[0], c[1]);
        assert(c =~= seq![c[0], c[1]]);
    }
    if runtime.queues@.len() > 0 {
        lemma_asked_for_one(runtime, machine_label, runs_dir, d[0], d[1]);
        assert(d =~= seq![d[0], d[1]]);
    }
    if runtime.modes@.len() > 0 {
        lemma_asked_for_one(runtime, machine_label, runs_dir, e[0], e[1]);
        assert(e =~= seq![e[0], e[1]]);
    }
    if runtime.items_per_producer@.len() > 0 {
        lemma_asked_for_one(runtime, machine_label, runs_dir, f[0], f[1]);
        assert(f =~= seq![f[0], f[1]]);
    }
    if runtime.fastfifo_block_sizes@.len() > 0 {
        lemma_asked_for_one(runtime, machine_label, runs_dir, i[0], i[1]);
        assert(i =~= seq![i[0], i[1]]);
    }
    if runtime.lfqueue_segment_sizes@.len() > 0 {
        lemma_asked_for_one(runtime, machine_label, runs_dir, j[0], j[1]);
        assert(j =~= seq![j[0], j[1]]);
    }
    if runtime.wcq_capacities@.len() > 0 {
        lemma_asked_for_one(runtime, machine_label, runs_dir, k[0], k[1]);
        assert(k =~= seq![k[0], k[1]]);
    }
    lemma_repeated_option("--seed-label"@, labels);
    assert forall|n: int| 0 <= 2 * n < h.len() implies #[trigger] is_asked_for(
        runtime,
        machine_label,
        runs_dir,
        h[2 * n],
        h[2 * n + 1],
    ) by {
        assert(labels.contains(labels[n]));
        assert(h.subrange(2 * n, 2 * n + 2)[0] == h[2 * n]);
        assert(h.subrange(2 * n, 2 * n + 2)[1] == h[2 * n + 1]);
    }
    lemma_asked_for_both(runtime, machine_label, runs_dir, a, b);
    lemma_asked_for_both(runtime, machine_label, runs_dir, a + b, c);
    lemma_asked_for_both(runtime, machine_label, runs_dir, a + b + c, d);
    lemma_asked_for_both(runtime, machine_label, runs_dir, a + b + c + d, e);
    lemma_asked_for_both(runtime, machine_label, runs_dir, a + b + c + d + e, f);
    lemma_asked_for_both(runtime, machine_label, runs_dir, a + b + c + d + e + f, g);
    lemma_asked_for_both(runtime, machine_label, runs_dir, a + b + c + d + e + f + g, h);
    lemma_asked_for_both(runtime, machine_label, runs_dir, a + b + c + d + e + f + g + h, i);
    lemma_asked_for_both(runtime, machine_label, runs_dir, a + b + c + d + e + f + g + h + i, j);
    lemma_asked_for_both(
        runtime,
        machine_label,
        runs_dir,
        a + b + c + d + e + f + g + h + i + j,
        k,
    );
}

/// What stands behind the double hyphen of the search command are its arguments,
/// and the features before it are the registry and one for each kind of queue
/// that the list names, under any of its names and in any case.
pub proof fn law_the_search_command_takes_the_arguments(
    runtime: FleetRuntime,
    machine_label: Seq<char>,
    runs_dir: Seq<char>,
)
    ensures
        ({
            let words = search_words(runtime, machine_label, runs_dir);
            let features = feature_list(texts(runtime.queues@));
            &&& words.take(5) == seq!["cargo"@, "run"@, "--quiet"@, "--release"@, "--features"@]
            &&& words[5] == joined(features, ","@)
            &&& words.subrange(6, 9) == seq!["--bin"@, "bench_frontier"@, "--"@]
            &&& words.skip(9) == frontier_words(runtime, machine_label, runs_dir)
            &&& features[0] == "bench_registry"@
        }),
{
    let words = search_words(runtime, machine_label, runs_dir);
    assert(words.take(5) =~= seq!["cargo"@, "run"@, "--quiet"@, "--release"@, "--features"@]);
    assert(words.subrange(6, 9) =~= seq!["--bin"@, "bench_frontier"@, "--"@]);
    assert(words.skip(9) =~= frontier_words(runtime, machine_label, runs_dir));
}

/// A queue that needs a feature of its own brings that feature, however its name
/// is written, and without such a queue the feature is not there.
pub proof fn law_a_queue_brings_its_feature(queues: Seq<Seq<char>>)
    ensures
        ({
            let features = feature_list(queues);
            &&& features.contains("bench_fastfifo"@) <==> exists|i: int|
                0 <= i < queues.len() && seq!["fastfifo"@, "fast-fifo"@, "bbq"@].contains(
                    folded(#[trigger] queues[i]),
                )
            &&& features.contains("bench_lfqueue"@) <==> exists|i: int|
                0 <= i < queues.len() && seq![
                    "lfqueue"@,
                    "lf-queue"@,
                    "lscq"@,
                    "scq"@,
                ].contains(folded(#[trigger] queues[i]))
            &&& features.contains("bench_wcq"@) <==> exists|i: int|
                0 <= i < queues.len() && seq![
                    "wcq"@,
                    "w-cq"@,
                    "wait-free-cq"@,
                    "wait-free-queue"@,
                ].contains(folded(#[trigger] queues[i]))
        }),
{
    reveal_strlit("bench_registry");
    reveal_strlit("bench_fastfifo");
    reveal_strlit("bench_lfqueue");
    reveal_strlit("bench_wcq");
    assert("bench_registry"@.len() == 14 && "bench_fastfifo"@.len() == 14);
    assert("bench_registry"@[6] != "bench_fastfifo"@[6]);
    assert("bench_lfqueue"@.len() == 13 && "bench_wcq"@.len() == 9);
    let features = feature_list(queues);
    let a = selects(queues, fastfifo_names());
    let b = selects(queues, lfqueue_names());
    let c = selects(queues, wcq_names());
    if a {
        assert(features[1] == "bench_fastfifo"@);
    }
    if b {
        assert(features[if a {
            2int
        } else {
            1
        }] == "bench_lfqueue"@);
    }
    if c {
        assert(features[features.len() - 1] == "bench_wcq"@);
    }
    if features.contains("bench_fastfifo"@) {
        let i = features.index_of("bench_fastfifo"@);
        assert(features[i] == "bench_fastfifo"@);
    }
    if features.contains("bench_lfqueue"@) {
        let i = features.index_of("bench_lfqueue"@);
        assert(features[i] == "bench_lfqueue"@);
    }
    if features.contains("bench_wcq"@) {
        let i = features.index_of("bench_wcq"@);
        assert(features[i] == "bench_wcq"@);
    }
}

/// A machine's own setting comes before the one for all machines, and that one
/// before what is usual.
pub proof fn law_own_settings_come_first(
    own: Option<String>,
    shared: Option<String>,
    usual: Seq<char>,
    texts_set: Option<Vec<String>>,
    numbers_set: Option<Vec<usize>>,
    some_texts: Seq<Seq<char>>,
    some_numbers: Seq<usize>,
)
    ensures
        own matches Some(text) ==> first_text(own, shared, usual) == text@,
        own is None && shared is Some ==> first_text(own, shared, usual) == shared->0@,
        own is None && shared is None ==> first_text(own, shared, usual) == usual,
        own matches Some(text) ==> text_or(own, usual) == text@,
        own is None ==> text_or(own, usual) == usual,
        texts_set matches Some(list) ==> texts_or(texts_set, some_texts) == texts(list@),
        texts_set is None ==> texts_or(texts_set, some_texts) == some_texts,
        numbers_set matches Some(list) ==> numbers_or(numbers_set, some_numbers) == list@,
        numbers_set is None ==> numbers_or(numbers_set, some_numbers) == some_numbers,
{
}

/// What a remote machine runs ends with a command line, behind the change into
/// its repository, that a shell reads as the search with the machine's label and
/// its own directory for the results.
pub proof fn law_a_remote_machine_runs_the_search_in_its_repository(
    runtime: FleetRuntime,
    machine: ResolvedMachine,
) -> (parts: (Seq<char>, Seq<char>))
    ensures
        remote_payload(runtime, machine) == parts.0 + "cd "@ + cd_argument(
            machine.remote_repo_dir@,
        ) + " && "@ + parts.1,
        crate::tooling::fleet::shell_words(parts.1) == search_words(
            runtime,
            machine.machine_label@,
            machine.remote_runs_dir@,
        ),
{
    let words = search_words(runtime, machine.machine_label@, machine.remote_runs_dir@);
    let line = command_line(words);
    crate::tooling::fleet::law_a_shell_reads_the_words_back(words);
    let front =
        "if [ -f \"$HOME/.cargo/env\" ]; then . \"$HOME/.cargo/env\"; fi; export PATH=\"$HOME/.cargo/bin:$PATH\"; cd "@;
    reveal_strlit(
        "if [ -f \"$HOME/.cargo/env\" ]; then . \"$HOME/.cargo/env\"; fi; export PATH=\"$HOME/.cargo/bin:$PATH\"; cd ",
    );
    reveal_strlit("cd ");
    let first = front.take(front.len() - 3);
    assert(front =~= first + "cd "@);
    (first, line)
}

/// Every remote command goes to the host of its machine over ssh, as one text.
pub proof fn law_remote_commands_go_to_the_host(
    machine: ResolvedMachine,
    session: Seq<char>,
    root: Seq<char>,
    payload: Seq<char>,
    log: Seq<char>,
)
    ensures
        check_words(machine, session).take(2) == seq!["ssh"@, machine.host@],
        count_words(machine, root).take(2) == seq!["ssh"@, machine.host@],
        launch_words(machine, session, payload, log).take(2) == seq!["ssh"@, machine.host@],
        stream_words(machine, session, log).take(2) == seq!["ssh"@, machine.host@],
        exists_words(machine, root).take(2) == seq!["ssh"@, machine.host@],
        check_words(machine, session).len() == 3,
        count_words(machine, root).len() == 3,
        launch_words(machine, session, payload, log).len() == 3,
        stream_words(machine, session, log).len() == 3,
        exists_words(machine, root).len() == 3,
{
}

/// In a session name a label keeps its letters and digits at their places, and has
/// an underscore at every other place.
pub proof fn law_safe_label_place_by_place(label: Seq<char>, i: int)
    requires
        0 <= i < label.len(),
    ensures
        safe_label(label).len() == label.len(),
        safe_label(label)[i] == (if alphanumeric(label[i]) {
            label[i]
        } else {
            '_'
        }),
{
}

/// A number with a sign is the number without it behind a hyphen.
pub proof fn law_signed_numbers(code: i32)
    ensures
        code >= 0 ==> signed(code) == decimal(code as nat),
        code < 0 ==> signed(code) == seq!['-'] + decimal((-code) as nat),
{
    reveal_strlit("-");
    assert("-"@ =~= seq!['-']);
}

/// The repository is copied from the current directory to the machine's own: what
/// is named is copied, and everything behind that, the last word before the two
/// directories, is left out.
pub proof fn law_the_repository_is_copied_to_the_machine(machine: ResolvedMachine)
    ensures
        ({
            let words = sync_words(machine);
            let n = words.len() as int;
            &&& words[0] == "rsync"@
            &&& words[n - 1] == machine.host@ + ":"@ + trim_end_slashes(machine.remote_repo_dir@)
                + "/"@
            &&& words[n - 2] == "./"@
            &&& words[n - 3] == "--exclude=*"@
            &&& words.contains("--delete"@)
            &&& words.contains("--include=/Cargo.toml"@)
            &&& words.contains("--include=/Cargo.lock"@)
            &&& words.contains("--include=/build.rs"@)
            &&& words.contains("--include=/.gitmodules"@)
            &&& words.contains("--include=/src/"@) && words.contains("--include=/src/**"@)
            &&& words.contains("--include=/benches/"@) && words.contains("--include=/benches/**"@)
        }),
{
    let words = sync_words(machine);
    assert(words[2] == "--delete"@ && words[4] == "--include=/.gitmodules"@);
    assert(words[5] == "--include=/Cargo.toml"@ && words[6] == "--include=/Cargo.lock"@);
    assert(words[7] == "--include=/build.rs"@ && words[8] == "--include=/src/"@);
    assert(words[9] == "--include=/src/**"@ && words[10] == "--include=/benches/"@);
    assert(words[11] == "--include=/benches/**"@);
}

/// The plots are drawn of the directory with the runs into the one for the plots,
/// and the two switches are there exactly where they are asked for.
pub proof fn law_the_plot_command(runtime: FleetRuntime, python: Seq<char>, no_clean: bool)
    ensures
        ({
            let words = plot_words(runtime, python, no_clean);
            &&& words[0] == python
            &&& words[2] == "--runs-dir"@ && words[3] == runtime.runs_dir@
            &&& words[4] == "--out-dir"@ && words[5] == runtime.plot_out_dir@
            &&& words.skip(6) == (if no_clean && runtime.dry_run {
                seq!["--no-clean"@, "--dry-run"@]
            } else if no_clean {
                seq!["--no-clean"@]
            } else if runtime.dry_run {
                seq!["--dry-run"@]
            } else {
                Seq::empty()
            })
        }),
{
    let words = plot_words(runtime, python, no_clean);
    assert(words.skip(6) =~= (if no_clean && runtime.dry_run {
        seq!["--no-clean"@, "--dry-run"@]
    } else if no_clean {
        seq!["--no-clean"@]
    } else if runtime.dry_run {
        seq!["--dry-run"@]
    } else {
        Seq::empty()
    }));
}

/// A session writes its mark into its log behind all that the search prints: what
/// it runs holds the search, and ends with the mark and the log.
pub proof fn law_a_session_marks_the_end_of_its_log(payload: Seq<char>, log: Seq<char>) -> (parts: (
    Seq<char>,
    Seq<char>,
))
    ensures
        session_text(payload, log) == parts.0 + payload + parts.1 + "; echo __BENCH_DONE__ >> "@
            + log,
{
    let front = "mkdir -p $(dirname "@ + log + ") && { "@;
    let back = "; } 2>&1 | tee "@ + log;
    assert(session_text(payload, log) =~= front + payload + back + "; echo __BENCH_DONE__ >> "@
        + log);
    (front, back)
}

} // verus!
