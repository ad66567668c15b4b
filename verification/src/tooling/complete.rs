//! The command line of the search that completes a set of measurements.
use vstd::prelude::*;

use crate::order::{first_position, lemma_first_position};
use crate::text::{
    begins, chars_of, folded, is_digit, is_space, join, joined, lemma_split_at, lemma_split_whole, lower_char, same, split, starts_with, string_of,
    texts, to_lower_char, trim, trimmed,
};
use crate::tooling::commands::{copy_texts, push_word, signed, signed_text, word_views};
use crate::tooling::fleet::normalize_machine;
use crate::tooling::options::{joined_name, joined_value, match_option, OptionMatch};
use crate::tooling::paths::find_last;
use crate::tooling::scenarios::{parse_scenarios, scenarios_sorted};
use crate::tooling::search::{
    accepted_label, backoffs, blocks, is_valid, label_of, nonblank, normalize_ubq_label, pools,
    presets, LabelParts,
};
use crate::tooling::shorthand::{is_known_label, spelled_out, stands_for};

verus! {

/// What has been read from the command line.
pub struct CompleteDraft {
    pub machine_label: Option<String>,
    pub runs_dir: String,
    pub scenarios: Option<String>,
    pub mode: String,
    pub seed_label: Option<String>,
    pub allow_incomplete: bool,
    pub bench_script: String,
    pub bench_args: Vec<String>,
    pub dry_run: bool,
}

/// The contents of a draft.
pub struct DraftParts {
    pub machine_label: Option<Seq<char>>,
    pub runs_dir: Seq<char>,
    pub scenarios: Option<Seq<char>>,
    pub mode: Seq<char>,
    pub seed_label: Option<Seq<char>>,
    pub allow_incomplete: bool,
    pub bench_script: Seq<char>,
    pub bench_args: Seq<Seq<char>>,
    pub dry_run: bool,
}

/// The characters of a text that may be missing.
pub open spec fn maybe(text: Option<String>) -> Option<Seq<char>> {
    match text {
        Some(text) => Some(text@),
        None => None,
    }
}

impl View for CompleteDraft {
    type V = DraftParts;

    open spec fn view(&self) -> DraftParts {
        DraftParts {
            machine_label: maybe(self.machine_label),
            runs_dir: self.runs_dir@,
            scenarios: maybe(self.scenarios),
            mode: self.mode@,
            seed_label: maybe(self.seed_label),
            allow_incomplete: self.allow_incomplete,
            bench_script: self.bench_script@,
            bench_args: texts(self.bench_args@),
            dry_run: self.dry_run,
        }
    }
}

/// The names of the options that take a value.
pub open spec fn value_options() -> Seq<Seq<char>> {
    seq![
        "--machine-label"@,
        "--runs-dir"@,
        "--scenarios"@,
        "--mode"@,
        "--seed-label"@,
        "--bench-script"@,
        "--bench-arg"@,
    ]
}

/// Before anything is read.
pub open spec fn blank() -> DraftParts {
    DraftParts {
        machine_label: None,
        runs_dir: "bench_results/runs"@,
        scenarios: None,
        mode: "throughput"@,
        seed_label: Some("v4,8,127"@),
        allow_incomplete: false,
        bench_script: "./scripts/bench_dual_host.sh"@,
        bench_args: Seq::empty(),
        dry_run: false,
    }
}

/// The effect of the option with a number.
pub open spec fn with_option(draft: DraftParts, k: int, value: Seq<char>) -> DraftParts {
    if k == 0 {
        DraftParts { machine_label: Some(trimmed(value)), ..draft }
    } else if k == 1 {
        DraftParts { runs_dir: value, ..draft }
    } else if k == 2 {
        DraftParts { scenarios: Some(value), ..draft }
    } else if k == 3 {
        DraftParts { mode: trimmed(value), ..draft }
    } else if k == 4 {
        DraftParts {
            seed_label: if trimmed(value).len() == 0 {
                None
            } else {
                Some(trimmed(value))
            },
            ..draft
        }
    } else if k == 5 {
        DraftParts { bench_script: value, ..draft }
    } else {
        DraftParts { bench_args: draft.bench_args.push(value), ..draft }
    }
}

/// What a command line amounts to.
pub enum Reading {
    Help,
    Draft(DraftParts),
    Refused(Seq<char>),
}

pub open spec fn removed_option() -> Seq<char> {
    "--max-rounds was removed; the search now stops on completion, missing seed, or no-progress within a finite UBQ label space"@
}

/// The arguments one after the other. The first that cannot be taken decides.
pub open spec fn reading(args: Seq<Seq<char>>, draft: DraftParts) -> Reading
    decreases args.len(),
{
    if args.len() == 0 {
        Reading::Draft(draft)
    } else {
        let arg = args[0];
        let rest = args.skip(1);
        if arg == "--help"@ || arg == "-h"@ {
            Reading::Help
        } else if arg == "--allow-incomplete"@ {
            reading(rest, DraftParts { allow_incomplete: true, ..draft })
        } else if arg == "--dry-run"@ {
            reading(rest, DraftParts { dry_run: true, ..draft })
        } else {
            match first_position(value_options(), arg) {
                Some(k) => if rest.len() == 0 {
                    Reading::Refused(arg + " requires a value"@)
                } else {
                    reading(args.skip(2), with_option(draft, k, rest[0]))
                },
                None => match joined_name(arg, value_options()) {
                    Some(k) => reading(
                        rest,
                        with_option(draft, k, joined_value(arg, value_options()[k])),
                    ),
                    None => if arg == "--max-rounds"@ || begins(arg, "--max-rounds="@) {
                        Reading::Refused(removed_option())
                    } else {
                        Reading::Refused("unknown argument: "@ + arg)
                    },
                },
            }
        }
    }
}

impl CompleteDraft {
    fn set(&mut self, k: usize, value: &str)
        requires
            k < 7,
        ensures
            final(self)@ == with_option(old(self)@, k as int, value@),
    {
        if k == 0 {
            self.machine_label = Some(trim(value));
        } else if k == 1 {
            self.runs_dir = value.to_owned();
        } else if k == 2 {
            self.scenarios = Some(value.to_owned());
        } else if k == 3 {
            self.mode = trim(value);
        } else if k == 4 {
            let seed = trim(value);
            self.seed_label =
            if chars_of(seed.as_str()).len() == 0 {
                None
            } else {
                Some(seed)
            };
        } else if k == 5 {
            self.bench_script = value.to_owned();
        } else {
            push_word(&mut self.bench_args, value);
        }
    }
}

/// The outcome of reading a command line.
pub enum CommandLine {
    Help,
    Draft(CompleteDraft),
    Refused(String),
}

impl View for CommandLine {
    type V = Reading;

    open spec fn view(&self) -> Reading {
        match self {
            CommandLine::Help => Reading::Help,
            CommandLine::Draft(draft) => Reading::Draft(draft@),
            CommandLine::Refused(message) => Reading::Refused(message@),
        }
    }
}

/// Reads a command line without the program name.
pub fn read_args(args: &Vec<String>) -> (line: CommandLine)
    ensures
        line@ == reading(texts(args@), blank()),
{
    let ghost all = texts(args@);
    let mut draft = CompleteDraft {
        machine_label: None,
        runs_dir: "bench_results/runs".to_owned(),
        scenarios: None,
        mode: "throughput".to_owned(),
        seed_label: Some("v4,8,127".to_owned()),
        allow_incomplete: false,
        bench_script: "./scripts/bench_dual_host.sh".to_owned(),
        bench_args: Vec::new(),
        dry_run: false,
    };
    assert(texts(draft.bench_args@) =~= Seq::<Seq<char>>::empty());
    assert(draft@ == blank());
    let names: [&str; 7] = [
        "--machine-label",
        "--runs-dir",
        "--scenarios",
        "--mode",
        "--seed-label",
        "--bench-script",
        "--bench-arg",
    ];
    assert(word_views(names@) =~= value_options());
    let mut i: usize = 0;
    assert(all.skip(0) =~= all);
    while i < args.len()
        invariant
            all == texts(args@),
            word_views(names@) == value_options(),
            names@.len() == 7,
            i <= args@.len(),
            reading(all, blank()) == reading(all.skip(i as int), draft@),
        decreases args@.len() - i,
    {
        let ghost part = all.skip(i as int);
        proof {
            assert(part[0] == args@[i as int]@);
            assert(part.skip(1) =~= all.skip(i + 1));
            if i + 1 < all.len() {
                assert(part.skip(1)[0] == args@[i + 1]@);
                assert(part.skip(2) =~= all.skip(i + 2));
            }
        }
        let arg = args[i].as_str();
        if same(arg, "--help") || same(arg, "-h") {
            return CommandLine::Help;
        }
        if same(arg, "--allow-incomplete") {
            draft.allow_incomplete = true;
            i = i + 1;
        } else if same(arg, "--dry-run") {
            draft.dry_run = true;
            i = i + 1;
        } else {
            match match_option(arg, &names) {
                OptionMatch::Bare(k) => {
                    if i + 1 >= args.len() {
                        let mut message = arg.to_owned();
                        message.append(" requires a value");
                        assert(part.skip(1).len() == 0);
                        return CommandLine::Refused(message);
                    }
                    draft.set(k, args[i + 1].as_str());
                    i = i + 2;
                },
                OptionMatch::Joined(k, value) => {
                    draft.set(k, value.as_str());
                    i = i + 1;
                },
                OptionMatch::No => {
                    if same(arg, "--max-rounds") || starts_with(arg, "--max-rounds=") {
                        return CommandLine::Refused(
                            "--max-rounds was removed; the search now stops on completion, missing seed, or no-progress within a finite UBQ label space".to_owned(),
                        );
                    }
                    let mut message = "unknown argument: ".to_owned();
                    message.append(arg);
                    return CommandLine::Refused(message);
                },
            }
        }
    }
    assert(all.skip(i as int) =~= Seq::<Seq<char>>::empty());
    CommandLine::Draft(draft)
}

/// The settings of the search.
pub struct CompleteArgs {
    pub machine_label: String,
    pub runs_dir: String,
    pub scenarios: Vec<String>,
    pub mode: String,
    pub seed_label: Option<String>,
    pub allow_incomplete: bool,
    pub bench_script: String,
    pub bench_args: Vec<String>,
    pub dry_run: bool,
}

/// The machine that a draft names.
pub open spec fn named_machine(draft: DraftParts) -> Seq<char> {
    match draft.machine_label {
        Some(label) => folded(label),
        None => Seq::empty(),
    }
}

/// Whether some scenario that is asked for has a name.
pub open spec fn some_scenario(draft: CompleteDraft) -> bool {
    exists|t: Seq<char>|
        #![trigger scenario_source(draft).contains(t)]
        scenario_source(draft).contains(t) && t.len() > 0
}

/// The scenarios that a draft asks for.
pub open spec fn scenario_source(draft: CompleteDraft) -> Seq<Seq<char>> {
    match draft.scenarios {
        Some(text) => crate::tooling::scenarios::scenario_names(
            crate::tooling::search::trimmed_items(crate::text::split(text@, ',')),
        ),
        None => crate::tooling::scenarios::default_scenarios(),
    }
}

/// What a seed is kept as: a label in the usual notation, or a short label as
/// it was given.
pub open spec fn seed_text(seed: Seq<char>) -> Option<Seq<char>> {
    match accepted_label(seed, true) {
        Some(label) => Some(label.written(","@)),
        None => if stands_for(seed) is Some {
            Some(seed)
        } else {
            None
        },
    }
}

/// What stands in the way of a draft, the first of: no machine, no script, no
/// scenario, a seed that cannot be built.
pub open spec fn draft_refusal(draft: CompleteDraft, script_exists: bool) -> Option<Seq<char>> {
    if named_machine(draft@).len() == 0 {
        Some("--machine-label is required"@)
    } else if !script_exists {
        Some("bench script not found: "@ + draft.bench_script@)
    } else if !some_scenario(draft) {
        Some("no scenarios configured"@)
    } else {
        match draft.seed_label {
            Some(seed) => if seed_text(seed@) is None {
                Some("invalid --seed-label '"@ + seed@ + "'"@)
            } else {
                None
            },
            None => None,
        }
    }
}

/// Checks a draft. `script_exists` says whether its bench script is there.
pub fn check_args(draft: CompleteDraft, script_exists: bool) -> (result: Result<
    CompleteArgs,
    String,
>)
    ensures
        match result {
            Ok(args) => {
                &&& draft_refusal(draft, script_exists) is None
                &&& args.machine_label@ == named_machine(draft@)
                &&& args.runs_dir@ == draft.runs_dir@
                &&& scenarios_sorted(texts(args.scenarios@))
                &&& texts(args.scenarios@).no_duplicates()
                &&& forall|t: Seq<char>| #[trigger]
                    texts(args.scenarios@).contains(t) <==> scenario_source(draft).contains(t)
                        && t.len() > 0
                &&& args.mode@ == draft.mode@
                &&& match (args.seed_label, draft.seed_label) {
                    (Some(label), Some(seed)) => seed_text(seed@) == Some(label@),
                    (None, None) => true,
                    _ => false,
                }
                &&& args.allow_incomplete == draft.allow_incomplete
                &&& args.bench_script@ == draft.bench_script@
                &&& texts(args.bench_args@) == texts(draft.bench_args@)
                &&& args.dry_run == draft.dry_run
            },
            Err(message) => draft_refusal(draft, script_exists) == Some(message@),
        },
{
    let machine_label = match &draft.machine_label {
        Some(label) => normalize_machine(label.as_str()),
        None => "".to_owned(),
    };
    proof {
        reveal_strlit("");
    }
    if chars_of(machine_label.as_str()).len() == 0 {
        return Err("--machine-label is required".to_owned());
    }
    if !script_exists {
        let mut message = "bench script not found: ".to_owned();
        message.append(draft.bench_script.as_str());
        return Err(message);
    }
    let scenarios = match &draft.scenarios {
        Some(text) => parse_scenarios(Some(text.as_str())),
        None => parse_scenarios(None),
    };
    let ghost list = texts(scenarios@);
    if scenarios.len() == 0 {
        assert(list.len() == 0);
        assert forall|t: Seq<char>| #![trigger scenario_source(draft).contains(t)]
            !(scenario_source(draft).contains(t) && t.len() > 0) by {
            assert(!list.contains(t));
        }
        return Err("no scenarios configured".to_owned());
    }
    assert(some_scenario(draft)) by {
        assert(list.contains(list[0]));
        assert(scenario_source(draft).contains(list[0]));
    }
    let seed_label = match &draft.seed_label {
        Some(seed) => {
            match normalize_ubq_label(seed.as_str(), true) {
                Some(label) => Some(label),
                None => {
                    if !is_known_label(seed.as_str()) {
                        let mut message = "invalid --seed-label '".to_owned();
                        message.append(seed.as_str());
                        message.append("'");
                        return Err(message);
                    }
                    Some(seed.clone())
                },
            }
        },
        None => None,
    };
    Ok(
        CompleteArgs {
            machine_label,
            runs_dir: draft.runs_dir,
            scenarios,
            mode: draft.mode,
            seed_label,
            allow_incomplete: draft.allow_incomplete,
            bench_script: draft.bench_script,
            bench_args: draft.bench_args,
            dry_run: draft.dry_run,
        },
    )
}

/// Where the names of a path begin: behind the root, or behind a leading dot
/// that stands for the current directory.
pub open spec fn path_front(path: Seq<char>) -> int {
    if path.len() > 0 && (path[0] == '/' || (path[0] == '.' && (path.len() == 1 || path[1]
        == '/'))) {
        1
    } else {
        0
    }
}

/// Where the last part of a path begins.
pub open spec fn last_part(path: Seq<char>, front: int) -> int {
    let at = find_last(path, '/');
    if at >= front {
        at + 1
    } else {
        front
    }
}

/// The path without its last part and the slash before it.
pub open spec fn without_last(path: Seq<char>, front: int) -> Seq<char> {
    let at = find_last(path, '/');
    path.take(
        if at >= front {
            at
        } else {
            front
        },
    )
}

/// The path without parts at its end that are empty or a dot.
pub open spec fn without_void_parts(path: Seq<char>, front: int) -> Seq<char>
    decreases path.len(),
{
    if path.len() <= front || front < 0 {
        path
    } else {
        let last = path.skip(last_part(path, front));
        let rest = without_last(path, front);
        if (last.len() == 0 || last == "."@) && rest.len() < path.len() {
            without_void_parts(rest, front)
        } else {
            path
        }
    }
}

/// The directory that holds a path of Unix, a dot if there is none.
pub open spec fn holder(path: Seq<char>) -> Seq<char> {
    let front = path_front(path);
    let core = without_void_parts(path, front);
    let dir = without_void_parts(without_last(core, front), front);
    if core.len() <= front || dir.len() == 0 {
        "."@
    } else {
        dir
    }
}

proof fn lemma_find_last(s: Seq<char>, c: char)
    ensures
        -1 <= find_last(s, c) < s.len(),
        find_last(s, c) >= 0 ==> s[find_last(s, c)] == c,
        forall|j: int| find_last(s, c) < j < s.len() ==> s[j] != c,
    decreases s.len(),
{
    if s.len() > 0 && s.last() != c {
        lemma_find_last(s.drop_last(), c);
        assert forall|j: int| find_last(s, c) < j < s.len() implies s[j] != c by {
            if j < s.len() - 1 {
                assert(s.drop_last()[j] == s[j]);
            }
        }
    }
}

/// Where a slash occurs last before `end`, or `end` if nowhere behind `front`.
fn last_slash(chars: &Vec<char>, front: usize, end: usize) -> (at: Option<usize>)
    requires
        front <= end <= chars@.len(),
    ensures
        match at {
            Some(at) => front <= at < end && find_last(chars@.take(end as int), '/') == at,
            None => find_last(chars@.take(end as int), '/') < front,
        },
{
    let ghost part = chars@.take(end as int);
    proof {
        lemma_find_last(part, '/');
    }
    let mut i: usize = end;
    while i > front
        invariant
            front <= i <= end <= chars@.len(),
            part == chars@.take(end as int),
            -1 <= find_last(part, '/') < part.len(),
            find_last(part, '/') >= 0 ==> part[find_last(part, '/')] == '/',
            forall|j: int| find_last(part, '/') < j < part.len() ==> part[j] != '/',
            forall|j: int| i <= j < end ==> part[j] != '/',
        decreases i,
    {
        assert(part[i - 1] == chars@[i - 1]);
        if chars[i - 1] == '/' {
            return Some(i - 1);
        }
        i = i - 1;
    }
    None
}

/// Drops parts at the end that are empty or a dot.
fn trim_void_parts(chars: &Vec<char>, front: usize, from: usize) -> (end: usize)
    requires
        front <= 1,
        from <= chars@.len(),
    ensures
        end <= from,
        chars@.take(end as int) == without_void_parts(chars@.take(from as int), front as int),
{
    proof {
        reveal_strlit(".");
    }
    let ghost whole = chars@.take(from as int);
    let mut end: usize = from;
    while end > front
        invariant
            front <= 1,
            end <= from <= chars@.len(),
            "."@.len() == 1,
            "."@[0] == '.',
            whole == chars@.take(from as int),
            without_void_parts(whole, front as int) == without_void_parts(
                chars@.take(end as int),
                front as int,
            ),
        ensures
            without_void_parts(whole, front as int) == chars@.take(end as int),
        decreases end,
    {
        let ghost part = chars@.take(end as int);
        let (start, rest): (usize, usize) = match last_slash(chars, front, end) {
            Some(at) => (at + 1, at),
            None => (front, front),
        };
        assert(start == last_part(part, front as int));
        assert(chars@.take(rest as int) =~= without_last(part, front as int));
        let ghost last = part.skip(start as int);
        let is_dot = end - start == 1 && chars[start] == '.';
        proof {
            if is_dot {
                assert(last =~= "."@);
            }
            if last == "."@ {
                assert(last[0] == part[start as int]);
                assert(last.len() == end - start);
            }
        }
        if start == end || is_dot {
            end = rest;
        } else {
            break;
        }
    }
    end
}

/// The directory that holds a path of Unix, a dot if there is none.
pub fn holding_dir(path: &str) -> (dir: String)
    ensures
        dir@ == holder(path@),
{
    let chars = chars_of(path);
    let front: usize = if chars.len() > 0 && (chars[0] == '/' || (chars[0] == '.' && (chars.len()
        == 1 || chars[1] == '/'))) {
        1
    } else {
        0
    };
    assert(chars@.take(chars@.len() as int) =~= chars@);
    let end: usize = trim_void_parts(&chars, front, chars.len());
    if end <= front {
        return ".".to_owned();
    }
    let rest: usize = match last_slash(&chars, front, end) {
        Some(at) => at,
        None => front,
    };
    assert(chars@.take(rest as int) =~= without_last(chars@.take(end as int), front as int));
    let end: usize = trim_void_parts(&chars, front, rest);
    if end == 0 {
        return ".".to_owned();
    }
    let dir = string_of(&chars, 0, end);
    assert(dir@ =~= chars@.take(end as int));
    dir
}

/// The command that measures configurations in a scenario.
pub open spec fn bench_words(
    args: CompleteArgs,
    scenario: Seq<char>,
    labels: Seq<Seq<char>>,
) -> Seq<Seq<char>> {
    seq![
        args.bench_script@,
        "--ubq-labels"@,
        joined(labels, ";"@),
        "--out-root"@,
        holder(args.runs_dir@),
        "--scenarios"@,
        scenario,
        "--throughput-only"@,
        "--n=1"@,
        "--skip-plot"@,
        "--skip-remote"@,
        "--local-machine-label"@,
        args.machine_label@,
    ] + texts(args.bench_args@)
}

pub fn build_bench_cmd(args: &CompleteArgs, scenario: &str, labels: &Vec<String>) -> (cmd: Vec<
    String,
>)
    ensures
        texts(cmd@) == bench_words(*args, scenario@, texts(labels@)),
{
    let list = join(labels, ";");
    let out_root = holding_dir(args.runs_dir.as_str());
    let mut cmd: Vec<String> = Vec::new();
    push_word(&mut cmd, args.bench_script.as_str());
    push_word(&mut cmd, "--ubq-labels");
    push_word(&mut cmd, list.as_str());
    push_word(&mut cmd, "--out-root");
    push_word(&mut cmd, out_root.as_str());
    push_word(&mut cmd, "--scenarios");
    push_word(&mut cmd, scenario);
    push_word(&mut cmd, "--throughput-only");
    push_word(&mut cmd, "--n=1");
    push_word(&mut cmd, "--skip-plot");
    push_word(&mut cmd, "--skip-remote");
    push_word(&mut cmd, "--local-machine-label");
    push_word(&mut cmd, args.machine_label.as_str());
    let ghost front = texts(cmd@);
    let mut more = copy_texts(&args.bench_args);
    let ghost rest = texts(more@);
    cmd.append(&mut more);
    assert(texts(cmd@) =~= front + rest);
    assert(texts(cmd@) =~= bench_words(*args, scenario@, texts(labels@)));
    cmd
}

/// A character that a file name may hold.
pub open spec fn file_char(c: char) -> char {
    if 'a' <= c <= 'z' || 'A' <= c <= 'Z' || is_digit(c) || c == '.' || c == '_' || c == '-' {
        lower_char(c)
    } else {
        '_'
    }
}

/// The text without underscores at its start.
pub open spec fn no_front_bars(s: Seq<char>) -> Seq<char>
    decreases s.len(),
{
    if s.len() > 0 && s[0] == '_' {
        no_front_bars(s.drop_first())
    } else {
        s
    }
}

/// The text without underscores at its end.
pub open spec fn no_end_bars(s: Seq<char>) -> Seq<char>
    decreases s.len(),
{
    if s.len() > 0 && s.last() == '_' {
        no_end_bars(s.drop_last())
    } else {
        s
    }
}

/// A text as a part of a file name.
pub open spec fn sanitized(raw: Seq<char>) -> Seq<char> {
    let core = no_end_bars(no_front_bars(raw.map_values(|c: char| file_char(c))));
    if core.len() == 0 {
        "name"@
    } else {
        core
    }
}

pub fn sanitize_name(raw: &str) -> (name: String)
    ensures
        name@ == sanitized(raw@),
{
    let source = chars_of(raw);
    let mut chars: Vec<char> = Vec::new();
    let mut i: usize = 0;
    while i < source.len()
        invariant
            i <= source@.len(),
            chars@.len() == i,
            forall|j: int| 0 <= j < i ==> chars@[j] == file_char(source@[j]),
        decreases source@.len() - i,
    {
        let c = source[i];
        if ('a' <= c && c <= 'z') || ('A' <= c && c <= 'Z') || crate::text::digit(c) || c == '.'
            || c == '_' || c == '-' {
            chars.push(to_lower_char(c));
        } else {
            chars.push('_');
        }
        i = i + 1;
    }
    let ghost all = raw@.map_values(|c: char| file_char(c));
    assert(chars@ =~= all);
    let mut from: usize = 0;
    assert(all.skip(0) =~= all);
    while from < chars.len() && chars[from] == '_'
        invariant
            chars@ == all,
            from <= chars@.len(),
            no_front_bars(all) == no_front_bars(all.skip(from as int)),
        decreases chars@.len() - from,
    {
        assert(all.skip(from as int).drop_first() =~= all.skip(from + 1));
        from = from + 1;
    }
    let ghost core = all.skip(from as int);
    assert(no_front_bars(all) == core);
    let mut to: usize = chars.len();
    assert(all.subrange(from as int, to as int) =~= core);
    while to > from && chars[to - 1] == '_'
        invariant
            chars@ == all,
            from <= to <= chars@.len(),
            no_end_bars(core) == no_end_bars(all.subrange(from as int, to as int)),
        decreases to,
    {
        assert(all.subrange(from as int, to as int).drop_last() =~= all.subrange(
            from as int,
            to - 1,
        ));
        to = to - 1;
    }
    assert(no_end_bars(core) == all.subrange(from as int, to as int));
    if from == to {
        return "name".to_owned();
    }
    string_of(&chars, from, to)
}

/// The log file of a round, below the log directory.
pub fn bench_log_name(machine_label: &str, scenario: &str, round_idx: usize, stamp: u64) -> (name: (
    String,
    String,
))
    ensures
        name.0@ == sanitized(machine_label@),
        name.1@ == sanitized(scenario@) + "_round"@ + crate::text::decimal(round_idx as nat) + "_"@
            + crate::text::decimal(stamp as nat) + ".log"@,
{
    let dir = sanitize_name(machine_label);
    let mut file = sanitize_name(scenario);
    file.append("_round");
    let number = crate::text::decimal_text(round_idx as u128);
    file.append(number.as_str());
    file.append("_");
    let number = crate::text::decimal_text(stamp as u128);
    file.append(number.as_str());
    file.append(".log");
    (dir, file)
}

/// When a running command is next reported on, in seconds since its start.
#[derive(Clone, Copy, Debug, PartialEq, Eq, Structural)]
pub struct Progress {
    pub next_secs: u64,
}

impl Progress {
    /// The first report comes after half a minute.
    pub fn new() -> (progress: Progress)
        ensures
            progress.next_secs == 30,
    {
        Progress { next_secs: 30 }
    }

    /// Whether a report is due; if it is, the next comes half a minute later.
    pub fn due(&mut self, elapsed_secs: u64) -> (due: bool)
        requires
            old(self).next_secs <= u64::MAX - 30,
        ensures
            due == (elapsed_secs >= old(self).next_secs),
            final(self).next_secs == (if due {
                old(self).next_secs + 30
            } else {
                old(self).next_secs as int
            }),
    {
        if elapsed_secs >= self.next_secs {
            self.next_secs = self.next_secs + 30;
            true
        } else {
            false
        }
    }
}

/// The exit code that counts: that of a command killed by a signal is one.
pub open spec fn exit_code(code: Option<i32>) -> i32 {
    match code {
        Some(code) => code,
        None => 1,
    }
}

/// What a benchmark command's exit means.
pub fn bench_result(code: Option<i32>, log_path: &str) -> (result: Result<(), String>)
    ensures
        match result {
            Ok(_) => code == Some(0i32),
            Err(message) => code != Some(0i32) && message@ == "bench command failed with exit code "@
                + signed(exit_code(code)) + " (log: "@ + log_path@ + ")"@,
        },
{
    let number: i32 = match code {
        Some(code) => code,
        None => 1,
    };
    if code.is_some() && number == 0 {
        return Ok(());
    }
    let mut message = "bench command failed with exit code ".to_owned();
    message.append(signed_text(number).as_str());
    message.append(" (log: ");
    message.append(log_path);
    message.append(")");
    Err(message)
}

/// The last lines of a log.
pub fn log_tail(lines: Vec<String>, max_lines: usize) -> (tail: Vec<String>)
    ensures
        texts(tail@) == (if lines@.len() > max_lines {
            texts(lines@).skip(lines@.len() - max_lines)
        } else {
            texts(lines@)
        }),
{
    if lines.len() <= max_lines {
        return lines;
    }
    let ghost all = texts(lines@);
    let start: usize = lines.len() - max_lines;
    let mut tail: Vec<String> = Vec::new();
    let mut i: usize = start;
    while i < lines.len()
        invariant
            all == texts(lines@),
            start <= i <= lines@.len(),
            tail@.len() == i - start,
            forall|j: int| 0 <= j < i - start ==> #[trigger] tail@[j]@ == all[start + j],
        decreases lines@.len() - i,
    {
        assert(all[i as int] == lines@[i as int]@);
        tail.push(lines[i].clone());
        i = i + 1;
    }
    assert(texts(tail@) =~= all.skip(start as int));
    tail
}

/// A text of lower-case letters, digits and signs is its own folded form.
proof fn lemma_plain(s: Seq<char>)
    requires
        s.len() > 0,
        forall|i: int| 0 <= i < s.len() ==> lower_char(#[trigger] s[i]) == s[i],
        !is_space(s[0]),
        !is_space(s.last()),
    ensures
        folded(s) == s,
        trimmed(s) == s,
{
    assert(folded(s) =~= s);
}

/// Three fields between commas.
proof fn lemma_three_fields(a: Seq<char>, b: Seq<char>, c: Seq<char>)
    requires
        !a.contains(','),
        !b.contains(','),
        !c.contains(','),
    ensures
        split(a + seq![','] + b + seq![','] + c, ',') == seq![a, b, c],
{
    let s = a + seq![','] + b + seq![','] + c;
    let rest = b + seq![','] + c;
    assert forall|j: int| 0 <= j < a.len() implies s[j] != ',' by {
        assert(a.contains(a[j]));
    }
    lemma_split_at(s, ',', a.len() as int);
    assert(s.take(a.len() as int) =~= a);
    assert(s.skip(a.len() as int + 1) =~= rest);
    assert forall|j: int| 0 <= j < b.len() implies rest[j] != ',' by {
        assert(b.contains(b[j]));
    }
    lemma_split_at(rest, ',', b.len() as int);
    assert(rest.take(b.len() as int) =~= b);
    assert(rest.skip(b.len() as int + 1) =~= c);
    lemma_split_whole(c, ',');
    assert(split(s, ',') =~= seq![a, b, c]);
}

/// The default seed is accepted, and kept as it is.
#[verifier::spinoff_prover]
#[verifier::rlimit(40)]
pub proof fn law_the_default_seed_is_kept()
    ensures
        seed_text("v4,8,127"@) == Some("v4,8,127"@),
{
    reveal_strlit("v4,8,127");
    reveal_strlit("ubq_");
    reveal_strlit("v3");
    reveal_strlit("v4");
    reveal_strlit(",");
    reveal_strlit("balanced");
    reveal_strlit("crossbeam");
    let seed = "v4,8,127"@;
    let eight = seq!['8'];
    let size = seq!['1', '2', '7'];
    // As it stands it has too few fields.
    assert(seed =~= "v4"@ + seq![','] + eight + seq![','] + size);
    lemma_three_fields("v4"@, eight, size);
    lemma_plain(seed);
    lemma_plain("v4"@);
    lemma_plain(eight);
    lemma_plain(size);
    let short = seq!["v4"@, eight, size];
    assert(split(folded(seed), ',') == short);
    lemma_nonblank(short);
    assert(accepted_label(seed, true) is None);
    // Spelled out it has four.
    let entry = "ubq_"@ + seed;
    assert(entry.take(4) =~= "ubq_"@);
    assert(entry.skip(4) =~= seed);
    let fields = seq!["balanced"@, eight, size, "crossbeam"@];
    assert("v4"@[1] != "v3"@[1]);
    assert(spelled_out(entry) == "ubq_"@ + joined(fields, ","@));
    let full = joined(fields, ","@);
    reveal_with_fuel(joined, 5);
    assert(fields.drop_last() =~= short.update(0, "balanced"@));
    assert(fields.drop_last().drop_last() =~= seq!["balanced"@, eight]);
    assert(fields.drop_last().drop_last().drop_last() =~= seq!["balanced"@]);
    let back = eight + seq![','] + size + seq![','] + "crossbeam"@;
    assert(full =~= "balanced"@ + seq![','] + back);
    assert(("ubq_"@ + full).take(4) =~= "ubq_"@);
    assert(("ubq_"@ + full).skip(4) =~= full);
    lemma_split_at(full, ',', 8);
    assert(full.take(8) =~= "balanced"@);
    assert(full.skip(9) =~= back);
    lemma_three_fields(eight, size, "crossbeam"@);
    assert(split(full, ',') =~= fields);
    lemma_plain(full);
    lemma_plain("balanced"@);
    lemma_plain("crossbeam"@);
    lemma_nonblank(fields);
    reveal_with_fuel(crate::text::digits_value, 4);
    assert(size.drop_last() =~= seq!['1', '2']);
    assert(size.drop_last().drop_last() =~= seq!['1']);
    assert(size.drop_last().drop_last().drop_last() =~= Seq::<char>::empty());
    assert(eight.drop_last() =~= Seq::<char>::empty());
    let label = LabelParts {
        preset: "balanced"@,
        pool: 8,
        block: 127,
        backoff: "crossbeam"@,
    };
    assert(label_of(full) == Some(label));
    reveal_strlit("no_pool");
    assert(presets()[1] == label.preset);
    assert(blocks()[2] == label.block);
    assert(backoffs()[0] == label.backoff);
    assert(pools()[3] == label.pool);
    assert(is_valid(label));
}

/// Fields that are not blank all count.
proof fn lemma_nonblank(list: Seq<Seq<char>>)
    requires
        forall|i: int| 0 <= i < list.len() ==> trimmed(#[trigger] list[i]).len() > 0,
    ensures
        nonblank(list) == list,
    decreases list.len(),
{
    if list.len() > 0 {
        lemma_nonblank(list.drop_last());
        assert(nonblank(list) =~= list);
    } else {
        assert(nonblank(list) =~= list);
    }
}

/// A command line that names the machine, and nothing else, is taken with the
/// defaults.
pub proof fn law_only_the_machine_is_required(machine: Seq<char>, draft: CompleteDraft)
    requires
        folded(trimmed(machine)).len() > 0,
        Reading::Draft(draft@) == reading(seq!["--machine-label"@, machine], blank()),
    ensures
        draft@ == (DraftParts { machine_label: Some(trimmed(machine)), ..blank() }),
        draft_refusal(draft, true) is None,
{
    let args = seq!["--machine-label"@, machine];
    reveal_strlit("--machine-label");
    reveal_strlit("--help");
    reveal_strlit("-h");
    reveal_strlit("--allow-incomplete");
    reveal_strlit("--dry-run");
    assert("--machine-label"@.len() == 15);
    assert(value_options()[0] == "--machine-label"@);
    lemma_first_position(value_options(), "--machine-label"@, 0);
    reveal_with_fuel(reading, 3);
    assert(args.skip(1) =~= seq![machine]);
    assert(args.skip(2) =~= Seq::<Seq<char>>::empty());
    law_the_default_seed_is_kept();
    let names = crate::tooling::scenarios::default_scenarios();
    assert(scenario_source(draft) == names);
    reveal_strlit("1p1c");
    assert(names.contains(names[0]));
    assert(names[0].len() > 0);
}

/// The names of the options with a value differ, hold no equals sign, and are no
/// switches.
proof fn lemma_option_names()
    ensures
        value_options().len() == 7,
        value_options().no_duplicates(),
        forall|i: int| 0 <= i < 7 ==> !(#[trigger] value_options()[i]).contains('='),
        forall|i: int|
            0 <= i < 7 ==> {
                &&& (#[trigger] value_options()[i]).len() > 5
                &&& value_options()[i][2] != 'h'
                &&& value_options()[i][2] != 'a'
                &&& value_options()[i][2] != 'd'
            },
        "--help"@.len() == 6 && "--help"@[2] == 'h',
        "-h"@.len() == 2,
        "--allow-incomplete"@.len() > 2 && "--allow-incomplete"@[2] == 'a',
        "--dry-run"@.len() > 2 && "--dry-run"@[2] == 'd',
{
    reveal_strlit("--machine-label");
    reveal_strlit("--runs-dir");
    reveal_strlit("--scenarios");
    reveal_strlit("--mode");
    reveal_strlit("--seed-label");
    reveal_strlit("--bench-script");
    reveal_strlit("--bench-arg");
    reveal_strlit("--help");
    reveal_strlit("-h");
    reveal_strlit("--allow-incomplete");
    reveal_strlit("--dry-run");
    reveal_strlit("=");
    let names = value_options();
    assert(names[0][2] == 'm' && names[0][3] == 'a');
    assert(names[1][2] == 'r');
    assert(names[2][2] == 's' && names[2][3] == 'c');
    assert(names[3][2] == 'm' && names[3][3] == 'o');
    assert(names[4][2] == 's' && names[4][3] == 'e');
    assert(names[5][2] == 'b' && names[5][8] == 's');
    assert(names[6][2] == 'b' && names[6][8] == 'a');
    assert forall|i: int| 0 <= i < 7 implies !(#[trigger] names[i]).contains('=') by {
        if names[i].contains('=') {
            let k = names[i].index_of('=');
            assert(names[i][k] == '=');
        }
    }
}

proof fn lemma_reads_option(k: int, value: Seq<char>, rest: Seq<Seq<char>>, draft: DraftParts)
    requires
        0 <= k < 7,
    ensures
        reading(seq![value_options()[k], value] + rest, draft) == reading(
            rest,
            with_option(draft, k, value),
        ),
        reading(seq![value_options()[k] + "="@ + value] + rest, draft) == reading(
            rest,
            with_option(draft, k, value),
        ),
{
    lemma_option_names();
    reveal_strlit("=");
    let names = value_options();
    let name = names[k];
    lemma_first_position(names, name, k);
    let apart = seq![name, value] + rest;
    assert(apart[0] == name);
    assert(apart.skip(1)[0] == value);
    assert(apart.skip(2) =~= rest);
    let arg = name + "="@ + value;
    crate::tooling::options::law_a_joined_option_gives_its_value(names, k, value);
    assert(first_position(names, arg) is None);
    let together = seq![arg] + rest;
    assert(together[0] == arg);
    assert(together.skip(1) =~= rest);
    assert(arg[2] == name[2]);
}

/// Each option sets what it is named after and nothing else, whether its value
/// stands behind it or behind an equals sign, and the rest is read on.
pub proof fn law_each_option_sets_its_own(
    value: Seq<char>,
    rest: Seq<Seq<char>>,
    draft: DraftParts,
)
    ensures
        reading(seq!["--machine-label"@, value] + rest, draft) == reading(
            rest,
            DraftParts { machine_label: Some(trimmed(value)), ..draft },
        ),
        reading(seq!["--machine-label="@ + value] + rest, draft) == reading(
            rest,
            DraftParts { machine_label: Some(trimmed(value)), ..draft },
        ),
        reading(seq!["--runs-dir"@, value] + rest, draft) == reading(
            rest,
            DraftParts { runs_dir: value, ..draft },
        ),
        reading(seq!["--runs-dir="@ + value] + rest, draft) == reading(
            rest,
            DraftParts { runs_dir: value, ..draft },
        ),
        reading(seq!["--scenarios"@, value] + rest, draft) == reading(
            rest,
            DraftParts { scenarios: Some(value), ..draft },
        ),
        reading(seq!["--scenarios="@ + value] + rest, draft) == reading(
            rest,
            DraftParts { scenarios: Some(value), ..draft },
        ),
        reading(seq!["--mode"@, value] + rest, draft) == reading(
            rest,
            DraftParts { mode: trimmed(value), ..draft },
        ),
        reading(seq!["--mode="@ + value] + rest, draft) == reading(
            rest,
            DraftParts { mode: trimmed(value), ..draft },
        ),
        reading(seq!["--seed-label"@, value] + rest, draft) == reading(
            rest,
            DraftParts { seed_label: if trimmed(value).len() == 0 { None } else { Some(trimmed(value)) }, ..draft },
        ),
        reading(seq!["--seed-label="@ + value] + rest, draft) == reading(
            rest,
            DraftParts { seed_label: if trimmed(value).len() == 0 { None } else { Some(trimmed(value)) }, ..draft },
        ),
        reading(seq!["--bench-script"@, value] + rest, draft) == reading(
            rest,
            DraftParts { bench_script: value, ..draft },
        ),
        reading(seq!["--bench-script="@ + value] + rest, draft) == reading(
            rest,
            DraftParts { bench_script: value, ..draft },
        ),
        reading(seq!["--bench-arg"@, value] + rest, draft) == reading(
            rest,
            DraftParts { bench_args: draft.bench_args.push(value), ..draft },
        ),
        reading(seq!["--bench-arg="@ + value] + rest, draft) == reading(
            rest,
            DraftParts { bench_args: draft.bench_args.push(value), ..draft },
        ),
        reading(seq!["--allow-incomplete"@] + rest, draft) == reading(
            rest,
            DraftParts { allow_incomplete: true, ..draft },
        ),
        reading(seq!["--dry-run"@] + rest, draft) == reading(
            rest,
            DraftParts { dry_run: true, ..draft },
        ),
        reading(seq!["--help"@] + rest, draft) == Reading::Help,
        reading(seq!["-h"@] + rest, draft) == Reading::Help,
        reading(Seq::empty(), draft) == Reading::Draft(draft),
{
    reveal_strlit("=");
    reveal_strlit("--machine-label");
    reveal_strlit("--machine-label=");
    assert("--machine-label="@ =~= "--machine-label"@ + "="@);
    lemma_reads_option(0, value, rest, draft);
    reveal_strlit("--runs-dir");
    reveal_strlit("--runs-dir=");
    assert("--runs-dir="@ =~= "--runs-dir"@ + "="@);
    lemma_reads_option(1, value, rest, draft);
    reveal_strlit("--scenarios");
    reveal_strlit("--scenarios=");
    assert("--scenarios="@ =~= "--scenarios"@ + "="@);
    lemma_reads_option(2, value, rest, draft);
    reveal_strlit("--mode");
    reveal_strlit("--mode=");
    assert("--mode="@ =~= "--mode"@ + "="@);
    lemma_reads_option(3, value, rest, draft);
    reveal_strlit("--seed-label");
    reveal_strlit("--seed-label=");
    assert("--seed-label="@ =~= "--seed-label"@ + "="@);
    lemma_reads_option(4, value, rest, draft);
    reveal_strlit("--bench-script");
    reveal_strlit("--bench-script=");
    assert("--bench-script="@ =~= "--bench-script"@ + "="@);
    lemma_reads_option(5, value, rest, draft);
    reveal_strlit("--bench-arg");
    reveal_strlit("--bench-arg=");
    assert("--bench-arg="@ =~= "--bench-arg"@ + "="@);
    lemma_reads_option(6, value, rest, draft);
    lemma_option_names();
    assert((seq!["--allow-incomplete"@] + rest)[0] == "--allow-incomplete"@);
    assert((seq!["--allow-incomplete"@] + rest).skip(1) =~= rest);
    assert((seq!["--dry-run"@] + rest)[0] == "--dry-run"@);
    assert((seq!["--dry-run"@] + rest).skip(1) =~= rest);
    assert((seq!["--help"@] + rest)[0] == "--help"@);
    assert((seq!["-h"@] + rest)[0] == "-h"@);
}

/// Nothing stands in the way of a draft exactly if it names a machine, its script
/// is there, some scenario has a name, and its seed, if it has one, can be built.
pub proof fn law_what_a_draft_needs(draft: CompleteDraft, script_exists: bool)
    ensures
        draft_refusal(draft, script_exists) is None <==> {
            &&& draft.machine_label is Some && folded(draft.machine_label->0@).len() > 0
            &&& script_exists
            &&& exists|t: Seq<char>| #[trigger] scenario_source(draft).contains(t) && t.len() > 0
            &&& draft.seed_label is Some ==> seed_text(draft.seed_label->0@) is Some
        },
{
}

/// A seed that is the notation of a configuration is kept as it is.
pub proof fn law_a_full_seed_is_kept(label: LabelParts)
    requires
        is_valid(label),
    ensures
        seed_text(label.written(","@)) == Some(label.written(","@)),
{
    crate::tooling::search::law_a_label_is_read_back(label);
}

/// The measuring command names all labels, in their order and with semicolons
/// between them, the scenario and the machine, and writes below what holds the
/// directory with the runs.
pub proof fn law_the_measuring_command(
    args: CompleteArgs,
    scenario: Seq<char>,
    labels: Seq<Seq<char>>,
)
    requires
        labels.len() > 0,
        forall|i: int| 0 <= i < labels.len() ==> !(#[trigger] labels[i]).contains(';'),
    ensures
        ({
            let words = bench_words(args, scenario, labels);
            &&& words[0] == args.bench_script@
            &&& words[1] == "--ubq-labels"@ && split(words[2], ';') == labels
            &&& words[3] == "--out-root"@ && words[4] == holder(args.runs_dir@)
            &&& words[5] == "--scenarios"@ && words[6] == scenario
            &&& words.subrange(7, 11) == seq![
                "--throughput-only"@,
                "--n=1"@,
                "--skip-plot"@,
                "--skip-remote"@,
            ]
            &&& words[11] == "--local-machine-label"@ && words[12] == args.machine_label@
            &&& words.skip(13) == texts(args.bench_args@)
        }),
{
    let words = bench_words(args, scenario, labels);
    reveal_strlit(";");
    assert(";"@ =~= seq![';']);
    crate::text::law_joined_parts_split_again(labels, ';');
    assert(words.subrange(7, 11) =~= seq![
        "--throughput-only"@,
        "--n=1"@,
        "--skip-plot"@,
        "--skip-remote"@,
    ]);
    assert(words.skip(13) =~= texts(args.bench_args@));
}

/// What holds a path is the path without its last name, and a dot for a name
/// alone.
pub proof fn law_a_path_is_held_by_the_rest(dir: Seq<char>, name: Seq<char>)
    requires
        name.len() > 0,
        !name.contains('/'),
        name != "."@,
        dir.len() > 0,
        dir.last() != '/',
        dir.last() != '.',
    ensures
        holder(dir + seq!['/'] + name) == dir,
        holder(name) == "."@,
{
    reveal_strlit(".");
    let path = dir + seq!['/'] + name;
    let front = path_front(path);
    crate::tooling::paths::lemma_last_slash(dir, name);
    crate::tooling::paths::lemma_no_slash(name);
    assert(path[0] == dir[0]);
    assert(dir.len() > front) by {
        if front == 1 && dir.len() == 1 {
            assert(dir[0] == dir.last());
        }
    }
    let at = dir.len() as int;
    assert(path.skip(at + 1) =~= name);
    assert(without_void_parts(path, front) == path);
    assert(path.take(at) =~= dir);
    assert(without_last(path, front) == dir);
    let last = dir.skip(last_part(dir, front));
    lemma_find_last(dir, '/');
    assert(last.len() > 0) by {
        let k = find_last(dir, '/');
        if k == dir.len() - 1 {
            assert(dir[k] == '/');
        }
    }
    assert(last.last() == dir.last());
    assert(last != "."@) by {
        if last == "."@ {
            assert(last.last() == '.');
        }
    }
    assert(without_void_parts(dir, front) == dir);
    let own = path_front(name);
    assert(own == 0) by {
        if name[0] == '/' {
            assert(name.contains('/'));
        }
        if name[0] == '.' {
            if name.len() == 1 {
                assert(name =~= "."@);
            } else if name[1] == '/' {
                assert(name.contains('/'));
            }
        }
    }
    assert(name.skip(0) =~= name);
    assert(without_void_parts(name, 0) == name);
    assert(without_last(name, 0) =~= Seq::<char>::empty());
}

/// A part of a file name is made of small letters, digits, dots, hyphens and
/// bars, neither begins nor ends with a bar, and is never empty. A text of small
/// letters, digits, dots and hyphens stays as it is.
pub proof fn law_parts_of_file_names(raw: Seq<char>)
    ensures
        sanitized(raw).len() > 0,
        sanitized(raw)[0] != '_',
        sanitized(raw).last() != '_',
        forall|i: int|
            0 <= i < sanitized(raw).len() ==> {
                let c = #[trigger] sanitized(raw)[i];
                ('a' <= c <= 'z') || ('0' <= c <= '9') || c == '.' || c == '-' || c == '_'
            },
        raw.len() > 0 && (forall|i: int|
            0 <= i < raw.len() ==> {
                let c = #[trigger] raw[i];
                ('a' <= c <= 'z') || ('0' <= c <= '9') || c == '.' || c == '-'
            }) ==> sanitized(raw) == raw,
{
    reveal_strlit("name");
    let all = raw.map_values(|c: char| file_char(c));
    lemma_front_bars(all);
    let core = no_front_bars(all);
    lemma_end_bars(core);
    let name = sanitized(raw);
    assert forall|i: int| 0 <= i < name.len() implies {
        let c = #[trigger] name[i];
        ('a' <= c <= 'z') || ('0' <= c <= '9') || c == '.' || c == '-' || c == '_'
    } by {
        let end = no_end_bars(core);
        if end.len() > 0 {
            let k = choose|k: int| 0 <= k <= all.len() && core == #[trigger] all.skip(k);
            assert(end[i] == core[i]);
            assert(core[i] == all[k + i]);
            assert(all[k + i] == file_char(raw[k + i]));
        }
    }
    if raw.len() > 0 && (forall|i: int|
        0 <= i < raw.len() ==> {
            let c = #[trigger] raw[i];
            ('a' <= c <= 'z') || ('0' <= c <= '9') || c == '.' || c == '-'
        }) {
        assert forall|i: int| 0 <= i < raw.len() implies all[i] == raw[i] by {
            let c = raw[i];
        }
        assert(all =~= raw);
        assert(raw[0] != '_' && raw[raw.len() - 1] != '_');
    }
}

proof fn lemma_front_bars(s: Seq<char>)
    ensures
        exists|k: int| 0 <= k <= s.len() && no_front_bars(s) == #[trigger] s.skip(k),
        no_front_bars(s).len() > 0 ==> no_front_bars(s)[0] != '_',
    decreases s.len(),
{
    if s.len() > 0 && s[0] == '_' {
        let rest = s.drop_first();
        lemma_front_bars(rest);
        let k = choose|k: int| 0 <= k <= rest.len() && no_front_bars(rest) == #[trigger] rest.skip(k);
        assert(rest.skip(k) =~= s.skip(k + 1));
    } else {
        assert(s.skip(0) =~= s);
    }
}

proof fn lemma_end_bars(s: Seq<char>)
    ensures
        no_end_bars(s).len() <= s.len(),
        forall|i: int| 0 <= i < no_end_bars(s).len() ==> #[trigger] no_end_bars(s)[i] == s[i],
        no_end_bars(s).len() > 0 ==> no_end_bars(s).last() != '_',
    decreases s.len(),
{
    if s.len() > 0 && s.last() == '_' {
        lemma_end_bars(s.drop_last());
    }
}

} // verus!
