//! Ways to increment one counter, and the command line of their benchmark.
use vstd::prelude::*;

use crate::order::first_position;
use crate::text::{
    chars_of, decimal, decimal_text, parse_unsigned, push_char, same, split, split_on, string_of,
    texts, trimmed, unsigned,
};
use crate::tooling::commands::word_views;
use crate::tooling::options::{joined_name, joined_value, match_option, OptionMatch};

verus! {

/// What to look at for the next attempt, after an attempt that took the counter
/// for `seen` found it to be `actual`: nothing if they agree, and the attempt
/// has counted.
pub fn next_attempt(seen: usize, actual: usize) -> (again: Option<usize>)
    ensures
        again == (if seen == actual {
            None
        } else {
            Some(actual)
        }),
{
    if seen == actual {
        None
    } else {
        Some(actual)
    }
}

/// Replaces the counter by its successor if it still is what was seen; else
/// tells what it is.
pub fn cas_step(counter: &mut usize, seen: usize) -> (result: Result<(), usize>)
    requires
        *old(counter) < usize::MAX,
        seen < usize::MAX,
    ensures
        match result {
            Ok(_) => seen == *old(counter) && *final(counter) == *old(counter) + 1,
            Err(actual) => seen != *old(counter) && actual == *old(counter) && *final(counter)
                == *old(counter),
        },
{
    match next_attempt(seen, *counter) {
        None => {
            *counter = seen + 1;
            Ok(())
        },
        Some(actual) => Err(actual),
    }
}

/// Raises the counter to the successor of what was seen. If it was what was
/// seen that is an increment; else it has moved on, stays as it is, and the
/// result tells what it is.
pub fn max_step(counter: &mut usize, seen: usize) -> (result: Result<(), usize>)
    requires
        *old(counter) < usize::MAX,
        seen <= *old(counter),
    ensures
        match result {
            Ok(_) => seen == *old(counter) && *final(counter) == *old(counter) + 1,
            Err(actual) => seen < *old(counter) && actual == *old(counter) && *final(counter)
                == *old(counter),
        },
{
    let actual: usize = *counter;
    let new: usize = seen + 1;
    if new > actual {
        *counter = new;
    }
    match next_attempt(seen, actual) {
        None => Ok(()),
        Some(actual) => Err(actual),
    }
}

/// One increment by exchanging, on a counter that nobody else moves.
pub fn atomic_incr_cas(counter: &mut usize)
    requires
        *old(counter) < usize::MAX,
    ensures
        *final(counter) == *old(counter) + 1,
{
    let seen: usize = *counter;
    let _ = cas_step(counter, seen);
}

/// One increment by raising, on a counter that nobody else moves.
pub fn atomic_incr_max(counter: &mut usize)
    requires
        *old(counter) < usize::MAX,
    ensures
        *final(counter) == *old(counter) + 1,
{
    let seen: usize = *counter;
    let _ = max_step(counter, seen);
}

/// A number with a comma before every three digits from the end.
pub open spec fn in_thousands(digits: Seq<char>) -> Seq<char>
    decreases digits.len(),
{
    if digits.len() <= 3 {
        digits
    } else {
        in_thousands(digits.take(digits.len() - 3)) + ","@ + digits.skip(digits.len() - 3)
    }
}

proof fn lemma_thousands(digits: Seq<char>, i: int)
    requires
        0 < i,
        i + 3 <= digits.len(),
    ensures
        in_thousands(digits.take(i + 3)) == in_thousands(digits.take(i)) + ","@
            + digits.subrange(i, i + 3),
{
    let part = digits.take(i + 3);
    assert(part.take(part.len() - 3) =~= digits.take(i));
    assert(part.skip(part.len() - 3) =~= digits.subrange(i, i + 3));
}

pub fn fmt_num(num: usize) -> (text: String)
    ensures
        text@ == in_thousands(decimal(num as nat)),
{
    let plain = decimal_text(num as u128);
    let chars = chars_of(plain.as_str());
    let ghost digits = decimal(num as nat);
    let len: usize = chars.len();
    if len <= 3 {
        return plain;
    }
    proof {
        reveal_strlit(",");
        assert(","@ =~= seq![',']);
    }
    let first: usize = if len % 3 == 0 {
        3
    } else {
        len % 3
    };
    let mut text = string_of(&chars, 0, first);
    assert(text@ =~= digits.take(first as int));
    let mut i: usize = first;
    while i < len
        invariant
            chars@ == digits,
            len == digits.len(),
            0 < i <= len,
            (len - i) % 3 == 0,
            ","@ == seq![','],
            text@ == in_thousands(digits.take(i as int)),
        decreases len - i,
    {
        let ghost so_far = text@;
        let group = string_of(&chars, i, i + 3);
        push_char(&mut text, ',');
        text.append(group.as_str());
        proof {
            lemma_thousands(digits, i as int);
            assert(text@ =~= so_far + ","@ + digits.subrange(i as int, i + 3));
        }
        i = i + 3;
    }
    assert(digits.take(len as int) =~= digits);
    text
}

/// The text without underscores and commas.
pub open spec fn without_marks(s: Seq<char>) -> Seq<char>
    decreases s.len(),
{
    if s.len() == 0 {
        Seq::empty()
    } else {
        let rest = without_marks(s.drop_last());
        if s.last() == '_' || s.last() == ',' {
            rest
        } else {
            rest.push(s.last())
        }
    }
}

/// The number that a token stands for; underscores and commas in it are
/// ignored.
pub open spec fn number_of(token: Seq<char>) -> Option<nat> {
    unsigned(without_marks(trimmed(token)), usize::MAX as nat)
}

pub fn parse_usize_token(token: &str) -> (number: Option<usize>)
    ensures
        match number {
            Some(number) => number_of(token@) == Some(number as nat),
            None => number_of(token@) is None,
        },
{
    let core = crate::text::trim(token);
    let chars = chars_of(core.as_str());
    let mut cleaned = "".to_owned();
    proof {
        reveal_strlit("");
    }
    let mut i: usize = 0;
    assert(chars@.take(0) =~= Seq::<char>::empty());
    assert(cleaned@ =~= Seq::<char>::empty());
    while i < chars.len()
        invariant
            i <= chars@.len(),
            cleaned@ == without_marks(chars@.take(i as int)),
        decreases chars@.len() - i,
    {
        assert(chars@.take(i + 1).drop_last() =~= chars@.take(i as int));
        assert(chars@.take(i + 1).last() == chars@[i as int]);
        if chars[i] != '_' && chars[i] != ',' {
            push_char(&mut cleaned, chars[i]);
        }
        i = i + 1;
    }
    assert(chars@.take(i as int) =~= chars@);
    match parse_unsigned(cleaned.as_str(), usize::MAX as u128) {
        Some(number) => Some(number as usize),
        None => None,
    }
}

/// What a list of numbers was read as.
pub enum NumberList {
    List(Seq<usize>),
    Refused(Seq<char>),
}

/// Reads numbers one after the other; the first token that is none is refused.
pub open spec fn read_numbers(tokens: Seq<Seq<char>>, field: Seq<char>) -> NumberList
    decreases tokens.len(),
{
    if tokens.len() == 0 {
        NumberList::List(Seq::empty())
    } else {
        match read_numbers(tokens.drop_last(), field) {
            NumberList::Refused(message) => NumberList::Refused(message),
            NumberList::List(list) => match number_of(tokens.last()) {
                Some(n) => NumberList::List(list.push(n as usize)),
                None => NumberList::Refused(
                    "invalid usize value `"@ + tokens.last() + "` in `"@ + field + "`"@,
                ),
            },
        }
    }
}

proof fn lemma_numbers_refused(tokens: Seq<Seq<char>>, field: Seq<char>, n: int)
    requires
        0 <= n <= tokens.len(),
        read_numbers(tokens.take(n), field) is Refused,
    ensures
        read_numbers(tokens, field) == read_numbers(tokens.take(n), field),
    decreases tokens.len() - n,
{
    if n < tokens.len() {
        assert(tokens.take(n + 1).drop_last() =~= tokens.take(n));
        lemma_numbers_refused(tokens, field, n + 1);
    } else {
        assert(tokens.take(n) =~= tokens);
    }
}

/// Reads a comma-separated list of numbers.
pub fn parse_usize_list(raw: &str, field_name: &str) -> (result: Result<Vec<usize>, String>)
    ensures
        match result {
            Ok(list) => read_numbers(split(raw@, ','), field_name@) == NumberList::List(list@),
            Err(message) => read_numbers(split(raw@, ','), field_name@) == NumberList::Refused(
                message@,
            ),
        },
{
    let tokens = split_on(raw, ',');
    let ghost all = texts(tokens@);
    let mut list: Vec<usize> = Vec::new();
    let mut i: usize = 0;
    assert(all.take(0) =~= Seq::<Seq<char>>::empty());
    assert(list@ =~= Seq::<usize>::empty());
    while i < tokens.len()
        invariant
            all == texts(tokens@),
            all == split(raw@, ','),
            i <= tokens@.len(),
            read_numbers(all.take(i as int), field_name@) == NumberList::List(list@),
        decreases tokens@.len() - i,
    {
        proof {
            assert(all.take(i + 1).drop_last() =~= all.take(i as int));
            assert(all.take(i + 1).last() == tokens@[i as int]@);
        }
        match parse_usize_token(tokens[i].as_str()) {
            Some(number) => {
                list.push(number);
            },
            None => {
                let mut message = "invalid usize value `".to_owned();
                message.append(tokens[i].as_str());
                message.append("` in `");
                message.append(field_name);
                message.append("`");
                proof {
                    lemma_numbers_refused(all, field_name@, i + 1);
                }
                return Err(message);
            },
        }
        i = i + 1;
    }
    assert(all.take(i as int) =~= all);
    Ok(list)
}

/// What is said of a value that is no number.
pub open spec fn bad_number(flag: Seq<char>, value: Seq<char>) -> Seq<char> {
    "invalid usize for `"@ + flag + "`: `"@ + value + "`"@
}

fn parse_required_usize(value: &str, flag: &str) -> (result: Result<usize, String>)
    ensures
        match result {
            Ok(number) => number_of(value@) == Some(number as nat),
            Err(message) => number_of(value@) is None && message@ == bad_number(flag@, value@),
        },
{
    match parse_usize_token(value) {
        Some(number) => Ok(number),
        None => {
            let mut message = "invalid usize for `".to_owned();
            message.append(flag);
            message.append("`: `");
            message.append(value);
            message.append("`");
            Err(message)
        },
    }
}

/// The settings of a single run.
#[derive(Clone, Copy, Debug, PartialEq, Eq, Structural)]
pub struct OnceConfig {
    pub threads: usize,
    pub increments: usize,
}

/// What a command line amounts to.
pub enum OnceReading {
    Help,
    Config(OnceConfig),
    Refused(Seq<char>),
}

pub open spec fn once_options() -> Seq<Seq<char>> {
    seq!["--threads"@, "--increments"@, "--count"@]
}

/// The settings with an option applied.
pub open spec fn once_with(cfg: OnceConfig, k: int, n: usize) -> OnceConfig {
    if k == 0 {
        OnceConfig { threads: n, ..cfg }
    } else {
        OnceConfig { increments: n, ..cfg }
    }
}

/// The arguments of a single run, one after the other. The first that cannot
/// be taken decides.
pub open spec fn once_reading(args: Seq<Seq<char>>, cfg: OnceConfig) -> OnceReading
    decreases args.len(),
{
    if args.len() == 0 {
        if cfg.threads == 0 {
            OnceReading::Refused("`--threads` must be > 0"@)
        } else if cfg.increments == 0 {
            OnceReading::Refused("`--increments` must be > 0"@)
        } else {
            OnceReading::Config(cfg)
        }
    } else {
        let arg = args[0];
        if arg == "-h"@ || arg == "--help"@ {
            OnceReading::Help
        } else {
            match first_position(once_options(), arg) {
                Some(k) => if args.len() == 1 {
                    OnceReading::Refused("missing value for `"@ + arg + "`"@)
                } else {
                    match number_of(args[1]) {
                        Some(n) => once_reading(args.skip(2), once_with(cfg, k, n as usize)),
                        None => OnceReading::Refused(bad_number(arg, args[1])),
                    }
                },
                None => match joined_name(arg, once_options()) {
                    Some(k) => {
                        let value = joined_value(arg, once_options()[k]);
                        match number_of(value) {
                            Some(n) => once_reading(args.skip(1), once_with(cfg, k, n as usize)),
                            None => OnceReading::Refused(bad_number(once_options()[k], value)),
                        }
                    },
                    None => OnceReading::Refused("unknown argument for `once`: `"@ + arg + "`"@),
                },
            }
        }
    }
}

/// The outcome of reading the command line of a single run.
pub enum OnceLine {
    Help,
    Config(OnceConfig),
    Refused(String),
}

impl View for OnceLine {
    type V = OnceReading;

    open spec fn view(&self) -> OnceReading {
        match self {
            OnceLine::Help => OnceReading::Help,
            OnceLine::Config(cfg) => OnceReading::Config(*cfg),
            OnceLine::Refused(message) => OnceReading::Refused(message@),
        }
    }
}

fn set_once(cfg: OnceConfig, k: usize, n: usize) -> (new: OnceConfig)
    ensures
        new == once_with(cfg, k as int, n),
{
    if k == 0 {
        OnceConfig { threads: n, ..cfg }
    } else {
        OnceConfig { increments: n, ..cfg }
    }
}

fn quoted_flag(front: &str, flag: &str) -> (message: String)
    ensures
        message@ == front@ + flag@ + "`"@,
{
    let mut message = front.to_owned();
    message.append(flag);
    message.append("`");
    message
}

pub fn parse_once_args(args: &Vec<String>) -> (line: OnceLine)
    ensures
        line@ == once_reading(
            texts(args@),
            OnceConfig { threads: 8, increments: 1_000_000 },
        ),
{
    let ghost all = texts(args@);
    let ghost start = OnceConfig { threads: 8, increments: 1_000_000 };
    let mut cfg = OnceConfig { threads: 8, increments: 1_000_000 };
    let names: [&str; 3] = ["--threads", "--increments", "--count"];
    assert(word_views(names@) =~= once_options());
    let mut i: usize = 0;
    assert(all.skip(0) =~= all);
    while i < args.len()
        invariant
            all == texts(args@),
            start == (OnceConfig { threads: 8, increments: 1_000_000 }),
            word_views(names@) == once_options(),
            names@.len() == 3,
            i <= args@.len(),
            once_reading(all, start) == once_reading(all.skip(i as int), cfg),
        decreases args@.len() - i,
    {
        let ghost part = all.skip(i as int);
        proof {
            assert(part[0] == args@[i as int]@);
            assert(part.skip(1) =~= all.skip(i + 1));
            if i + 1 < all.len() {
                assert(part[1] == args@[i + 1]@);
                assert(part.skip(2) =~= all.skip(i + 2));
            }
        }
        let arg = args[i].as_str();
        if same(arg, "-h") || same(arg, "--help") {
            return OnceLine::Help;
        }
        match match_option(arg, &names) {
            OptionMatch::Bare(k) => {
                if i + 1 >= args.len() {
                    return OnceLine::Refused(quoted_flag("missing value for `", arg));
                }
                match parse_required_usize(args[i + 1].as_str(), arg) {
                    Ok(n) => {
                        cfg = set_once(cfg, k, n);
                    },
                    Err(message) => {
                        return OnceLine::Refused(message);
                    },
                }
                i = i + 2;
            },
            OptionMatch::Joined(k, value) => {
                assert(once_options()[k as int] == names@[k as int]@);
                match parse_required_usize(value.as_str(), names[k]) {
                    Ok(n) => {
                        cfg = set_once(cfg, k, n);
                    },
                    Err(message) => {
                        return OnceLine::Refused(message);
                    },
                }
                i = i + 1;
            },
            OptionMatch::No => {
                return OnceLine::Refused(quoted_flag("unknown argument for `once`: `", arg));
            },
        }
    }
    assert(all.skip(i as int) =~= Seq::<Seq<char>>::empty());
    if cfg.threads == 0 {
        return OnceLine::Refused("`--threads` must be > 0".to_owned());
    }
    if cfg.increments == 0 {
        return OnceLine::Refused("`--increments` must be > 0".to_owned());
    }
    OnceLine::Config(cfg)
}

/// The settings of a sweep.
pub struct SweepConfig {
    pub thread_counts: Vec<usize>,
    pub increments: Vec<usize>,
    pub repeats: usize,
    pub out_path: String,
}

/// The contents of the settings of a sweep.
pub struct SweepParts {
    pub thread_counts: Seq<usize>,
    pub increments: Seq<usize>,
    pub repeats: usize,
    pub out_path: Seq<char>,
}

impl View for SweepConfig {
    type V = SweepParts;

    open spec fn view(&self) -> SweepParts {
        SweepParts {
            thread_counts: self.thread_counts@,
            increments: self.increments@,
            repeats: self.repeats,
            out_path: self.out_path@,
        }
    }
}

/// What a command line amounts to.
pub enum SweepReading {
    Help,
    Config(SweepParts),
    Refused(Seq<char>),
}

pub open spec fn sweep_options() -> Seq<Seq<char>> {
    seq!["--threads"@, "--counts"@, "--repeats"@, "--out"@]
}

/// The settings with an option applied, or why it cannot be.
pub open spec fn sweep_with(cfg: SweepParts, k: int, value: Seq<char>) -> SweepReading {
    if k == 0 {
        match read_numbers(split(value, ','), "--threads"@) {
            NumberList::List(list) => SweepReading::Config(
                SweepParts { thread_counts: list, ..cfg },
            ),
            NumberList::Refused(message) => SweepReading::Refused(message),
        }
    } else if k == 1 {
        match read_numbers(split(value, ','), "--counts"@) {
            NumberList::List(list) => SweepReading::Config(SweepParts { increments: list, ..cfg }),
            NumberList::Refused(message) => SweepReading::Refused(message),
        }
    } else if k == 2 {
        match number_of(value) {
            Some(n) => SweepReading::Config(SweepParts { repeats: n as usize, ..cfg }),
            None => SweepReading::Refused(bad_number("--repeats"@, value)),
        }
    } else {
        SweepReading::Config(SweepParts { out_path: value, ..cfg })
    }
}

/// The arguments of a sweep, one after the other. The first that cannot be
/// taken decides.
pub open spec fn sweep_reading(args: Seq<Seq<char>>, cfg: SweepParts) -> SweepReading
    decreases args.len(),
{
    if args.len() == 0 {
        if cfg.repeats == 0 {
            SweepReading::Refused("`--repeats` must be > 0"@)
        } else if cfg.thread_counts.contains(0) {
            SweepReading::Refused("thread counts must all be > 0"@)
        } else if cfg.increments.contains(0) {
            SweepReading::Refused("counts must all be > 0"@)
        } else {
            SweepReading::Config(cfg)
        }
    } else {
        let arg = args[0];
        if arg == "-h"@ || arg == "--help"@ {
            SweepReading::Help
        } else {
            match first_position(sweep_options(), arg) {
                Some(k) => if args.len() == 1 {
                    SweepReading::Refused("missing value for `"@ + arg + "`"@)
                } else {
                    match sweep_with(cfg, k, args[1]) {
                        SweepReading::Config(next) => sweep_reading(args.skip(2), next),
                        other => other,
                    }
                },
                None => match joined_name(arg, sweep_options()) {
                    Some(k) => match sweep_with(cfg, k, joined_value(arg, sweep_options()[k])) {
                        SweepReading::Config(next) => sweep_reading(args.skip(1), next),
                        other => other,
                    },
                    None => SweepReading::Refused(
                        "unknown argument for `sweep`: `"@ + arg + "`"@,
                    ),
                },
            }
        }
    }
}

/// The outcome of reading the command line of a sweep.
pub enum SweepLine {
    Help,
    Config(SweepConfig),
    Refused(String),
}

impl View for SweepLine {
    type V = SweepReading;

    open spec fn view(&self) -> SweepReading {
        match self {
            SweepLine::Help => SweepReading::Help,
            SweepLine::Config(cfg) => SweepReading::Config(cfg@),
            SweepLine::Refused(message) => SweepReading::Refused(message@),
        }
    }
}

impl SweepConfig {
    fn set(&mut self, k: usize, value: &str) -> (result: Result<(), String>)
        requires
            k < 4,
        ensures
            match result {
                Ok(_) => sweep_with(old(self)@, k as int, value@) == SweepReading::Config(
                    final(self)@,
                ),
                Err(message) => sweep_with(old(self)@, k as int, value@) == SweepReading::Refused(
                    message@,
                ),
            },
    {
        if k == 0 {
            match parse_usize_list(value, "--threads") {
                Ok(list) => {
                    self.thread_counts = list;
                },
                Err(message) => {
                    return Err(message);
                },
            }
        } else if k == 1 {
            match parse_usize_list(value, "--counts") {
                Ok(list) => {
                    self.increments = list;
                },
                Err(message) => {
                    return Err(message);
                },
            }
        } else if k == 2 {
            match parse_required_usize(value, "--repeats") {
                Ok(n) => {
                    self.repeats = n;
                },
                Err(message) => {
                    return Err(message);
                },
            }
        } else {
            self.out_path = value.to_owned();
        }
        Ok(())
    }
}

/// The settings that the environment gives, each for what is not set.
pub open spec fn sweep_start(
    threads: Option<&str>,
    counts: Option<&str>,
    repeats: Option<&str>,
    out: Option<&str>,
) -> SweepReading {
    let first = match threads {
        Some(raw) => read_numbers(split(raw@, ','), "UBQ_ATOMIC_INCR_THREADS"@),
        None => NumberList::List(seq![1usize, 2, 4, 8, 16]),
    };
    let second = match counts {
        Some(raw) => read_numbers(split(raw@, ','), "UBQ_ATOMIC_INCR_COUNTS"@),
        None => NumberList::List(seq![1_000usize, 10_000, 100_000, 1_000_000]),
    };
    match first {
        NumberList::Refused(message) => SweepReading::Refused(message),
        NumberList::List(thread_counts) => match second {
            NumberList::Refused(message) => SweepReading::Refused(message),
            NumberList::List(increments) => match repeats {
                Some(raw) => match number_of(raw@) {
                    Some(n) => SweepReading::Config(
                        SweepParts {
                            thread_counts,
                            increments,
                            repeats: n as usize,
                            out_path: out_or(out),
                        },
                    ),
                    None => SweepReading::Refused(
                        "invalid usize value in `UBQ_ATOMIC_INCR_REPEATS`: `"@ + raw@ + "`"@,
                    ),
                },
                None => SweepReading::Config(
                    SweepParts { thread_counts, increments, repeats: 1, out_path: out_or(out) },
                ),
            },
        },
    }
}

/// Where the table goes.
pub open spec fn out_or(out: Option<&str>) -> Seq<char> {
    match out {
        Some(path) => path@,
        None => "bench_results/plots/atomic_incr.csv"@,
    }
}

/// The settings of a sweep before its arguments are read. The parameters are
/// the values of the environment variables, as far as they are set.
pub fn sweep_defaults(
    threads: Option<&str>,
    counts: Option<&str>,
    repeats: Option<&str>,
    out: Option<&str>,
) -> (result: Result<SweepConfig, String>)
    ensures
        match result {
            Ok(cfg) => sweep_start(threads, counts, repeats, out) == SweepReading::Config(cfg@),
            Err(message) => sweep_start(threads, counts, repeats, out) == SweepReading::Refused(
                message@,
            ),
        },
{
    let thread_counts = match threads {
        Some(raw) => match parse_usize_list(raw, "UBQ_ATOMIC_INCR_THREADS") {
            Ok(list) => list,
            Err(message) => {
                return Err(message);
            },
        },
        None => vec![1, 2, 4, 8, 16],
    };
    let increments = match counts {
        Some(raw) => match parse_usize_list(raw, "UBQ_ATOMIC_INCR_COUNTS") {
            Ok(list) => list,
            Err(message) => {
                return Err(message);
            },
        },
        None => vec![1_000, 10_000, 100_000, 1_000_000],
    };
    let repeats: usize = match repeats {
        Some(raw) => match parse_usize_token(raw) {
            Some(n) => n,
            None => {
                return Err(
                    quoted_flag("invalid usize value in `UBQ_ATOMIC_INCR_REPEATS`: `", raw),
                );
            },
        },
        None => 1,
    };
    let out_path = match out {
        Some(path) => path.to_owned(),
        None => "bench_results/plots/atomic_incr.csv".to_owned(),
    };
    Ok(SweepConfig { thread_counts, increments, repeats, out_path })
}

fn has_zero(list: &Vec<usize>) -> (found: bool)
    ensures
        found == list@.contains(0),
{
    let mut i: usize = 0;
    while i < list.len()
        invariant
            i <= list@.len(),
            forall|j: int| 0 <= j < i ==> list@[j] != 0,
        decreases list@.len() - i,
    {
        if list[i] == 0 {
            return true;
        }
        i = i + 1;
    }
    false
}

pub fn parse_sweep_args(args: &Vec<String>, defaults: SweepConfig) -> (line: SweepLine)
    ensures
        line@ == sweep_reading(texts(args@), defaults@),
{
    let ghost all = texts(args@);
    let ghost start = defaults@;
    let mut cfg = defaults;
    let names: [&str; 4] = ["--threads", "--counts", "--repeats", "--out"];
    assert(word_views(names@) =~= sweep_options());
    let mut i: usize = 0;
    assert(all.skip(0) =~= all);
    while i < args.len()
        invariant
            all == texts(args@),
            start == defaults@,
            word_views(names@) == sweep_options(),
            names@.len() == 4,
            i <= args@.len(),
            sweep_reading(all, start) == sweep_reading(all.skip(i as int), cfg@),
        decreases args@.len() - i,
    {
        let ghost part = all.skip(i as int);
        proof {
            assert(part[0] == args@[i as int]@);
            assert(part.skip(1) =~= all.skip(i + 1));
            if i + 1 < all.len() {
                assert(part[1] == args@[i + 1]@);
                assert(part.skip(2) =~= all.skip(i + 2));
            }
        }
        let arg = args[i].as_str();
        if same(arg, "-h") || same(arg, "--help") {
            return SweepLine::Help;
        }
        match match_option(arg, &names) {
            OptionMatch::Bare(k) => {
                if i + 1 >= args.len() {
                    return SweepLine::Refused(quoted_flag("missing value for `", arg));
                }
                match cfg.set(k, args[i + 1].as_str()) {
                    Ok(_) => {},
                    Err(message) => {
                        return SweepLine::Refused(message);
                    },
                }
                i = i + 2;
            },
            OptionMatch::Joined(k, value) => {
                match cfg.set(k, value.as_str()) {
                    Ok(_) => {},
                    Err(message) => {
                        return SweepLine::Refused(message);
                    },
                }
                i = i + 1;
            },
            OptionMatch::No => {
                return SweepLine::Refused(quoted_flag("unknown argument for `sweep`: `", arg));
            },
        }
    }
    assert(all.skip(i as int) =~= Seq::<Seq<char>>::empty());
    if cfg.repeats == 0 {
        return SweepLine::Refused("`--repeats` must be > 0".to_owned());
    }
    if has_zero(&cfg.thread_counts) {
        return SweepLine::Refused("thread counts must all be > 0".to_owned());
    }
    if has_zero(&cfg.increments) {
        return SweepLine::Refused("counts must all be > 0".to_owned());
    }
    SweepLine::Config(cfg)
}

/// Without underscores and commas a text keeps all other characters in their
/// order.
pub proof fn law_marks_are_left_out(s: Seq<char>)
    ensures
        without_marks(s) == s.filter(|c: char| c != '_' && c != ','),
    decreases s.len(),
{
    reveal(Seq::filter);
    if s.len() > 0 {
        law_marks_are_left_out(s.drop_last());
    }
}

proof fn lemma_marks_of_both(a: Seq<char>, b: Seq<char>)
    ensures
        without_marks(a + b) == without_marks(a) + without_marks(b),
    decreases b.len(),
{
    if b.len() == 0 {
        assert(a + b =~= a);
        assert(without_marks(a) + without_marks(b) =~= without_marks(a));
    } else {
        lemma_marks_of_both(a, b.drop_last());
        assert((a + b).drop_last() =~= a + b.drop_last());
        assert((a + b).last() == b.last());
        assert(without_marks(a + b) =~= without_marks(a) + without_marks(b));
    }
}

proof fn lemma_no_marks(s: Seq<char>)
    requires
        forall|i: int| 0 <= i < s.len() ==> '0' <= #[trigger] s[i] <= '9',
    ensures
        without_marks(s) == s,
    decreases s.len(),
{
    if s.len() > 0 {
        assert('0' <= s[s.len() - 1] <= '9');
        lemma_no_marks(s.drop_last());
    }
    assert(without_marks(s) =~= s);
}

/// Commas stand before every three digits counted from the end, and nowhere else:
/// left out, they leave the digits.
pub proof fn law_commas_stand_every_three_digits(digits: Seq<char>)
    requires
        digits.len() > 0,
        forall|i: int| 0 <= i < digits.len() ==> '0' <= #[trigger] digits[i] <= '9',
    ensures
        without_marks(in_thousands(digits)) == digits,
        in_thousands(digits).len() > 0,
        in_thousands(digits)[0] == digits[0],
        in_thousands(digits).last() == digits.last(),
        forall|i: int|
            0 <= i < in_thousands(digits).len() ==> {
                &&& #[trigger] in_thousands(digits)[i] == ',' <==> (in_thousands(digits).len() - 1
                    - i) % 4 == 3
                &&& in_thousands(digits)[i] != ',' ==> '0' <= in_thousands(digits)[i] <= '9'
            },
    decreases digits.len(),
{
    reveal_strlit(",");
    let text = in_thousands(digits);
    if digits.len() <= 3 {
        lemma_no_marks(digits);
    } else {
        let front = digits.take(digits.len() - 3);
        let tail = digits.skip(digits.len() - 3);
        law_commas_stand_every_three_digits(front);
        lemma_no_marks(tail);
        let head = in_thousands(front);
        assert(text == head + ","@ + tail);
        lemma_marks_of_both(head + ","@, tail);
        lemma_marks_of_both(head, ","@);
        assert(","@.drop_last() =~= Seq::<char>::empty());
        assert(without_marks(","@.drop_last()) =~= Seq::<char>::empty());
        assert(","@.last() == ',');
        assert(without_marks(","@) =~= Seq::<char>::empty());
        assert(front + Seq::<char>::empty() + tail =~= digits);
        assert forall|i: int| 0 <= i < text.len() implies {
            &&& #[trigger] text[i] == ',' <==> (text.len() - 1 - i) % 4 == 3
            &&& text[i] != ',' ==> '0' <= text[i] <= '9'
        } by {
            let k = text.len() - 1 - i;
            if i < head.len() {
                assert(text[i] == head[i]);
                assert((head.len() - 1 - i) + 4 == k);
            } else if i == head.len() {
                assert(text[i] == ',');
                assert(k == 3);
            } else {
                assert(text[i] == tail[i - head.len() - 1]);
                assert(tail[i - head.len() - 1] == digits[digits.len() - 3 + i - head.len() - 1]);
                assert(0 <= k < 3);
            }
        }
    }
}

/// A number is read back from its notation with commas.
pub proof fn law_numbers_with_commas_are_read_back(n: nat)
    requires
        n <= usize::MAX,
    ensures
        number_of(in_thousands(decimal(n))) == Some(n),
        number_of(decimal(n)) == Some(n),
{
    let digits = decimal(n);
    crate::text::lemma_decimal(n);
    assert forall|i: int| 0 <= i < digits.len() implies '0' <= #[trigger] digits[i] <= '9' by {
        assert(crate::text::is_digit(digits[i]));
    }
    law_commas_stand_every_three_digits(digits);
    lemma_no_marks(digits);
    let text = in_thousands(digits);
    assert('0' <= digits[0] <= '9' && '0' <= digits[digits.len() - 1] <= '9');
    assert forall|i: int| 0 <= i < text.len() implies !('A' <= #[trigger] text[i] <= 'Z') by {
        assert(text[i] == ',' || '0' <= text[i] <= '9');
    }
    crate::text::lemma_plain_text(text);
    crate::text::lemma_plain_text(digits);
    crate::text::law_decimal_round_trip(n, usize::MAX as nat);
}

/// A list of numbers is read exactly if every part is a number, and then it holds
/// them in their order.
pub proof fn law_all_parts_must_be_numbers(tokens: Seq<Seq<char>>, field: Seq<char>)
    ensures
        read_numbers(tokens, field) is List <==> forall|i: int|
            0 <= i < tokens.len() ==> number_of(#[trigger] tokens[i]) is Some,
        read_numbers(tokens, field) matches NumberList::List(list) ==> {
            &&& list.len() == tokens.len()
            &&& forall|i: int|
                0 <= i < tokens.len() ==> #[trigger] list[i] == number_of(tokens[i])->0
        },
    decreases tokens.len(),
{
    if tokens.len() > 0 {
        let rest = tokens.drop_last();
        law_all_parts_must_be_numbers(rest, field);
        assert(tokens.last() == tokens[tokens.len() - 1]);
        if forall|i: int| 0 <= i < tokens.len() ==> number_of(#[trigger] tokens[i]) is Some {
            assert forall|i: int| 0 <= i < rest.len() implies number_of(#[trigger] rest[i])
                is Some by {
                assert(rest[i] == tokens[i]);
            }
        }
        if read_numbers(tokens, field) is List {
            let list = read_numbers(tokens, field)->List_0;
            let before = read_numbers(rest, field)->List_0;
            assert(list == before.push(number_of(tokens.last())->0 as usize));
            lemma_number_fits(tokens.last());
            assert forall|i: int| 0 <= i < tokens.len() implies number_of(#[trigger] tokens[i])
                is Some by {
                if i < rest.len() {
                    assert(rest[i] == tokens[i]);
                }
            }
            assert forall|i: int| 0 <= i < tokens.len() implies #[trigger] list[i] == number_of(
                tokens[i],
            )->0 by {
                if i < rest.len() {
                    assert(before[i] == number_of(rest[i])->0);
                }
            }
        }
    }
}

proof fn lemma_number_fits(token: Seq<char>)
    ensures
        number_of(token) matches Some(n) ==> n <= usize::MAX,
{
}

/// The options of a single run each set their own number, whether the value
/// stands behind them or behind an equals sign, and a run needs both to be more
/// than zero.
pub proof fn law_each_once_option_sets_its_own(
    value: Seq<char>,
    n: usize,
    rest: Seq<Seq<char>>,
    cfg: OnceConfig,
)
    requires
        number_of(value) == Some(n as nat),
    ensures
        once_reading(seq!["--threads"@, value] + rest, cfg) == once_reading(
            rest,
            OnceConfig { threads: n, ..cfg },
        ),
        once_reading(seq!["--increments"@, value] + rest, cfg) == once_reading(
            rest,
            OnceConfig { increments: n, ..cfg },
        ),
        once_reading(seq!["--count"@, value] + rest, cfg) == once_reading(
            rest,
            OnceConfig { increments: n, ..cfg },
        ),
        once_reading(seq!["--threads"@ + "="@ + value] + rest, cfg) == once_reading(
            rest,
            OnceConfig { threads: n, ..cfg },
        ),
        once_reading(seq!["--increments"@ + "="@ + value] + rest, cfg) == once_reading(
            rest,
            OnceConfig { increments: n, ..cfg },
        ),
        once_reading(seq!["--count"@ + "="@ + value] + rest, cfg) == once_reading(
            rest,
            OnceConfig { increments: n, ..cfg },
        ),
        once_reading(Seq::empty(), cfg) is Config <==> cfg.threads > 0 && cfg.increments > 0,
        once_reading(Seq::empty(), cfg) matches OnceReading::Config(end) ==> end == cfg,
{
    let names = once_options();
    reveal_strlit("--threads");
    reveal_strlit("--increments");
    reveal_strlit("--count");
    reveal_strlit("-h");
    reveal_strlit("--help");
    reveal_strlit("=");
    assert(names[0][2] == 't' && names[1][2] == 'i' && names[2][2] == 'c');
    assert("--help"@[2] == 'h' && "-h"@.len() == 2);
    assert forall|i: int| 0 <= i < 3 implies !(#[trigger] names[i]).contains('=') by {
        if names[i].contains('=') {
            let k = names[i].index_of('=');
            assert(names[i][k] == '=');
        }
    }
    lemma_reads_once(0, value, n, rest, cfg);
    lemma_reads_once(1, value, n, rest, cfg);
    lemma_reads_once(2, value, n, rest, cfg);
}

proof fn lemma_reads_once(
    k: int,
    value: Seq<char>,
    n: usize,
    rest: Seq<Seq<char>>,
    cfg: OnceConfig,
)
    requires
        0 <= k < 3,
        number_of(value) == Some(n as nat),
        once_options().no_duplicates(),
        forall|i: int| 0 <= i < 3 ==> !(#[trigger] once_options()[i]).contains('='),
        forall|i: int|
            0 <= i < 3 ==> (#[trigger] once_options()[i]).len() > 2 && once_options()[i][2] != 'h',
        "--help"@.len() == 6 && "--help"@[2] == 'h',
        "-h"@.len() == 2,
    ensures
        once_reading(seq![once_options()[k], value] + rest, cfg) == once_reading(
            rest,
            once_with(cfg, k, n),
        ),
        once_reading(seq![once_options()[k] + "="@ + value] + rest, cfg) == once_reading(
            rest,
            once_with(cfg, k, n),
        ),
{
    let names = once_options();
    let name = names[k];
    crate::order::lemma_first_position(names, name, k);
    let apart = seq![name, value] + rest;
    assert(apart[0] == name && apart[1] == value);
    assert(apart.skip(2) =~= rest);
    let arg = name + "="@ + value;
    crate::tooling::options::law_a_joined_option_gives_its_value(names, k, value);
    let together = seq![arg] + rest;
    assert(together[0] == arg);
    assert(together.skip(1) =~= rest);
    reveal_strlit("=");
    assert(arg[2] == name[2]);
}

/// A sweep starts with what the environment gives, and with the usual settings
/// for all that it does not.
pub proof fn law_a_sweep_starts_with_the_usual_settings(out: &str)
    ensures
        sweep_start(None, None, None, None) == SweepReading::Config(
            SweepParts {
                thread_counts: seq![1usize, 2, 4, 8, 16],
                increments: seq![1_000usize, 10_000, 100_000, 1_000_000],
                repeats: 1,
                out_path: "bench_results/plots/atomic_incr.csv"@,
            },
        ),
        sweep_start(None, None, None, Some(out)) == SweepReading::Config(
            SweepParts {
                thread_counts: seq![1usize, 2, 4, 8, 16],
                increments: seq![1_000usize, 10_000, 100_000, 1_000_000],
                repeats: 1,
                out_path: out@,
            },
        ),
{
}

/// The options of a sweep each set their own field, and a sweep needs at least
/// one repeat and no count that is zero.
pub proof fn law_each_sweep_option_sets_its_own(cfg: SweepParts, value: Seq<char>)
    ensures
        sweep_options() == seq!["--threads"@, "--counts"@, "--repeats"@, "--out"@],
        sweep_with(cfg, 0, value) matches SweepReading::Config(next) ==> next == (SweepParts {
            thread_counts: read_numbers(split(value, ','), "--threads"@)->List_0,
            ..cfg
        }),
        sweep_with(cfg, 1, value) matches SweepReading::Config(next) ==> next == (SweepParts {
            increments: read_numbers(split(value, ','), "--counts"@)->List_0,
            ..cfg
        }),
        sweep_with(cfg, 2, value) matches SweepReading::Config(next) ==> next == (SweepParts {
            repeats: number_of(value)->0 as usize,
            ..cfg
        }),
        sweep_with(cfg, 3, value) == SweepReading::Config(SweepParts { out_path: value, ..cfg }),
        sweep_with(cfg, 0, value) is Config <==> read_numbers(split(value, ','), "--threads"@)
            is List,
        sweep_with(cfg, 1, value) is Config <==> read_numbers(split(value, ','), "--counts"@)
            is List,
        sweep_with(cfg, 2, value) is Config <==> number_of(value) is Some,
        sweep_reading(Seq::empty(), cfg) is Config <==> {
            &&& cfg.repeats > 0
            &&& forall|i: int|
                0 <= i < cfg.thread_counts.len() ==> #[trigger] cfg.thread_counts[i] > 0
            &&& forall|i: int| 0 <= i < cfg.increments.len() ==> #[trigger] cfg.increments[i] > 0
        },
{
    if !cfg.thread_counts.contains(0) {
        assert forall|i: int| 0 <= i < cfg.thread_counts.len() implies #[trigger] cfg.thread_counts[i]
            > 0 by {
            if cfg.thread_counts[i] == 0 {
                assert(cfg.thread_counts.contains(0));
            }
        }
    } else {
        let k = cfg.thread_counts.index_of(0);
        assert(cfg.thread_counts[k] == 0);
    }
    if !cfg.increments.contains(0) {
        assert forall|i: int| 0 <= i < cfg.increments.len() implies #[trigger] cfg.increments[i]
            > 0 by {
            if cfg.increments[i] == 0 {
                assert(cfg.increments.contains(0));
            }
        }
    } else {
        let k = cfg.increments.index_of(0);
        assert(cfg.increments[k] == 0);
    }
}

} // verus!
