//! The settings of the log.
use vstd::prelude::*;

use crate::text::{
    chars_of, is_digit, parse_unsigned, push_char, split, starts_with, string_of, texts, trim,
    trimmed, unsigned,
};
use crate::tooling::search::{parse_csv_list, trimmed_items};

verus! {

/// The environment variables of the log, as far as they are set, and the name
/// of the thread that asks.
pub struct DebugEnv {
    pub sample: Option<String>,
    pub max: Option<String>,
    pub tags: Option<String>,
    pub file: Option<String>,
    pub name: Option<String>,
    pub thread_name: Option<String>,
    pub flush_ms: Option<String>,
    pub buffer_bytes: Option<String>,
    pub ring: Option<String>,
    pub tick_ms: Option<String>,
    pub wheel_slots: Option<String>,
}

/// The settings of the log.
pub struct Config {
    pub sample_rate: u64,
    pub max_entries: usize,
    pub tag_filters: Option<Vec<String>>,
    pub flush_ms: u64,
    pub log_name: String,
    pub buffer_bytes: usize,
    pub ring_max: usize,
    pub tick_ms: u64,
    pub wheel_slots: usize,
}

/// The number that a variable gives if it is one of at least `least`, else
/// `other`.
pub open spec fn number_or(value: Option<String>, max: nat, least: nat, other: nat) -> nat {
    match value {
        Some(text) => match unsigned(text@, max) {
            Some(n) => if n >= least {
                n
            } else {
                other
            },
            None => other,
        },
        None => other,
    }
}

fn read_u64(value: &Option<String>, least: u64, other: u64) -> (n: u64)
    ensures
        n == number_or(*value, u64::MAX as nat, least as nat, other as nat),
{
    match value {
        Some(text) => match parse_unsigned(text.as_str(), u64::MAX as u128) {
            Some(n) => if n as u64 >= least {
                n as u64
            } else {
                other
            },
            None => other,
        },
        None => other,
    }
}

fn read_usize(value: &Option<String>, least: usize, other: usize) -> (n: usize)
    ensures
        n == number_or(*value, usize::MAX as nat, least as nat, other as nat),
{
    match value {
        Some(text) => match parse_unsigned(text.as_str(), usize::MAX as u128) {
            Some(n) => if n as usize >= least {
                n as usize
            } else {
                other
            },
            None => other,
        },
        None => other,
    }
}

/// A character of a label in a file name.
pub open spec fn label_char(c: char) -> char {
    if 'a' <= c <= 'z' || 'A' <= c <= 'Z' || is_digit(c) {
        c
    } else {
        '_'
    }
}

/// A label in a file name.
pub open spec fn label_in_name(label: Seq<char>) -> Seq<char> {
    label.map_values(|c: char| label_char(c))
}

/// A label in which everything but letters and digits is an underscore.
pub fn sanitize_label(label: &str) -> (text: String)
    ensures
        text@ == label_in_name(label@),
{
    let chars = chars_of(label);
    let mut text = "".to_owned();
    proof {
        reveal_strlit("");
    }
    let mut i: usize = 0;
    while i < chars.len()
        invariant
            i <= chars@.len(),
            text@.len() == i,
            forall|j: int| 0 <= j < i ==> #[trigger] text@[j] == label_char(chars@[j]),
        decreases chars@.len() - i,
    {
        let c = chars[i];
        if ('a' <= c && c <= 'z') || ('A' <= c && c <= 'Z') || crate::text::digit(c) {
            push_char(&mut text, c);
        } else {
            push_char(&mut text, '_');
        }
        i = i + 1;
    }
    assert(text@ =~= label_in_name(label@));
    text
}

/// A variable that is set to more than blanks.
pub open spec fn given(value: Option<String>) -> bool {
    value matches Some(text) && trimmed(text@).len() > 0
}

fn is_given(value: &Option<String>) -> (result: bool)
    ensures
        result == given(*value),
{
    match value {
        Some(text) => {
            let core = trim(text.as_str());
            chars_of(core.as_str()).len() > 0
        },
        None => false,
    }
}

/// Ends with the ending of log files.
pub open spec fn is_log_name(name: Seq<char>) -> bool {
    name.len() >= 4 && name.skip(name.len() - 4) == ".log"@
}

/// What the log is called before the ending is added: the name that is set for
/// the file, else a name made of the one for the program or the thread.
pub open spec fn log_stem(
    file: Option<String>,
    name: Option<String>,
    thread_name: Option<String>,
) -> Seq<char> {
    if given(file) {
        file->0@
    } else {
        let base = if given(name) {
            name->0@
        } else {
            match thread_name {
                Some(text) => text@,
                None => "ubq"@,
            }
        };
        if base.len() == 0 {
            "ubq"@
        } else {
            label_in_name(base)
        }
    }
}

/// The name of the log file.
pub open spec fn log_file(
    file: Option<String>,
    name: Option<String>,
    thread_name: Option<String>,
) -> Seq<char> {
    let stem = log_stem(file, name, thread_name);
    if is_log_name(stem) {
        stem
    } else {
        stem + ".log"@
    }
}

/// The name of the log file.
pub fn log_name_for_thread(
    file: &Option<String>,
    name: &Option<String>,
    thread_name: &Option<String>,
) -> (log: String)
    ensures
        log@ == log_file(*file, *name, *thread_name),
{
    let mut log = "ubq".to_owned();
    if is_given(file) {
        if let Some(text) = file {
            log = text.clone();
        }
    } else {
        let mut base = "ubq".to_owned();
        if is_given(name) {
            if let Some(text) = name {
                base = text.clone();
            }
        } else if let Some(text) = thread_name {
            base = text.clone();
        }
        if chars_of(base.as_str()).len() > 0 {
            log = sanitize_label(base.as_str());
        }
    }
    let chars = chars_of(log.as_str());
    let len: usize = chars.len();
    let mut ends = false;
    if len >= 4 {
        let tail = string_of(&chars, len - 4, len);
        assert(tail@ =~= log@.skip(len - 4));
        ends = crate::text::same(tail.as_str(), ".log");
    }
    if !ends {
        log.append(".log");
    }
    log
}

/// The tag filters that a variable gives, if it gives any.
pub open spec fn filters_of(tags: Option<String>) -> Seq<Seq<char>> {
    match tags {
        Some(text) => trimmed_items(split(text@, ',')),
        None => Seq::empty(),
    }
}

/// Makes settings of the environment.
pub fn config(env: &DebugEnv) -> (cfg: Config)
    ensures
        cfg.sample_rate == number_or(env.sample, u64::MAX as nat, 1, 1),
        cfg.max_entries == number_or(env.max, usize::MAX as nat, 0, 0),
        match cfg.tag_filters {
            Some(list) => list@.len() > 0 && texts(list@) == filters_of(env.tags),
            None => filters_of(env.tags).len() == 0,
        },
        cfg.flush_ms == number_or(env.flush_ms, u64::MAX as nat, 1, 200),
        cfg.log_name@ == log_file(env.file, env.name, env.thread_name),
        cfg.buffer_bytes == number_or(env.buffer_bytes, usize::MAX as nat, 1, 65536),
        cfg.ring_max == number_or(
            env.ring,
            usize::MAX as nat,
            0,
            if cfg.max_entries > 0 {
                cfg.max_entries as nat
            } else {
                50_000
            },
        ),
        cfg.tick_ms == number_or(env.tick_ms, u64::MAX as nat, 1, 50),
        cfg.wheel_slots == number_or(env.wheel_slots, usize::MAX as nat, 2, 256),
{
    let max_entries: usize = read_usize(&env.max, 0, 0);
    let tag_filters = match &env.tags {
        Some(text) => {
            let list = parse_csv_list(text.as_str());
            assert(texts(list@).len() == list@.len());
            if list.len() == 0 {
                None
            } else {
                Some(list)
            }
        },
        None => None,
    };
    Config {
        sample_rate: read_u64(&env.sample, 1, 1),
        max_entries,
        tag_filters,
        flush_ms: read_u64(&env.flush_ms, 1, 200),
        log_name: log_name_for_thread(&env.file, &env.name, &env.thread_name),
        buffer_bytes: read_usize(&env.buffer_bytes, 1, 65536),
        ring_max: read_usize(
            &env.ring,
            0,
            if max_entries > 0 {
                max_entries
            } else {
                50_000
            },
        ),
        tick_ms: read_u64(&env.tick_ms, 1, 50),
        wheel_slots: read_usize(&env.wheel_slots, 2, 256),
    }
}

/// A tag that the filters let through: all tags if there are none.
pub open spec fn passes(filters: Option<Vec<String>>, tag: Seq<char>) -> bool {
    match filters {
        Some(list) => exists|i: int|
            0 <= i < list@.len() && crate::text::begins(tag, (#[trigger] list@[i])@),
        None => true,
    }
}

/// Whether a message is kept: its tag passes the filters, it is the one in so
/// many that is sampled, and the limit has not been reached.
pub open spec fn kept(cfg: Config, tag: Seq<char>, count: u64, total: u64) -> bool {
    &&& passes(cfg.tag_filters, tag)
    &&& cfg.sample_rate > 1 ==> next_count(count) % cfg.sample_rate == 0
    &&& cfg.max_entries != 0 ==> total < cfg.max_entries
}

/// The count of a thread after one more message.
pub open spec fn next_count(count: u64) -> u64 {
    if count == u64::MAX {
        count
    } else {
        (count + 1) as u64
    }
}

/// The count of all messages after one more.
pub open spec fn next_total(cfg: Config, tag: Seq<char>, count: u64, total: u64) -> u64 {
    if passes(cfg.tag_filters, tag) && cfg.max_entries != 0 && (cfg.sample_rate > 1 ==> next_count(
        count,
    ) % cfg.sample_rate == 0) {
        ((total + 1) % 0x1_0000_0000_0000_0000) as u64
    } else {
        total
    }
}

/// Decides on a message and counts it: what the thread has seen where samples
/// are taken, and what has come so far where there is a limit.
pub fn should_log(cfg: &Config, tag: &str, count: &mut u64, total: &mut u64) -> (keep: bool)
    ensures
        keep == kept(*cfg, tag@, *old(count), *old(total)),
        *final(count) == (if passes(cfg.tag_filters, tag@) && cfg.sample_rate > 1 {
            next_count(*old(count))
        } else {
            *old(count)
        }),
        *final(total) == next_total(*cfg, tag@, *old(count), *old(total)),
{
    if let Some(filters) = &cfg.tag_filters {
        let mut found = false;
        let mut i: usize = 0;
        while i < filters.len()
            invariant
                i <= filters@.len(),
                found == exists|j: int|
                    0 <= j < i && crate::text::begins(tag@, (#[trigger] filters@[j])@),
            decreases filters@.len() - i,
        {
            if starts_with(tag, filters[i].as_str()) {
                found = true;
            }
            i = i + 1;
        }
        if !found {
            return false;
        }
    }
    if cfg.sample_rate > 1 {
        let next: u64 = count.saturating_add(1);
        *count = next;
        if next % cfg.sample_rate != 0 {
            return false;
        }
    }
    if cfg.max_entries != 0 {
        let previous: u64 = *total;
        *total = previous.wrapping_add(1);
        if previous >= cfg.max_entries as u64 {
            return false;
        }
    }
    true
}

/// Where neither samples are taken nor a limit is set, a message is kept exactly
/// when its tag is one of the filters and more, whichever the other filters are.
pub proof fn law_one_matching_filter_is_enough(
    cfg: Config,
    tag: Seq<char>,
    count: u64,
    total: u64,
)
    requires
        cfg.sample_rate <= 1,
        cfg.max_entries == 0,
    ensures
        cfg.tag_filters is None ==> kept(cfg, tag, count, total),
        cfg.tag_filters matches Some(list) ==> {
            kept(cfg, tag, count, total) <==> exists|i: int, rest: Seq<char>|
                0 <= i < list@.len() && tag == #[trigger] (list@[i]@ + rest)
        },
{
    if let Some(list) = cfg.tag_filters {
        if kept(cfg, tag, count, total) {
            let i = choose|i: int|
                0 <= i < list@.len() && crate::text::begins(tag, (#[trigger] list@[i])@);
            let filter = list@[i]@;
            let rest = tag.skip(filter.len() as int);
            assert(tag =~= filter + rest);
        }
        if exists|i: int, rest: Seq<char>|
            0 <= i < list@.len() && tag == #[trigger] (list@[i]@ + rest) {
            let (i, rest) = choose|i: int, rest: Seq<char>|
                0 <= i < list@.len() && tag == #[trigger] (list@[i]@ + rest);
            assert(tag.take(list@[i]@.len() as int) =~= list@[i]@);
            assert(crate::text::begins(tag, list@[i]@));
        }
    }
}

/// More filters drop no message that was kept with fewer, and no filters at all
/// keep the most.
pub proof fn law_more_filters_keep_more(
    few: Config,
    many: Config,
    tag: Seq<char>,
    count: u64,
    total: u64,
)
    requires
        few.sample_rate == many.sample_rate,
        few.max_entries == many.max_entries,
        match (few.tag_filters, many.tag_filters) {
            (_, None) => true,
            (Some(a), Some(b)) => forall|i: int|
                0 <= i < a@.len() ==> exists|j: int|
                    0 <= j < b@.len() && (#[trigger] b@[j])@ == (#[trigger] a@[i])@,
            (None, Some(_)) => false,
        },
        kept(few, tag, count, total),
    ensures
        kept(many, tag, count, total),
{
    if let (Some(a), Some(b)) = (few.tag_filters, many.tag_filters) {
        let i = choose|i: int|
            0 <= i < a@.len() && crate::text::begins(tag, (#[trigger] a@[i])@);
        let j = choose|j: int| 0 <= j < b@.len() && (#[trigger] b@[j])@ == a@[i]@;
        assert(crate::text::begins(tag, b@[j]@));
    }
}

/// Where samples are taken, exactly one of as many messages in a row as the rate
/// says is kept: the one that brings the count to a multiple of the rate.
pub proof fn law_one_in_so_many_is_kept(cfg: Config, tag: Seq<char>, count: u64, total: u64)
    requires
        cfg.sample_rate > 1,
        cfg.max_entries == 0,
        cfg.tag_filters is None,
        count + cfg.sample_rate < u64::MAX,
    ensures
        exists|k: int|
            #![trigger count + k]
            {
                &&& 0 <= k < cfg.sample_rate
                &&& kept(cfg, tag, (count + k) as u64, total)
                &&& (count + k + 1) % (cfg.sample_rate as int) == 0
                &&& forall|j: int|
                    0 <= j < cfg.sample_rate && j != k ==> !kept(
                        cfg,
                        tag,
                        #[trigger] ((count + j) as u64),
                        total,
                    )
            },
{
    let rate = cfg.sample_rate as int;
    let done = count as int / rate;
    let k = (done + 1) * rate - count - 1;
    assert(0 <= k < rate && (count + k + 1) == (done + 1) * rate) by (nonlinear_arith)
        requires
            rate > 1,
            count >= 0,
            done == count as int / rate,
            k == (done + 1) * rate - count - 1,
    ;
    vstd::arithmetic::div_mod::lemma_mod_multiples_basic(done + 1, rate);
    assert forall|j: int| 0 <= j < rate && j != k implies !kept(
        cfg,
        tag,
        #[trigger] ((count + j) as u64),
        total,
    ) by {
        let n = count + j + 1;
        let gap = n - (done + 1) * rate;
        assert(-rate < gap < rate && gap != 0);
        assert(n % rate != 0) by (nonlinear_arith)
            requires
                rate > 1,
                n == (done + 1) * rate + gap,
                -rate < gap < rate,
                gap != 0,
        {
            if n % rate == 0 {
                let q = n / rate;
                assert(n == q * rate);
                assert((q - done - 1) * rate == gap);
                if q - done - 1 >= 1 {
                    assert((q - done - 1) * rate >= rate);
                } else if q - done - 1 <= -1 {
                    assert((q - done - 1) * rate <= -rate);
                }
            }
        }
    }
}

/// Where a limit is set, the messages before it are kept and counted, and once
/// as many have come as it says none is kept.
pub proof fn law_no_more_than_the_limit_is_kept(
    cfg: Config,
    tag: Seq<char>,
    count: u64,
    total: u64,
)
    requires
        cfg.max_entries > 0,
        cfg.sample_rate <= 1,
        cfg.tag_filters is None,
    ensures
        total < cfg.max_entries ==> kept(cfg, tag, count, total) && next_total(
            cfg,
            tag,
            count,
            total,
        ) == total + 1,
        total >= cfg.max_entries ==> !kept(cfg, tag, count, total),
{
}

/// A variable that holds a number in decimal notation gives that number where it
/// is large enough and fits; anything else gives the usual one.
pub proof fn law_a_variable_gives_its_number(
    value: Option<String>,
    n: nat,
    max: nat,
    least: nat,
    other: nat,
)
    ensures
        value is None ==> number_or(value, max, least, other) == other,
        value matches Some(text) ==> {
            &&& text@ == crate::text::decimal(n) && least <= n <= max ==> number_or(
                value,
                max,
                least,
                other,
            ) == n
            &&& text@ == crate::text::decimal(n) && (n < least || n > max) ==> number_or(
                value,
                max,
                least,
                other,
            ) == other
            &&& !crate::text::all_digits(text@.skip(1)) ==> number_or(value, max, least, other)
                == other
        },
{
    if let Some(text) = value {
        if text@ == crate::text::decimal(n) {
            crate::text::lemma_decimal(n);
            assert(crate::text::is_digit(text@[0]));
            assert(crate::text::unsigned_digits(text@) == text@);
        }
        if !crate::text::all_digits(text@.skip(1)) {
            let digits = crate::text::unsigned_digits(text@);
            if unsigned(text@, max) is Some {
                assert forall|i: int| 0 <= i < text@.skip(1).len() implies is_digit(
                    #[trigger] text@.skip(1)[i],
                ) by {
                    assert(text@.skip(1)[i] == digits[digits.len() - text@.skip(1).len() + i]);
                    assert(is_digit(digits[digits.len() - text@.skip(1).len() + i]));
                }
            }
        }
    }
}

/// A log file has the ending of log files once: a name that has it stays as it
/// is, and any other gets it. A name for the file is taken as it stands, one for
/// the program or the thread with letters and digits alone.
pub proof fn law_log_file_names(
    file: Option<String>,
    name: Option<String>,
    thread_name: Option<String>,
)
    ensures
        ({
            let log = log_file(file, name, thread_name);
            &&& log.len() >= 4
            &&& log.skip(log.len() - 4) == ".log"@
            &&& if file is Some && trimmed(file->0@).len() > 0 {
                log == (if file->0@.len() >= 4 && file->0@.skip(file->0@.len() - 4) == ".log"@ {
                    file->0@
                } else {
                    file->0@ + ".log"@
                })
            } else if name is Some && trimmed(name->0@).len() > 0 {
                log == label_in_name(name->0@) + ".log"@
            } else if thread_name is Some && thread_name->0@.len() > 0 {
                log == label_in_name(thread_name->0@) + ".log"@
            } else {
                log == "ubq.log"@
            }
        }),
{
    reveal_strlit(".log");
    reveal_strlit("ubq");
    reveal_strlit("ubq.log");
    let stem = log_stem(file, name, thread_name);
    let log = log_file(file, name, thread_name);
    assert((stem + ".log"@).skip(stem.len() as int) =~= ".log"@);
    assert("ubq"@ + ".log"@ =~= "ubq.log"@);
    if is_log_name(stem) {
        assert(stem.skip(stem.len() - 4)[0] == '.');
    }
    if !given(file) {
        assert forall|base: Seq<char>, i: int|
            0 <= i < base.len() implies #[trigger] label_in_name(base)[i] != '.' by {}
        if is_log_name(stem) {
            assert(stem[stem.len() - 4] == '.');
        }
        if name is Some && name->0@.len() == 0 {
            assert(trimmed(name->0@) == name->0@);
        }
    }
}

/// In a file name a label keeps its letters and digits at their places, and has
/// an underscore at every other place.
pub proof fn law_label_in_name_place_by_place(label: Seq<char>, i: int)
    requires
        0 <= i < label.len(),
    ensures
        label_in_name(label).len() == label.len(),
        label_in_name(label)[i] == (if ('a' <= label[i] <= 'z') || ('A' <= label[i] <= 'Z') || (
        '0' <= label[i] <= '9') {
            label[i]
        } else {
            '_'
        }),
{
}

} // verus!
