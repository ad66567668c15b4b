//! Settings, samples and tables of the submission-queue benchmark.
use vstd::prelude::*;

use crate::bench::uring::BatchMode;
use crate::order::{self, Side};
use crate::text::{
    chars_of, decimal, decimal_text, digit, fold, folded, is_digit, join, joined, parse_unsigned,
    push_char, replace, replaced, same, split, split_on, texts, trim, trimmed, unsigned,
};
use crate::tooling::commands::push_word;
use crate::tooling::search::{
    all_pools, backoff_values, backoffs, block_values, blocks, has_u16, has_u8, all_pool_values,
    parse_csv_list, trimmed_items,
};

verus! {

/// A queue that can be measured.
#[derive(Clone, Copy, Debug, PartialEq, Eq, Structural)]
pub enum QueueKind {
    IoUring,
    Bbq,
    Ubq,
}

/// The queue that a name stands for.
pub open spec fn queue_named(token: Seq<char>) -> Option<QueueKind> {
    let name = folded(token);
    if name == "io-uring"@ || name == "io_uring"@ || name == "uring"@ || name == "linux"@ {
        Some(QueueKind::IoUring)
    } else if name == "bbq"@ || name == "rbbq"@ || name == "fastfifo"@ || name == "fast-fifo"@ {
        Some(QueueKind::Bbq)
    } else if name == "ubq"@ {
        Some(QueueKind::Ubq)
    } else {
        None
    }
}

impl QueueKind {
    pub fn parse(token: &str) -> (kind: Option<QueueKind>)
        ensures
            kind == queue_named(token@),
    {
        let name = fold(token);
        let name = name.as_str();
        if same(name, "io-uring") || same(name, "io_uring") || same(name, "uring") || same(
            name,
            "linux",
        ) {
            Some(QueueKind::IoUring)
        } else if same(name, "bbq") || same(name, "rbbq") || same(name, "fastfifo") || same(
            name,
            "fast-fifo",
        ) {
            Some(QueueKind::Bbq)
        } else if same(name, "ubq") {
            Some(QueueKind::Ubq)
        } else {
            None
        }
    }
}

/// The batch mode that a name stands for.
pub open spec fn mode_named(token: Seq<char>) -> Option<BatchMode> {
    let name = folded(token);
    if name == "fixed1"@ || name == "fixed-1"@ || name == "1"@ || name == "single"@ {
        Some(BatchMode::Fixed1)
    } else if name == "random1to32"@ || name == "random-1-to-32"@ || name == "random"@ || name
        == "rand"@ || name == "1..32"@ || name == "1-32"@ {
        Some(BatchMode::Random1To32)
    } else {
        None
    }
}

pub fn parse_batch_mode(token: &str) -> (mode: Option<BatchMode>)
    ensures
        mode == mode_named(token@),
{
    let name = fold(token);
    let name = name.as_str();
    if same(name, "fixed1") || same(name, "fixed-1") || same(name, "1") || same(name, "single") {
        Some(BatchMode::Fixed1)
    } else if same(name, "random1to32") || same(name, "random-1-to-32") || same(name, "random")
        || same(name, "rand") || same(name, "1..32") || same(name, "1-32") {
        Some(BatchMode::Random1To32)
    } else {
        None
    }
}

/// What a list of tokens was read as.
pub enum ListReading<T> {
    List(Seq<T>),
    Refused(Seq<char>),
}

/// Reads tokens one after the other; blank ones are passed over, each value
/// counts once, and the first token that is none is refused.
pub open spec fn read_list<T>(
    tokens: Seq<Seq<char>>,
    value: spec_fn(Seq<char>) -> Option<T>,
    refusal: spec_fn(Seq<char>) -> Seq<char>,
) -> ListReading<T>
    decreases tokens.len(),
{
    if tokens.len() == 0 {
        ListReading::List(Seq::empty())
    } else {
        match read_list(tokens.drop_last(), value, refusal) {
            ListReading::Refused(message) => ListReading::Refused(message),
            ListReading::List(list) => if trimmed(tokens.last()).len() == 0 {
                ListReading::List(list)
            } else {
                match value(tokens.last()) {
                    None => ListReading::Refused(refusal(tokens.last())),
                    Some(item) => if list.contains(item) {
                        ListReading::List(list)
                    } else {
                        ListReading::List(list.push(item))
                    },
                }
            },
        }
    }
}

/// A list that must not be empty.
pub open spec fn nonempty<T>(reading: ListReading<T>, refusal: Seq<char>) -> ListReading<T> {
    match reading {
        ListReading::List(list) => if list.len() == 0 {
            ListReading::Refused(refusal)
        } else {
            reading
        },
        _ => reading,
    }
}

proof fn lemma_refused<T>(
    tokens: Seq<Seq<char>>,
    value: spec_fn(Seq<char>) -> Option<T>,
    refusal: spec_fn(Seq<char>) -> Seq<char>,
    n: int,
)
    requires
        0 <= n <= tokens.len(),
        read_list(tokens.take(n), value, refusal) is Refused,
    ensures
        read_list(tokens, value, refusal) == read_list(tokens.take(n), value, refusal),
    decreases tokens.len() - n,
{
    if n < tokens.len() {
        assert(tokens.take(n + 1).drop_last() =~= tokens.take(n));
        lemma_refused(tokens, value, refusal, n + 1);
    } else {
        assert(tokens.take(n) =~= tokens);
    }
}

/// What the queue list of a command line amounts to.
pub open spec fn queue_list(raw: Seq<char>) -> ListReading<QueueKind> {
    nonempty(
        read_list(
            split(raw, ','),
            |token: Seq<char>| queue_named(token),
            |token: Seq<char>| "invalid queue kind '"@ + token + "'"@,
        ),
        "at least one queue is required"@,
    )
}

fn quoted_token(front: &str, token: &str) -> (message: String)
    ensures
        message@ == front@ + token@ + "'"@,
{
    let mut message = front.to_owned();
    message.append(token);
    message.append("'");
    message
}

pub fn parse_queue_kinds(raw: &str) -> (result: Result<Vec<QueueKind>, String>)
    ensures
        match result {
            Ok(list) => queue_list(raw@) == ListReading::List(list@),
            Err(message) => queue_list(raw@) == ListReading::<QueueKind>::Refused(message@),
        },
{
    let tokens = split_on(raw, ',');
    let ghost all = texts(tokens@);
    let ghost value = |token: Seq<char>| queue_named(token);
    let ghost refusal = |token: Seq<char>| "invalid queue kind '"@ + token + "'"@;
    let mut list: Vec<QueueKind> = Vec::new();
    let mut i: usize = 0;
    assert(all.take(0) =~= Seq::<Seq<char>>::empty());
    assert(list@ =~= Seq::<QueueKind>::empty());
    while i < tokens.len()
        invariant
            all == texts(tokens@),
            value == (|token: Seq<char>| queue_named(token)),
            refusal == (|token: Seq<char>| "invalid queue kind '"@ + token + "'"@),
            queue_list(raw@) == nonempty(
                read_list(all, value, refusal),
                "at least one queue is required"@,
            ),
            i <= tokens@.len(),
            read_list(all.take(i as int), value, refusal) == ListReading::List(list@),
        decreases tokens@.len() - i,
    {
        let ghost token = tokens@[i as int]@;
        proof {
            assert(all.take(i + 1).drop_last() =~= all.take(i as int));
            assert(all.take(i + 1).last() == token);
        }
        let core = trim(tokens[i].as_str());
        if chars_of(core.as_str()).len() > 0 {
            match QueueKind::parse(tokens[i].as_str()) {
                Some(kind) => {
                    let mut held = false;
                    let mut k: usize = 0;
                    while k < list.len()
                        invariant
                            k <= list@.len(),
                            held == exists|j: int| 0 <= j < k && list@[j] == kind,
                        decreases list@.len() - k,
                    {
                        if list[k] == kind {
                            held = true;
                        }
                        k = k + 1;
                    }
                    assert(held == list@.contains(kind));
                    if !held {
                        list.push(kind);
                    }
                },
                None => {
                    let message = quoted_token("invalid queue kind '", tokens[i].as_str());
                    proof {
                        lemma_refused(all, value, refusal, i + 1);
                    }
                    return Err(message);
                },
            }
        }
        i = i + 1;
    }
    assert(all.take(i as int) =~= all);
    if list.len() == 0 {
        return Err("at least one queue is required".to_owned());
    }
    Ok(list)
}

/// What the batch modes of a command line amount to.
pub open spec fn mode_list(raw: Seq<char>) -> ListReading<BatchMode> {
    nonempty(
        read_list(
            split(raw, ','),
            |token: Seq<char>| mode_named(token),
            |token: Seq<char>| "invalid batch mode '"@ + token + "'"@,
        ),
        "at least one batch mode is required"@,
    )
}

pub fn parse_batch_modes(raw: &str) -> (result: Result<Vec<BatchMode>, String>)
    ensures
        match result {
            Ok(list) => mode_list(raw@) == ListReading::List(list@),
            Err(message) => mode_list(raw@) == ListReading::<BatchMode>::Refused(message@),
        },
{
    let tokens = split_on(raw, ',');
    let ghost all = texts(tokens@);
    let ghost value = |token: Seq<char>| mode_named(token);
    let ghost refusal = |token: Seq<char>| "invalid batch mode '"@ + token + "'"@;
    let mut list: Vec<BatchMode> = Vec::new();
    let mut i: usize = 0;
    assert(all.take(0) =~= Seq::<Seq<char>>::empty());
    assert(list@ =~= Seq::<BatchMode>::empty());
    while i < tokens.len()
        invariant
            all == texts(tokens@),
            value == (|token: Seq<char>| mode_named(token)),
            refusal == (|token: Seq<char>| "invalid batch mode '"@ + token + "'"@),
            mode_list(raw@) == nonempty(
                read_list(all, value, refusal),
                "at least one batch mode is required"@,
            ),
            i <= tokens@.len(),
            read_list(all.take(i as int), value, refusal) == ListReading::List(list@),
        decreases tokens@.len() - i,
    {
        let ghost token = tokens@[i as int]@;
        proof {
            assert(all.take(i + 1).drop_last() =~= all.take(i as int));
            assert(all.take(i + 1).last() == token);
        }
        let core = trim(tokens[i].as_str());
        if chars_of(core.as_str()).len() > 0 {
            match parse_batch_mode(tokens[i].as_str()) {
                Some(mode) => {
                    let mut held = false;
                    let mut k: usize = 0;
                    while k < list.len()
                        invariant
                            k <= list@.len(),
                            held == exists|j: int| 0 <= j < k && list@[j] == mode,
                        decreases list@.len() - k,
                    {
                        if list[k] == mode {
                            held = true;
                        }
                        k = k + 1;
                    }
                    assert(held == list@.contains(mode));
                    if !held {
                        list.push(mode);
                    }
                },
                None => {
                    let message = quoted_token("invalid batch mode '", tokens[i].as_str());
                    proof {
                        lemma_refused(all, value, refusal, i + 1);
                    }
                    return Err(message);
                },
            }
        }
        i = i + 1;
    }
    assert(all.take(i as int) =~= all);
    if list.len() == 0 {
        return Err("at least one batch mode is required".to_owned());
    }
    Ok(list)
}

/// The size that a token stands for.
pub open spec fn size_of_token(token: Seq<char>) -> Option<usize> {
    match unsigned(trimmed(token), usize::MAX as nat) {
        Some(n) => if n == 0 {
            None
        } else {
            Some(n as usize)
        },
        None => None,
    }
}

/// What is said of a token that is no size.
pub open spec fn size_refusal(token: Seq<char>) -> Seq<char> {
    if unsigned(trimmed(token), usize::MAX as nat) == Some(0nat) {
        "SQ size must be > 0"@
    } else {
        "invalid SQ size '"@ + token + "'"@
    }
}

/// What the sizes of a command line amount to.
pub open spec fn size_list(raw: Seq<char>) -> ListReading<usize> {
    nonempty(
        read_list(
            split(raw, ','),
            |token: Seq<char>| size_of_token(token),
            |token: Seq<char>| size_refusal(token),
        ),
        "at least one SQ size is required"@,
    )
}

pub fn parse_sizes(raw: &str) -> (result: Result<Vec<usize>, String>)
    ensures
        match result {
            Ok(list) => size_list(raw@) == ListReading::List(list@),
            Err(message) => size_list(raw@) == ListReading::<usize>::Refused(message@),
        },
{
    let tokens = split_on(raw, ',');
    let ghost all = texts(tokens@);
    let ghost value = |token: Seq<char>| size_of_token(token);
    let ghost refusal = |token: Seq<char>| size_refusal(token);
    let mut list: Vec<usize> = Vec::new();
    let mut i: usize = 0;
    assert(all.take(0) =~= Seq::<Seq<char>>::empty());
    assert(list@ =~= Seq::<usize>::empty());
    while i < tokens.len()
        invariant
            all == texts(tokens@),
            value == (|token: Seq<char>| size_of_token(token)),
            refusal == (|token: Seq<char>| size_refusal(token)),
            size_list(raw@) == nonempty(
                read_list(all, value, refusal),
                "at least one SQ size is required"@,
            ),
            i <= tokens@.len(),
            read_list(all.take(i as int), value, refusal) == ListReading::List(list@),
        decreases tokens@.len() - i,
    {
        let ghost token = tokens@[i as int]@;
        proof {
            assert(all.take(i + 1).drop_last() =~= all.take(i as int));
            assert(all.take(i + 1).last() == token);
        }
        let core = trim(tokens[i].as_str());
        if chars_of(core.as_str()).len() > 0 {
            let parsed = parse_unsigned(core.as_str(), usize::MAX as u128);
            match parsed {
                Some(number) => {
                    let size: usize = number as usize;
                    if size == 0 {
                        proof {
                            lemma_refused(all, value, refusal, i + 1);
                        }
                        return Err("SQ size must be > 0".to_owned());
                    }
                    let mut held = false;
                    let mut k: usize = 0;
                    while k < list.len()
                        invariant
                            k <= list@.len(),
                            held == exists|j: int| 0 <= j < k && list@[j] == size,
                        decreases list@.len() - k,
                    {
                        if list[k] == size {
                            held = true;
                        }
                        k = k + 1;
                    }
                    assert(held == list@.contains(size));
                    if !held {
                        list.push(size);
                    }
                },
                None => {
                    let message = quoted_token("invalid SQ size '", tokens[i].as_str());
                    proof {
                        lemma_refused(all, value, refusal, i + 1);
                    }
                    return Err(message);
                },
            }
        }
        i = i + 1;
    }
    assert(all.take(i as int) =~= all);
    if list.len() == 0 {
        return Err("at least one SQ size is required".to_owned());
    }
    Ok(list)
}

/// A configuration of the unbounded queue behind a limit.
pub struct UbqLabel {
    pub normalized: String,
    pub pool: usize,
    pub block: u16,
    pub backoff: String,
}

/// The configuration that a label stands for: preset, pool size, block length
/// and backoff, blanks around them ignored.
pub open spec fn bounded_label(raw: Seq<char>) -> Option<(nat, nat, Seq<char>)> {
    let fields = trimmed_items(split(folded(raw), ','));
    if fields.len() != 4 {
        None
    } else {
        match (
            unsigned(fields[1], usize::MAX as nat),
            unsigned(fields[2], u16::MAX as nat),
        ) {
            (Some(pool), Some(block)) => if fields[0] == "balanced"@ && pool <= u8::MAX
                && all_pools().contains(pool as u8) && blocks().contains(block as u16)
                && backoffs().contains(fields[3]) {
                Some((pool, block, fields[3]))
            } else {
                None
            },
            _ => None,
        }
    }
}

pub fn parse_ubq_label(raw: &str) -> (result: Result<UbqLabel, String>)
    ensures
        match result {
            Ok(label) => {
                &&& bounded_label(raw@) == Some(
                    (label.pool as nat, label.block as nat, label.backoff@),
                )
                &&& label.normalized@ == "balanced,"@ + decimal(label.pool as nat) + ","@
                    + decimal(label.block as nat) + ","@ + label.backoff@
            },
            Err(message) => bounded_label(raw@) is None && message@ == "invalid UBQ label '"@ + raw@
                + "'"@,
        },
{
    let text = fold(raw);
    let fields = parse_csv_list(text.as_str());
    let ghost all = trimmed_items(split(folded(raw@), ','));
    assert(texts(fields@) == all);
    if fields.len() != 4 {
        return Err(quoted_token("invalid UBQ label '", raw));
    }
    assert(all[0] == fields@[0]@ && all[1] == fields@[1]@ && all[2] == fields@[2]@ && all[3]
        == fields@[3]@);
    let pool: usize = match parse_unsigned(fields[1].as_str(), usize::MAX as u128) {
        Some(pool) => pool as usize,
        None => {
            return Err(quoted_token("invalid UBQ label '", raw));
        },
    };
    let block: u16 = match parse_unsigned(fields[2].as_str(), u16::MAX as u128) {
        Some(block) => block as u16,
        None => {
            return Err(quoted_token("invalid UBQ label '", raw));
        },
    };
    if !same(fields[0].as_str(), "balanced") || pool > 255 || !has_u8(
        &all_pool_values(),
        pool as u8,
    ) || !has_u16(&block_values(), block) || !order::holds(&backoff_values(), fields[3].as_str()) {
        return Err(quoted_token("invalid UBQ label '", raw));
    }
    let a = decimal_text(pool as u128);
    let b = decimal_text(block as u128);
    let mut normalized = "balanced,".to_owned();
    normalized.append(a.as_str());
    normalized.append(",");
    normalized.append(b.as_str());
    normalized.append(",");
    normalized.append(fields[3].as_str());
    Ok(UbqLabel { normalized, pool, block, backoff: fields[3].clone() })
}

/// A field of a table: quoted if it holds a comma, a quote or a line break.
pub open spec fn csv(value: Seq<char>) -> Seq<char> {
    if value.contains(',') || value.contains('"') || value.contains('\n') {
        "\""@ + replaced(value, '"', "\"\""@) + "\""@
    } else {
        value
    }
}

fn has_char(text: &str, c: char) -> (found: bool)
    ensures
        found == text@.contains(c),
{
    let chars = chars_of(text);
    let mut i: usize = 0;
    while i < chars.len()
        invariant
            chars@ == text@,
            i <= chars@.len(),
            forall|j: int| 0 <= j < i ==> chars@[j] != c,
        decreases chars@.len() - i,
    {
        if chars[i] == c {
            return true;
        }
        i = i + 1;
    }
    false
}

pub fn csv_field(value: &str) -> (field: String)
    ensures
        field@ == csv(value@),
{
    if has_char(value, ',') || has_char(value, '"') || has_char(value, '\n') {
        let inner = replace(value, '"', "\"\"");
        let mut field = "\"".to_owned();
        field.append(inner.as_str());
        field.append("\"");
        field
    } else {
        value.to_owned()
    }
}

/// The fields of a line.
pub open spec fn csv_fields(fields: Seq<Seq<char>>) -> Seq<Seq<char>> {
    fields.map_values(|field: Seq<char>| csv(field))
}

/// A line of a table.
pub fn write_row(fields: &Vec<String>) -> (line: String)
    ensures
        line@ == joined(csv_fields(texts(fields@)), ","@) + "\n"@,
{
    let ghost all = texts(fields@);
    let mut list: Vec<String> = Vec::new();
    let mut i: usize = 0;
    while i < fields.len()
        invariant
            all == texts(fields@),
            i <= fields@.len(),
            list@.len() == i,
            forall|j: int| 0 <= j < i ==> #[trigger] list@[j]@ == csv(all[j]),
        decreases fields@.len() - i,
    {
        assert(all[i as int] == fields@[i as int]@);
        list.push(csv_field(fields[i].as_str()));
        i = i + 1;
    }
    assert(texts(list@) =~= csv_fields(all));
    let mut line = join(&list, ",");
    line.append("\n");
    line
}

/// One measurement.
pub struct Sample {
    pub queue: String,
    pub sq_size: usize,
    pub cq_size: usize,
    pub batch_mode: BatchMode,
    pub repeat: usize,
    pub requests: u64,
    pub submitted: u64,
    pub processed: u64,
    pub completed: u64,
    pub submit_elapsed_ns: u128,
    pub total_elapsed_ns: u128,
}

/// The line of a measurement: its fields, then four quotients as they were
/// formatted.
pub open spec fn sample_fields(sample: Sample, quotients: Seq<Seq<char>>) -> Seq<Seq<char>> {
    seq![
        sample.queue@,
        decimal(sample.sq_size as nat),
        decimal(sample.cq_size as nat),
        sample.batch_mode.title(),
        decimal(sample.repeat as nat),
        decimal(sample.requests as nat),
        decimal(sample.submitted as nat),
        decimal(sample.processed as nat),
        decimal(sample.completed as nat),
        decimal(sample.submit_elapsed_ns as nat),
        decimal(sample.total_elapsed_ns as nat),
    ] + quotients
}

fn push_number(row: &mut Vec<String>, n: u128)
    ensures
        texts(final(row)@) == texts(old(row)@).push(decimal(n as nat)),
{
    let text = decimal_text(n);
    push_word(row, text.as_str());
}

pub fn sample_row(sample: &Sample, quotients: Vec<String>) -> (row: Vec<String>)
    ensures
        texts(row@) == sample_fields(*sample, texts(quotients@)),
{
    let ghost rest = texts(quotients@);
    let mut row: Vec<String> = Vec::new();
    push_word(&mut row, sample.queue.as_str());
    push_number(&mut row, sample.sq_size as u128);
    push_number(&mut row, sample.cq_size as u128);
    push_word(&mut row, sample.batch_mode.name());
    push_number(&mut row, sample.repeat as u128);
    push_number(&mut row, sample.requests as u128);
    push_number(&mut row, sample.submitted as u128);
    push_number(&mut row, sample.processed as u128);
    push_number(&mut row, sample.completed as u128);
    push_number(&mut row, sample.submit_elapsed_ns);
    push_number(&mut row, sample.total_elapsed_ns);
    let ghost front = texts(row@);
    let mut quotients = quotients;
    row.append(&mut quotients);
    assert(texts(row@) =~= front + rest);
    assert(texts(row@) =~= sample_fields(*sample, rest));
    row
}

/// What the measurements of a summary line have in common.
pub struct SummaryKey {
    pub queue: String,
    pub sq_size: usize,
    pub cq_size: usize,
    pub batch_mode: BatchMode,
}

/// The contents of a summary key.
pub struct SummaryParts {
    pub queue: Seq<char>,
    pub sq_size: usize,
    pub cq_size: usize,
    pub batch_mode: BatchMode,
}

impl View for SummaryKey {
    type V = SummaryParts;

    open spec fn view(&self) -> SummaryParts {
        SummaryParts {
            queue: self.queue@,
            sq_size: self.sq_size,
            cq_size: self.cq_size,
            batch_mode: self.batch_mode,
        }
    }
}

/// The key of a measurement.
pub open spec fn summary_key(sample: Sample) -> SummaryParts {
    SummaryParts {
        queue: sample.queue@,
        sq_size: sample.sq_size,
        cq_size: sample.cq_size,
        batch_mode: sample.batch_mode,
    }
}

fn key_of(sample: &Sample) -> (key: SummaryKey)
    ensures
        key@ == summary_key(*sample),
{
    SummaryKey {
        queue: sample.queue.clone(),
        sq_size: sample.sq_size,
        cq_size: sample.cq_size,
        batch_mode: sample.batch_mode,
    }
}

/// The order of the summary: by queue, sizes and mode.
pub open spec fn summary_precedes(a: SummaryParts, b: SummaryParts) -> bool {
    ||| order::precedes(a.queue, b.queue)
    ||| a.queue == b.queue && a.sq_size < b.sq_size
    ||| a.queue == b.queue && a.sq_size == b.sq_size && a.cq_size < b.cq_size
    ||| a.queue == b.queue && a.sq_size == b.sq_size && a.cq_size == b.cq_size && a.batch_mode
        == BatchMode::Fixed1 && b.batch_mode == BatchMode::Random1To32
}

/// No key comes before itself.
pub proof fn law_summary_irreflexive(a: SummaryParts)
    ensures
        !summary_precedes(a, a),
{
    order::law_precedes_irreflexive(a.queue);
}

/// The order of keys is transitive.
pub proof fn law_summary_transitive(a: SummaryParts, b: SummaryParts, c: SummaryParts)
    requires
        summary_precedes(a, b),
        summary_precedes(b, c),
    ensures
        summary_precedes(a, c),
{
    if order::precedes(a.queue, b.queue) && order::precedes(b.queue, c.queue) {
        order::law_precedes_transitive(a.queue, b.queue, c.queue);
    }
}

fn summary_side(a: &SummaryKey, b: &SummaryKey) -> (side: Side)
    ensures
        match side {
            Side::Before => summary_precedes(a@, b@),
            Side::Same => a@ == b@,
            Side::After => summary_precedes(b@, a@),
        },
{
    match order::side(a.queue.as_str(), b.queue.as_str()) {
        Side::Same => {},
        other => {
            return other;
        },
    }
    if a.sq_size < b.sq_size {
        return Side::Before;
    }
    if b.sq_size < a.sq_size {
        return Side::After;
    }
    if a.cq_size < b.cq_size {
        return Side::Before;
    }
    if b.cq_size < a.cq_size {
        return Side::After;
    }
    match (a.batch_mode, b.batch_mode) {
        (BatchMode::Fixed1, BatchMode::Random1To32) => Side::Before,
        (BatchMode::Random1To32, BatchMode::Fixed1) => Side::After,
        _ => Side::Same,
    }
}

/// The measurements with a key, by their numbers.
pub struct SummaryGroup {
    pub key: SummaryKey,
    pub members: Vec<usize>,
}

/// The numbers of the measurements with a key, in order.
pub open spec fn with_key(samples: Seq<Sample>, key: SummaryParts) -> Seq<usize>
    decreases samples.len(),
{
    if samples.len() == 0 {
        Seq::empty()
    } else {
        let rest = with_key(samples.drop_last(), key);
        if summary_key(samples.last()) == key {
            rest.push((samples.len() - 1) as usize)
        } else {
            rest
        }
    }
}

/// The groups stand in the order of their keys.
pub open spec fn summary_sorted(groups: Seq<SummaryGroup>) -> bool {
    forall|i: int, j: int|
        0 <= i < j < groups.len() ==> summary_precedes(
            (#[trigger] groups[i]).key@,
            (#[trigger] groups[j]).key@,
        )
}

/// The groups hold all measurements, each in the group of its key.
pub open spec fn summarizes(groups: Seq<SummaryGroup>, samples: Seq<Sample>) -> bool {
    &&& summary_sorted(groups)
    &&& forall|g: int|
        0 <= g < groups.len() ==> {
            &&& (#[trigger] groups[g]).members@ == with_key(samples, groups[g].key@)
            &&& groups[g].members@.len() > 0
        }
    &&& forall|i: int|
        0 <= i < samples.len() ==> exists|g: int|
            0 <= g < groups.len() && (#[trigger] groups[g]).key@ == summary_key(
                #[trigger] samples[i],
            )
}

fn file_sample(groups: &mut Vec<SummaryGroup>, sample: &Sample, number: usize, Ghost(
    samples,
): Ghost<Seq<Sample>>)
    requires
        summarizes(old(groups)@, samples),
        number == samples.len(),
    ensures
        summarizes(final(groups)@, samples.push(*sample)),
{
    let key = key_of(sample);
    let ghost before = groups@;
    let ghost name = key@;
    let ghost all = samples.push(*sample);
    assert(all.drop_last() =~= samples);
    assert forall|k: SummaryParts| #[trigger] with_key(all, k) == (if k == name {
        with_key(samples, k).push(number)
    } else {
        with_key(samples, k)
    }) by {}
    let mut at: usize = 0;
    while at < groups.len()
        invariant
            groups@ == before,
            name == key@,
            name == summary_key(*sample),
            all == samples.push(*sample),
            number == samples.len(),
            summarizes(before, samples),
            forall|k: SummaryParts| #[trigger]
                with_key(all, k) == (if k == name {
                    with_key(samples, k).push(number)
                } else {
                    with_key(samples, k)
                }),
            at <= groups@.len(),
            forall|j: int| 0 <= j < at ==> summary_precedes((#[trigger] before[j]).key@, name),
        ensures
            at < groups@.len() ==> summary_precedes(name, before[at as int].key@),
        decreases groups@.len() - at,
    {
        match summary_side(&groups[at].key, &key) {
            Side::Before => {},
            Side::Same => {
                groups[at].members.push(number);
                proof {
                    let after = groups@;
                    assert(after[at as int].key == before[at as int].key);
                    assert(forall|j: int| 0 <= j < after.len() && j != at ==> after[j] == before[j]);
                    assert forall|j: int| 0 <= j < after.len() implies {
                        &&& (#[trigger] after[j]).members@ == with_key(all, after[j].key@)
                        &&& after[j].members@.len() > 0
                    } by {
                        if j != at {
                            law_summary_irreflexive(name);
                            assert(before[j].key@ != name) by {
                                if j < at {
                                    assert(summary_precedes(
                                        before[j].key@,
                                        before[at as int].key@,
                                    ));
                                } else {
                                    assert(summary_precedes(
                                        before[at as int].key@,
                                        before[j].key@,
                                    ));
                                }
                            }
                        }
                    }
                    assert forall|i: int| 0 <= i < all.len() implies exists|g: int|
                        0 <= g < after.len() && (#[trigger] after[g]).key@ == summary_key(
                            #[trigger] all[i],
                        ) by {
                        if i < samples.len() {
                            assert(all[i] == samples[i]);
                            let g = choose|g: int|
                                0 <= g < before.len() && (#[trigger] before[g]).key@
                                    == summary_key(samples[i]);
                            assert(after[g].key@ == summary_key(all[i]));
                        } else {
                            assert(after[at as int].key@ == summary_key(all[i]));
                        }
                    }
                    assert(summary_sorted(after)) by {
                        assert forall|i: int, j: int|
                            0 <= i < j < after.len() implies summary_precedes(
                            (#[trigger] after[i]).key@,
                            (#[trigger] after[j]).key@,
                        ) by {
                            assert(summary_precedes(before[i].key@, before[j].key@));
                        }
                    }
                }
                return;
            },
            Side::After => {
                break;
            },
        }
        at = at + 1;
    }
    proof {
        assert forall|j: int| at <= j < before.len() implies summary_precedes(
            name,
            (#[trigger] before[j]).key@,
        ) by {
            if j > at {
                law_summary_transitive(name, before[at as int].key@, before[j].key@);
            }
        }
        law_summary_irreflexive(name);
        lemma_absent(before, samples, name);
    }
    let mut members: Vec<usize> = Vec::new();
    members.push(number);
    groups.insert(at, SummaryGroup { key, members });
    proof {
        let after = groups@;
        let group = after[at as int];
        assert(after =~= before.insert(at as int, group));
        assert(with_key(samples, name) =~= Seq::<usize>::empty());
        assert(group.members@ =~= with_key(all, name));
        assert forall|j: int| 0 <= j < after.len() implies {
            &&& (#[trigger] after[j]).members@ == with_key(all, after[j].key@)
            &&& after[j].members@.len() > 0
        } by {
            if j < at {
                assert(after[j] == before[j]);
            } else if j > at {
                assert(after[j] == before[j - 1]);
            }
        }
        assert forall|i: int| 0 <= i < all.len() implies exists|g: int|
            0 <= g < after.len() && (#[trigger] after[g]).key@ == summary_key(
                #[trigger] all[i],
            ) by {
            if i < samples.len() {
                assert(all[i] == samples[i]);
                let g = choose|g: int|
                    0 <= g < before.len() && (#[trigger] before[g]).key@ == summary_key(samples[i]);
                if g < at {
                    assert(after[g].key@ == summary_key(all[i]));
                } else {
                    assert(after[g + 1].key@ == summary_key(all[i]));
                }
            } else {
                assert(after[at as int].key@ == summary_key(all[i]));
            }
        }
        assert(summary_sorted(after)) by {
            assert forall|i: int, j: int| 0 <= i < j < after.len() implies summary_precedes(
                (#[trigger] after[i]).key@,
                (#[trigger] after[j]).key@,
            ) by {
                let a = if i < at {
                    i
                } else {
                    i - 1
                };
                let b = if j < at {
                    j
                } else {
                    j - 1
                };
                if i != at {
                    assert(after[i] == before[a]);
                }
                if j != at {
                    assert(after[j] == before[b]);
                }
            }
        }
    }
}

proof fn lemma_absent(groups: Seq<SummaryGroup>, samples: Seq<Sample>, key: SummaryParts)
    requires
        summarizes(groups, samples),
        forall|g: int| 0 <= g < groups.len() ==> (#[trigger] groups[g]).key@ != key,
    ensures
        with_key(samples, key).len() == 0,
{
    assert forall|i: int| 0 <= i < samples.len() implies summary_key(#[trigger] samples[i])
        != key by {}
    lemma_none(samples, key);
}

proof fn lemma_none(samples: Seq<Sample>, key: SummaryParts)
    requires
        forall|i: int| 0 <= i < samples.len() ==> summary_key(#[trigger] samples[i]) != key,
    ensures
        with_key(samples, key).len() == 0,
    decreases samples.len(),
{
    if samples.len() > 0 {
        assert(summary_key(samples[samples.len() - 1]) != key);
        lemma_none(samples.drop_last(), key);
    }
}

/// Groups measurements for the summary.
pub fn summary_groups(samples: &Vec<Sample>) -> (groups: Vec<SummaryGroup>)
    ensures
        summarizes(groups@, samples@),
{
    let mut groups: Vec<SummaryGroup> = Vec::new();
    let mut i: usize = 0;
    assert(samples@.take(0) =~= Seq::<Sample>::empty());
    while i < samples.len()
        invariant
            i <= samples@.len(),
            summarizes(groups@, samples@.take(i as int)),
        decreases samples@.len() - i,
    {
        let ghost part = samples@.take(i as int);
        assert(samples@.take(i + 1) =~= part.push(samples@[i as int]));
        file_sample(&mut groups, &samples[i], i, Ghost(part));
        i = i + 1;
    }
    assert(samples@.take(i as int) =~= samples@);
    groups
}

/// The group that another is compared with: the kernel's queue with the same
/// sizes and mode.
pub open spec fn is_baseline(base: SummaryParts, key: SummaryParts) -> bool {
    base == (SummaryParts { queue: "io_uring"@, ..key })
}

/// Where the group stands that `key` is compared with.
pub fn baseline_of(groups: &Vec<SummaryGroup>, key: &SummaryKey) -> (at: Option<usize>)
    ensures
        match at {
            Some(at) => at < groups@.len() && is_baseline(groups@[at as int].key@, key@),
            None => forall|g: int|
                0 <= g < groups@.len() ==> !is_baseline((#[trigger] groups@[g]).key@, key@),
        },
{
    let mut g: usize = 0;
    while g < groups.len()
        invariant
            g <= groups@.len(),
            forall|j: int| 0 <= j < g ==> !is_baseline((#[trigger] groups@[j]).key@, key@),
        decreases groups@.len() - g,
    {
        let other = &groups[g].key;
        if same(other.queue.as_str(), "io_uring") && other.sq_size == key.sq_size && other.cq_size
            == key.cq_size && other.batch_mode == key.batch_mode {
            return Some(g);
        }
        g = g + 1;
    }
    None
}

/// The line of a group: its key and counts, then six quotients as they were
/// formatted.
pub open spec fn summary_fields(
    key: SummaryParts,
    requests: int,
    repeats: int,
    quotients: Seq<Seq<char>>,
) -> Seq<Seq<char>> {
    seq![
        key.queue,
        decimal(key.sq_size as nat),
        decimal(key.cq_size as nat),
        key.batch_mode.title(),
        decimal(requests as nat),
        decimal(repeats as nat),
    ] + quotients
}

pub fn summary_row(group: &SummaryGroup, samples: &Vec<Sample>, quotients: Vec<String>) -> (row:
    Vec<String>)
    requires
        group.members@.len() > 0,
        group.members@[0] < samples@.len(),
    ensures
        texts(row@) == summary_fields(
            group.key@,
            samples@[group.members@[0] as int].requests as int,
            group.members@.len() as int,
            texts(quotients@),
        ),
{
    let ghost rest = texts(quotients@);
    let requests: u64 = samples[group.members[0]].requests;
    let mut row: Vec<String> = Vec::new();
    push_word(&mut row, group.key.queue.as_str());
    push_number(&mut row, group.key.sq_size as u128);
    push_number(&mut row, group.key.cq_size as u128);
    push_word(&mut row, group.key.batch_mode.name());
    push_number(&mut row, requests as u128);
    push_number(&mut row, group.members.len() as u128);
    let ghost front = texts(row@);
    let mut quotients = quotients;
    row.append(&mut quotients);
    assert(texts(row@) =~= front + rest);
    assert(texts(row@) =~= summary_fields(
        group.key@,
        requests as int,
        group.members@.len() as int,
        rest,
    ));
    row
}

/// The settings of a sweep.
pub struct SweepArgs {
    pub sq_sizes: String,
    pub batch_modes: String,
    pub requests: u64,
    pub repeats: usize,
    pub cq_multiplier: usize,
    pub bbq_block_size: usize,
}

/// A size whose completion ring cannot be counted.
pub open spec fn overflows(sizes: Seq<usize>, multiplier: int, i: int) -> bool {
    &&& 0 <= i < sizes.len()
    &&& sizes[i] * multiplier > usize::MAX
    &&& forall|j: int| 0 <= j < i ==> #[trigger] sizes[j] * multiplier <= usize::MAX
}

/// What stands in the way of a sweep.
pub open spec fn sweep_refuses(args: SweepArgs, message: Seq<char>) -> bool {
    if args.requests == 0 {
        message == "requests must be > 0"@
    } else if args.repeats == 0 {
        message == "repeats must be > 0"@
    } else if args.cq_multiplier == 0 {
        message == "cq-multiplier must be > 0"@
    } else if args.bbq_block_size == 0 {
        message == "bbq-block-size must be > 0"@
    } else {
        match size_list(args.sq_sizes@) {
            ListReading::Refused(refusal) => message == refusal,
            ListReading::List(sizes) => {
                ||| exists|i: int|
                    #![trigger overflows(sizes, args.cq_multiplier as int, i)]
                    overflows(sizes, args.cq_multiplier as int, i) && message
                        == "CQ size overflow for SQ size "@ + decimal(sizes[i] as nat)
                ||| {
                    &&& forall|i: int| !overflows(sizes, args.cq_multiplier as int, i)
                    &&& mode_list(args.batch_modes@) == ListReading::<BatchMode>::Refused(message)
                }
            },
        }
    }
}

/// Checks the settings of a sweep: the sizes and the batch modes.
pub fn validate_args(args: &SweepArgs) -> (result: Result<(Vec<usize>, Vec<BatchMode>), String>)
    ensures
        match result {
            Ok((sizes, modes)) => {
                &&& args.requests > 0
                &&& args.repeats > 0
                &&& args.cq_multiplier > 0
                &&& args.bbq_block_size > 0
                &&& size_list(args.sq_sizes@) == ListReading::List(sizes@)
                &&& forall|i: int|
                    0 <= i < sizes@.len() ==> #[trigger] sizes@[i] * args.cq_multiplier
                        <= usize::MAX
                &&& mode_list(args.batch_modes@) == ListReading::List(modes@)
            },
            Err(message) => sweep_refuses(*args, message@),
        },
{
    if args.requests == 0 {
        return Err("requests must be > 0".to_owned());
    }
    if args.repeats == 0 {
        return Err("repeats must be > 0".to_owned());
    }
    if args.cq_multiplier == 0 {
        return Err("cq-multiplier must be > 0".to_owned());
    }
    if args.bbq_block_size == 0 {
        return Err("bbq-block-size must be > 0".to_owned());
    }
    let sizes = match parse_sizes(args.sq_sizes.as_str()) {
        Ok(sizes) => sizes,
        Err(message) => {
            return Err(message);
        },
    };
    let mut i: usize = 0;
    while i < sizes.len()
        invariant
            args.requests > 0,
            args.repeats > 0,
            args.cq_multiplier > 0,
            args.bbq_block_size > 0,
            size_list(args.sq_sizes@) == ListReading::List(sizes@),
            i <= sizes@.len(),
            forall|j: int|
                0 <= j < i ==> #[trigger] sizes@[j] * args.cq_multiplier <= usize::MAX,
        decreases sizes@.len() - i,
    {
        if sizes[i].checked_mul(args.cq_multiplier).is_none() {
            let number = decimal_text(sizes[i] as u128);
            let mut message = "CQ size overflow for SQ size ".to_owned();
            message.append(number.as_str());
            assert(overflows(sizes@, args.cq_multiplier as int, i as int));
            return Err(message);
        }
        i = i + 1;
    }
    match parse_batch_modes(args.batch_modes.as_str()) {
        Ok(modes) => Ok((sizes, modes)),
        Err(message) => Err(message),
    }
}

/// Whether there are cores enough to pin three threads. `cores` says how many
/// there are, if that is known.
pub fn check_pinning(core_offset: usize, cores: Option<usize>) -> (result: Result<(), String>)
    ensures
        match result {
            Ok(_) => cores matches Some(count) && core_offset + 3 <= count,
            Err(message) => match cores {
                None => message@ == "failed to enumerate cores"@,
                Some(count) => if core_offset + 3 > usize::MAX {
                    message@ == "core offset overflow"@
                } else {
                    count < core_offset + 3 && message@ == "--pin needs at least "@ + decimal(
                        (core_offset + 3) as nat,
                    ) + " core(s), but only "@ + decimal(count as nat) + " were discovered"@
                },
            },
        },
{
    let count: usize = match cores {
        Some(count) => count,
        None => {
            return Err("failed to enumerate cores".to_owned());
        },
    };
    if core_offset > usize::MAX - 3 {
        return Err("core offset overflow".to_owned());
    }
    let required: usize = core_offset + 3;
    if count < required {
        let a = decimal_text(required as u128);
        let b = decimal_text(count as u128);
        let mut message = "--pin needs at least ".to_owned();
        message.append(a.as_str());
        message.append(" core(s), but only ");
        message.append(b.as_str());
        message.append(" were discovered");
        return Err(message);
    }
    Ok(())
}

/// A character of a host name as a directory name may hold it.
pub open spec fn host_char(c: char) -> char {
    if 'a' <= c <= 'z' || 'A' <= c <= 'Z' || is_digit(c) || c == '-' || c == '_' {
        c
    } else {
        '-'
    }
}

/// The directory of a run's results: when it ran and where.
pub fn out_dir_name(timestamp: u64, host: &str) -> (name: String)
    ensures
        name@ == decimal(timestamp as nat) + "-"@ + host@.map_values(|c: char| host_char(c)),
{
    let chars = chars_of(host);
    let mut safe = String::new();
    let mut i: usize = 0;
    while i < chars.len()
        invariant
            chars@ == host@,
            i <= chars@.len(),
            safe@.len() == i,
            forall|j: int| 0 <= j < i ==> #[trigger] safe@[j] == host_char(chars@[j]),
        decreases chars@.len() - i,
    {
        let c = chars[i];
        if ('a' <= c && c <= 'z') || ('A' <= c && c <= 'Z') || digit(c) || c == '-' || c == '_' {
            push_char(&mut safe, c);
        } else {
            push_char(&mut safe, '-');
        }
        i = i + 1;
    }
    assert(safe@ =~= host@.map_values(|c: char| host_char(c)));
    let mut name = decimal_text(timestamp as u128);
    name.append("-");
    name.append(safe.as_str());
    name
}

/// The columns of the table of measurements.
pub open spec fn sample_columns() -> Seq<Seq<char>> {
    seq![
        "queue"@,
        "sq_size"@,
        "cq_size"@,
        "batch_mode"@,
        "repeat"@,
        "requests"@,
        "submitted"@,
        "processed"@,
        "completed"@,
        "submit_elapsed_ns"@,
        "total_elapsed_ns"@,
        "submit_ns_per_request"@,
        "total_ns_per_request"@,
        "submit_requests_per_sec"@,
        "total_requests_per_sec"@,
    ]
}

/// The columns of the table of measurements.
pub fn sample_heading() -> (row: Vec<String>)
    ensures
        texts(row@) == sample_columns(),
{
    let mut row: Vec<String> = Vec::new();
    push_word(&mut row, "queue");
    push_word(&mut row, "sq_size");
    push_word(&mut row, "cq_size");
    push_word(&mut row, "batch_mode");
    push_word(&mut row, "repeat");
    push_word(&mut row, "requests");
    push_word(&mut row, "submitted");
    push_word(&mut row, "processed");
    push_word(&mut row, "completed");
    push_word(&mut row, "submit_elapsed_ns");
    push_word(&mut row, "total_elapsed_ns");
    push_word(&mut row, "submit_ns_per_request");
    push_word(&mut row, "total_ns_per_request");
    push_word(&mut row, "submit_requests_per_sec");
    push_word(&mut row, "total_requests_per_sec");
    assert(texts(row@) =~= sample_columns());
    row
}

/// The columns of the table of medians.
pub open spec fn summary_columns() -> Seq<Seq<char>> {
    seq![
        "queue"@,
        "sq_size"@,
        "cq_size"@,
        "batch_mode"@,
        "requests"@,
        "repeats"@,
        "submit_ns_per_request_median"@,
        "total_ns_per_request_median"@,
        "submit_requests_per_sec_median"@,
        "total_requests_per_sec_median"@,
        "submit_speedup_vs_io_uring"@,
        "submit_throughput_speedup_vs_io_uring"@,
    ]
}

/// The columns of the table of medians.
pub fn summary_heading() -> (row: Vec<String>)
    ensures
        texts(row@) == summary_columns(),
{
    let mut row: Vec<String> = Vec::new();
    push_word(&mut row, "queue");
    push_word(&mut row, "sq_size");
    push_word(&mut row, "cq_size");
    push_word(&mut row, "batch_mode");
    push_word(&mut row, "requests");
    push_word(&mut row, "repeats");
    push_word(&mut row, "submit_ns_per_request_median");
    push_word(&mut row, "total_ns_per_request_median");
    push_word(&mut row, "submit_requests_per_sec_median");
    push_word(&mut row, "total_requests_per_sec_median");
    push_word(&mut row, "submit_speedup_vs_io_uring");
    push_word(&mut row, "submit_throughput_speedup_vs_io_uring");
    assert(texts(row@) =~= summary_columns());
    row
}

/// What is said of a run before it starts.
pub open spec fn run_text(
    queue: Seq<char>,
    sq_size: usize,
    cq_size: usize,
    batch: Seq<char>,
    repeat: usize,
    repeats: usize,
) -> Seq<char> {
    "running queue="@ + queue + " sq="@ + decimal(sq_size as nat) + " cq="@ + decimal(
        cq_size as nat,
    ) + " batch="@ + batch + " repeat="@ + decimal(repeat as nat) + "/"@ + decimal(repeats as nat)
}

/// What is said of a run before it starts.
pub fn run_line(
    queue: &str,
    sq_size: usize,
    cq_size: usize,
    batch_mode: BatchMode,
    repeat: usize,
    repeats: usize,
) -> (line: String)
    ensures
        line@ == run_text(queue@, sq_size, cq_size, batch_mode.title(), repeat, repeats),
{
    let mut line = "running queue=".to_owned();
    line.append(queue);
    line.append(" sq=");
    line.append(decimal_text(sq_size as u128).as_str());
    line.append(" cq=");
    line.append(decimal_text(cq_size as u128).as_str());
    line.append(" batch=");
    line.append(batch_mode.name());
    line.append(" repeat=");
    line.append(decimal_text(repeat as u128).as_str());
    line.append("/");
    line.append(decimal_text(repeats as u128).as_str());
    line
}

/// The names of the queues and of the batch modes, in any case and with white
/// space around them; no other token is one.
pub proof fn law_the_names_of_queues_and_modes(token: Seq<char>)
    ensures
        queue_named(token) == Some(QueueKind::IoUring) <==> seq![
            "io-uring"@,
            "io_uring"@,
            "uring"@,
            "linux"@,
        ].contains(folded(token)),
        queue_named(token) == Some(QueueKind::Bbq) <==> seq![
            "bbq"@,
            "rbbq"@,
            "fastfifo"@,
            "fast-fifo"@,
        ].contains(folded(token)),
        queue_named(token) == Some(QueueKind::Ubq) <==> folded(token) == "ubq"@,
        mode_named(token) == Some(BatchMode::Fixed1) <==> seq![
            "fixed1"@,
            "fixed-1"@,
            "1"@,
            "single"@,
        ].contains(folded(token)),
        mode_named(token) == Some(BatchMode::Random1To32) <==> seq![
            "random1to32"@,
            "random-1-to-32"@,
            "random"@,
            "rand"@,
            "1..32"@,
            "1-32"@,
        ].contains(folded(token)),
{
    let name = folded(token);
    reveal_strlit("io-uring");
    reveal_strlit("io_uring");
    reveal_strlit("uring");
    reveal_strlit("linux");
    reveal_strlit("bbq");
    reveal_strlit("rbbq");
    reveal_strlit("fastfifo");
    reveal_strlit("fast-fifo");
    reveal_strlit("ubq");
    reveal_strlit("fixed1");
    reveal_strlit("fixed-1");
    reveal_strlit("1");
    reveal_strlit("single");
    reveal_strlit("random1to32");
    reveal_strlit("random-1-to-32");
    reveal_strlit("random");
    reveal_strlit("rand");
    reveal_strlit("1..32");
    reveal_strlit("1-32");
    let a = seq!["io-uring"@, "io_uring"@, "uring"@, "linux"@];
    assert(a[0] == "io-uring"@ && a[1] == "io_uring"@ && a[2] == "uring"@ && a[3] == "linux"@);
    let b = seq!["bbq"@, "rbbq"@, "fastfifo"@, "fast-fifo"@];
    assert(b[0] == "bbq"@ && b[1] == "rbbq"@ && b[2] == "fastfifo"@ && b[3] == "fast-fifo"@);
    let c = seq!["fixed1"@, "fixed-1"@, "1"@, "single"@];
    assert(c[0] == "fixed1"@ && c[1] == "fixed-1"@ && c[2] == "1"@ && c[3] == "single"@);
    let d = seq!["random1to32"@, "random-1-to-32"@, "random"@, "rand"@, "1..32"@, "1-32"@];
    assert(d[0] == "random1to32"@ && d[1] == "random-1-to-32"@ && d[2] == "random"@ && d[3]
        == "rand"@ && d[4] == "1..32"@ && d[5] == "1-32"@);
    assert("io-uring"@[0] == 'i' && "io_uring"@[0] == 'i' && "uring"@.len() == 5 && "linux"@[0]
        == 'l');
    assert("bbq"@[0] == 'b' && "rbbq"@[0] == 'r' && "fastfifo"@[0] == 'f' && "fast-fifo"@[0]
        == 'f' && "ubq"@.len() == 3 && "ubq"@[0] == 'u');
    assert("fixed1"@[0] == 'f' && "fixed-1"@[0] == 'f' && "1"@.len() == 1 && "single"@[0] == 's');
    assert("random1to32"@[0] == 'r' && "random-1-to-32"@[0] == 'r' && "random"@[0] == 'r'
        && "rand"@[0] == 'r' && "1..32"@.len() == 5 && "1-32"@.len() == 4);
}

/// A list is refused exactly if some part that is not blank has no value. Else it
/// holds the values of its parts, each once, where it occurs first.
pub proof fn law_a_list_holds_the_values_of_its_parts<T>(
    tokens: Seq<Seq<char>>,
    value: spec_fn(Seq<char>) -> Option<T>,
    refusal: spec_fn(Seq<char>) -> Seq<char>,
)
    ensures
        read_list(tokens, value, refusal) is List <==> forall|i: int|
            0 <= i < tokens.len() && trimmed(#[trigger] tokens[i]).len() > 0 ==> value(tokens[i])
                is Some,
        read_list(tokens, value, refusal) matches ListReading::List(list) ==> {
            &&& list.no_duplicates()
            &&& forall|x: T| #[trigger]
                list.contains(x) <==> exists|i: int|
                    0 <= i < tokens.len() && trimmed(#[trigger] tokens[i]).len() > 0 && value(
                        tokens[i],
                    ) == Some(x)
        },
    decreases tokens.len(),
{
    if tokens.len() > 0 {
        let rest = tokens.drop_last();
        let n = tokens.len() - 1;
        law_a_list_holds_the_values_of_its_parts(rest, value, refusal);
        assert(tokens.last() == tokens[n]);
        assert forall|i: int| 0 <= i < n implies #[trigger] rest[i] == tokens[i] by {}
        if forall|i: int|
            0 <= i < tokens.len() && trimmed(#[trigger] tokens[i]).len() > 0 ==> value(tokens[i])
                is Some {
            assert forall|i: int|
                0 <= i < rest.len() && trimmed(#[trigger] rest[i]).len() > 0 implies value(rest[i])
                is Some by {
                assert(rest[i] == tokens[i]);
            }
        }
        if read_list(tokens, value, refusal) is List {
            let list = read_list(tokens, value, refusal)->List_0;
            let before = read_list(rest, value, refusal)->List_0;
            assert forall|i: int|
                0 <= i < tokens.len() && trimmed(#[trigger] tokens[i]).len() > 0 implies value(
                tokens[i],
            ) is Some by {
                if i < n {
                    assert(rest[i] == tokens[i]);
                }
            }
            assert forall|x: T| #[trigger] list.contains(x) <==> exists|i: int|
                0 <= i < tokens.len() && trimmed(#[trigger] tokens[i]).len() > 0 && value(tokens[i])
                    == Some(x) by {
                if before.contains(x) {
                    let i = choose|i: int|
                        0 <= i < rest.len() && trimmed(#[trigger] rest[i]).len() > 0 && value(
                            rest[i],
                        ) == Some(x);
                    assert(rest[i] == tokens[i]);
                    let k = before.index_of(x);
                    assert(list[k] == x);
                }
                if trimmed(tokens[n]).len() > 0 && value(tokens[n]) == Some(x) && !before.contains(
                    x,
                ) {
                    assert(list[before.len() as int] == x);
                }
                if list.contains(x) && !before.contains(x) {
                    let k = list.index_of(x);
                    if k < before.len() {
                        assert(before[k] == x);
                    }
                }
                if exists|i: int|
                    0 <= i < tokens.len() && trimmed(#[trigger] tokens[i]).len() > 0 && value(
                        tokens[i],
                    ) == Some(x) {
                    let i = choose|i: int|
                        0 <= i < tokens.len() && trimmed(#[trigger] tokens[i]).len() > 0 && value(
                            tokens[i],
                        ) == Some(x);
                    if i < n {
                        assert(rest[i] == tokens[i]);
                        assert(before.contains(x));
                    }
                }
            }
        }
    }
}

/// A size is a number in decimal notation that is more than zero.
pub proof fn law_a_size_is_a_number_above_zero(n: nat)
    requires
        n <= usize::MAX,
    ensures
        n > 0 ==> size_of_token(decimal(n)) == Some(n as usize),
        n == 0 ==> size_of_token(decimal(n)) is None,
{
    crate::text::lemma_decimal(n);
    let digits = decimal(n);
    assert forall|i: int| 0 <= i < digits.len() implies !('A' <= #[trigger] digits[i] <= 'Z') by {
        assert(is_digit(digits[i]));
    }
    assert(is_digit(digits[0]) && is_digit(digits[digits.len() - 1]));
    crate::text::lemma_plain_text(digits);
    crate::text::law_decimal_round_trip(n, usize::MAX as nat);
}

/// A field of a table without commas, quotes and line ends stands as it is. Any
/// other stands between quotes, each quote in it doubled.
pub proof fn law_fields_of_tables(value: Seq<char>)
    ensures
        !value.contains(',') && !value.contains('"') && !value.contains('\n') ==> csv(value) == value,
        value.contains(',') || value.contains('"') || value.contains('\n') ==> csv(value) == seq![
            '"',
        ] + replaced(value, '"', seq!['"', '"']) + seq!['"'],
{
    reveal_strlit("\"");
    reveal_strlit("\"\"");
    assert("\""@ =~= seq!['"']);
    assert("\"\""@ =~= seq!['"', '"']);
}

/// Each value of a measurement stands under the heading of its column, and so does
/// each value of a summary.
pub proof fn law_values_stand_under_their_headings(
    sample: Sample,
    quotients: Seq<Seq<char>>,
    key: SummaryParts,
    requests: int,
    repeats: int,
    i: int,
)
    requires
        0 <= i < sample_columns().len(),
    ensures
        sample_fields(sample, quotients).len() == 11 + quotients.len(),
        i < 11 ==> {
            let heading = sample_columns()[i];
            let value = sample_fields(sample, quotients)[i];
            &&& heading == "queue"@ ==> value == sample.queue@
            &&& heading == "sq_size"@ ==> value == decimal(sample.sq_size as nat)
            &&& heading == "cq_size"@ ==> value == decimal(sample.cq_size as nat)
            &&& heading == "batch_mode"@ ==> value == sample.batch_mode.title()
            &&& heading == "repeat"@ ==> value == decimal(sample.repeat as nat)
            &&& heading == "requests"@ ==> value == decimal(sample.requests as nat)
            &&& heading == "submitted"@ ==> value == decimal(sample.submitted as nat)
            &&& heading == "processed"@ ==> value == decimal(sample.processed as nat)
            &&& heading == "completed"@ ==> value == decimal(sample.completed as nat)
            &&& heading == "submit_elapsed_ns"@ ==> value == decimal(
                sample.submit_elapsed_ns as nat,
            )
            &&& heading == "total_elapsed_ns"@ ==> value == decimal(sample.total_elapsed_ns as nat)
        },
        sample_columns().take(11) == seq![
            "queue"@,
            "sq_size"@,
            "cq_size"@,
            "batch_mode"@,
            "repeat"@,
            "requests"@,
            "submitted"@,
            "processed"@,
            "completed"@,
            "submit_elapsed_ns"@,
            "total_elapsed_ns"@,
        ],
        summary_columns().take(6) == seq![
            "queue"@,
            "sq_size"@,
            "cq_size"@,
            "batch_mode"@,
            "requests"@,
            "repeats"@,
        ],
        summary_fields(key, requests, repeats, quotients).take(6) == seq![
            key.queue,
            decimal(key.sq_size as nat),
            decimal(key.cq_size as nat),
            key.batch_mode.title(),
            decimal(requests as nat),
            decimal(repeats as nat),
        ],
        summary_fields(key, requests, repeats, quotients).skip(6) == quotients,
        sample_fields(sample, quotients).skip(11) == quotients,
{
    reveal_strlit("queue");
    reveal_strlit("sq_size");
    reveal_strlit("cq_size");
    reveal_strlit("batch_mode");
    reveal_strlit("repeat");
    reveal_strlit("requests");
    reveal_strlit("submitted");
    reveal_strlit("processed");
    reveal_strlit("completed");
    reveal_strlit("submit_elapsed_ns");
    reveal_strlit("total_elapsed_ns");
    assert("queue"@.len() == 5 && "sq_size"@.len() == 7 && "cq_size"@.len() == 7);
    assert("sq_size"@[0] == 's' && "cq_size"@[0] == 'c' && "batch_mode"@.len() == 10);
    assert("repeat"@.len() == 6 && "requests"@.len() == 8);
    assert("submitted"@.len() == 9 && "processed"@.len() == 9 && "completed"@.len() == 9);
    assert("submitted"@[0] == 's' && "processed"@[0] == 'p' && "completed"@[0] == 'c');
    assert("submit_elapsed_ns"@.len() == 17 && "total_elapsed_ns"@.len() == 16);
    assert(sample_columns().take(11) =~= seq![
        "queue"@,
        "sq_size"@,
        "cq_size"@,
        "batch_mode"@,
        "repeat"@,
        "requests"@,
        "submitted"@,
        "processed"@,
        "completed"@,
        "submit_elapsed_ns"@,
        "total_elapsed_ns"@,
    ]);
    assert(summary_columns().take(6) =~= seq![
        "queue"@,
        "sq_size"@,
        "cq_size"@,
        "batch_mode"@,
        "requests"@,
        "repeats"@,
    ]);
    assert(summary_fields(key, requests, repeats, quotients).take(6) =~= seq![
        key.queue,
        decimal(key.sq_size as nat),
        decimal(key.cq_size as nat),
        key.batch_mode.title(),
        decimal(requests as nat),
        decimal(repeats as nat),
    ]);
    assert(summary_fields(key, requests, repeats, quotients).skip(6) =~= quotients);
    assert(sample_fields(sample, quotients).skip(11) =~= quotients);
}

/// A measurement is in the group of its queue, sizes and mode, and in no other.
pub proof fn law_a_measurement_is_summarized_once(samples: Seq<Sample>, key: SummaryParts, i: int)
    requires
        samples.len() <= usize::MAX,
        0 <= i < samples.len(),
    ensures
        with_key(samples, key).contains(i as usize) <==> {
            &&& samples[i].queue@ == key.queue
            &&& samples[i].sq_size == key.sq_size
            &&& samples[i].cq_size == key.cq_size
            &&& samples[i].batch_mode == key.batch_mode
        },
    decreases samples.len(),
{
    let rest = samples.drop_last();
    let all = with_key(samples, key);
    let before = with_key(rest, key);
    let last = (samples.len() - 1) as usize;
    lemma_with_key_below(rest, key);
    if i < rest.len() {
        law_a_measurement_is_summarized_once(rest, key, i);
        assert(rest[i] == samples[i]);
        if before.contains(i as usize) {
            let k = before.index_of(i as usize);
            assert(all[k] == i as usize);
        }
        if all.contains(i as usize) {
            let k = all.index_of(i as usize);
            assert(k < before.len());
            assert(before[k] == i as usize);
        }
    } else {
        if all.contains(i as usize) {
            let k = all.index_of(i as usize);
            if k < before.len() {
                assert(before[k] == all[k]);
            }
        }
        if summary_key(samples.last()) == key {
            assert(all[before.len() as int] == last);
        }
    }
}

proof fn lemma_with_key_below(samples: Seq<Sample>, key: SummaryParts)
    requires
        samples.len() <= usize::MAX,
    ensures
        forall|k: int|
            0 <= k < with_key(samples, key).len() ==> (#[trigger] with_key(samples, key)[k])
                < samples.len(),
    decreases samples.len(),
{
    if samples.len() > 0 {
        let rest = samples.drop_last();
        lemma_with_key_below(rest, key);
        let all = with_key(samples, key);
        let before = with_key(rest, key);
        assert forall|k: int| 0 <= k < all.len() implies (#[trigger] all[k]) < samples.len() by {
            if k < before.len() {
                assert(all[k] == before[k]);
            }
        }
    }
}

/// The label of a queue is read back from its notation: the one preset that can be
/// bounded, and a pool, a block length and a backoff of those listed.
pub proof fn law_a_bounded_label_is_read_back(pool: u8, block: u16, backoff: Seq<char>)
    requires
        seq![0u8, 1, 2, 4, 8, 16, 32, 64].contains(pool),
        seq![31u16, 63, 127, 255, 511, 1023, 2047, 4095].contains(block),
        seq!["crossbeam"@, "yield"@].contains(backoff),
    ensures
        bounded_label(
            joined(
                seq!["balanced"@, decimal(pool as nat), decimal(block as nat), backoff],
                seq![','],
            ),
        ) == Some((pool as nat, block as nat, backoff)),
{
    let a = "balanced"@;
    let b = decimal(pool as nat);
    let c = decimal(block as nat);
    let parts = seq![a, b, c, backoff];
    let text = joined(parts, seq![',']);
    reveal_strlit("balanced");
    reveal_strlit("crossbeam");
    reveal_strlit("yield");
    let k = seq!["crossbeam"@, "yield"@].index_of(backoff);
    assert(backoff == seq!["crossbeam"@, "yield"@][k]);
    assert(seq!["crossbeam"@, "yield"@] =~= backoffs());
    assert(seq![0u8, 1, 2, 4, 8, 16, 32, 64] =~= all_pools());
    assert(seq![31u16, 63, 127, 255, 511, 1023, 2047, 4095] =~= blocks());
    crate::text::lemma_decimal(pool as nat);
    crate::text::lemma_decimal(block as nat);
    assert forall|i: int| 0 <= i < parts.len() implies {
        &&& (#[trigger] parts[i]).len() > 0
        &&& trimmed(parts[i]) == parts[i]
        &&& !parts[i].contains(',')
        &&& forall|j: int|
            0 <= j < parts[i].len() ==> ('a' <= #[trigger] parts[i][j] <= 'z') || ('0'
                <= parts[i][j] <= '9')
    } by {
        let part = parts[i];
        assert forall|j: int| 0 <= j < part.len() implies ('a' <= #[trigger] part[j] <= 'z') || ('0'
            <= part[j] <= '9') by {
            if i == 1 {
                assert(is_digit(b[j]));
            } else if i == 2 {
                assert(is_digit(c[j]));
            }
        }
        assert(('a' <= part[0] <= 'z') || ('0' <= part[0] <= '9'));
        let last = part[part.len() - 1];
        assert(('a' <= last <= 'z') || ('0' <= last <= '9'));
        crate::text::lemma_plain_text(part);
        if part.contains(',') {
            let j = part.index_of(',');
            assert(part[j] == ',');
        }
    }
    reveal_with_fuel(joined, 5);
    assert(parts.drop_last() =~= seq![a, b, c]);
    assert(seq![a, b, c].drop_last() =~= seq![a, b]);
    assert(seq![a, b].drop_last() =~= seq![a]);
    let comma = seq![','];
    assert(text == a + comma + b + comma + c + comma + backoff);
    let x = a.len() as int;
    let y = x + 1 + b.len();
    let z = y + 1 + c.len();
    assert forall|i: int| 0 <= i < text.len() implies !('A' <= #[trigger] text[i] <= 'Z') by {
        if i < x {
            assert(text[i] == parts[0][i]);
        } else if x < i < y {
            assert(text[i] == parts[1][i - x - 1]);
        } else if y < i < z {
            assert(text[i] == parts[2][i - y - 1]);
        } else if z < i {
            assert(text[i] == parts[3][i - z - 1]);
        }
    }
    assert(text[0] == parts[0][0]);
    assert(text.last() == parts[3][backoff.len() - 1]);
    crate::text::lemma_plain_text(text);
    crate::tooling::search::law_list_items_are_read_back(parts);
    crate::text::law_decimal_round_trip(pool as nat, usize::MAX as nat);
    crate::text::law_decimal_round_trip(block as nat, u16::MAX as nat);
}

} // verus!
