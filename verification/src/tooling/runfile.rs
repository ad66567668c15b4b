//! What is taken from the file of a recorded run.
use vstd::prelude::*;

use crate::text::same;
use crate::tooling::complete::maybe;
use crate::tooling::runs::{
    filed, key_views, sample_key, KeyParts, RunMeta, RunRecord, SampleKey,
};

verus! {

/// A value of a run file. A number is given by the bits of its floating-point
/// form, if it has one.
pub enum RunValue {
    Text(String),
    Number(Option<u64>),
    List(Vec<RunValue>),
    Table(Vec<RunEntry>),
    Other,
}

/// A key of a table with its value.
pub struct RunEntry {
    pub key: String,
    pub value: RunValue,
}

/// The contents of a run file.
pub enum RunParts {
    Text(Seq<char>),
    Number(Option<u64>),
    List(Seq<RunParts>),
    Table(Seq<(Seq<char>, RunParts)>),
    Other,
}

/// The contents of a value.
pub open spec fn run_parts(value: RunValue) -> RunParts
    decreases value,
{
    match value {
        RunValue::Text(text) => RunParts::Text(text@),
        RunValue::Number(bits) => RunParts::Number(bits),
        RunValue::List(items) => RunParts::List(
            Seq::new(
                items@.len(),
                |i: int|
                    if 0 <= i < items@.len() {
                        run_parts(items@[i])
                    } else {
                        arbitrary()
                    },
            ),
        ),
        RunValue::Table(entries) => RunParts::Table(
            Seq::new(
                entries@.len(),
                |i: int|
                    if 0 <= i < entries@.len() {
                        (entries@[i].key@, run_parts(entries@[i].value))
                    } else {
                        arbitrary()
                    },
            ),
        ),
        RunValue::Other => RunParts::Other,
    }
}

/// `serde_json::Value`, a parsed text or a part of one.
#[verifier::external_type_specification]
#[verifier::external_body]
pub struct ExJsonValue(serde_json::Value);

/// What `serde_json::from_str` makes of a text, unless it refuses it.
pub uninterp spec fn json_parts(raw: Seq<char>) -> Option<RunParts>;

/// A `serde_json::Value` with its texts, numbers, arrays and objects kept, and
/// everything else as `Other`. The keys of an object come in its order.
#[verifier::external_body]
fn run_value(value: serde_json::Value) -> RunValue {
    match value {
        serde_json::Value::String(text) => RunValue::Text(text),
        serde_json::Value::Number(number) => RunValue::Number(
            number.as_f64().map(|float| float.to_bits()),
        ),
        serde_json::Value::Array(items) => RunValue::List(
            items.into_iter().map(run_value).collect(),
        ),
        serde_json::Value::Object(map) => RunValue::Table(
            map.into_iter().map(|(key, value)| RunEntry { key, value: run_value(value) }).collect(),
        ),
        _ => RunValue::Other,
    }
}

/// `serde_json::from_str` for a `serde_json::Value`. Which texts are JSON, and
/// what they hold, is a function of the text alone.
#[verifier::external_body]
fn parse_json(raw: &str) -> (run: Option<RunValue>)
    ensures
        match run {
            Some(value) => json_parts(raw@) == Some(run_parts(value)),
            None => json_parts(raw@) is None,
        },
{
    serde_json::from_str::<serde_json::Value>(raw).ok().map(run_value)
}

/// The value of the first of some entries with a key.
pub open spec fn first_value(entries: Seq<(Seq<char>, RunParts)>, key: Seq<char>) -> Option<
    RunParts,
>
    decreases entries.len(),
{
    if entries.len() == 0 {
        None
    } else if entries[0].0 == key {
        Some(entries[0].1)
    } else {
        first_value(entries.drop_first(), key)
    }
}

/// The value that a table has for a key.
pub open spec fn member(value: Option<RunParts>, key: Seq<char>) -> Option<RunParts> {
    match value {
        Some(RunParts::Table(entries)) => first_value(entries, key),
        _ => None,
    }
}

/// The text that a value is, if it is one.
pub open spec fn text_of(value: Option<RunParts>) -> Option<Seq<char>> {
    match value {
        Some(RunParts::Text(text)) => Some(text),
        _ => None,
    }
}

/// The bits of the number that a value is, if it is one.
pub open spec fn number_of(value: Option<RunParts>) -> Option<u64> {
    match value {
        Some(RunParts::Number(bits)) => bits,
        _ => None,
    }
}

/// The items of the list that a value is; none if it is no list.
pub open spec fn items_of(value: Option<RunParts>) -> Seq<RunParts> {
    match value {
        Some(RunParts::List(items)) => items,
        _ => Seq::empty(),
    }
}

/// What a run says about itself.
pub open spec fn meta_is(meta: RunMeta, run: RunParts) -> bool {
    let said = member(Some(run), "meta"@);
    &&& maybe(meta.ubq_label) == text_of(member(said, "ubq_label"@))
    &&& maybe(meta.machine_label) == text_of(member(said, "machine_label"@))
}

/// What a result of a run holds.
pub open spec fn record_is(record: RunRecord, result: RunParts) -> bool {
    let result = Some(result);
    &&& maybe(record.skipped_reason) == text_of(member(result, "skipped_reason"@))
    &&& record.ops_per_sec == number_of(member(result, "ops_per_sec"@))
    &&& maybe(record.queue) == text_of(member(result, "queue"@))
    &&& maybe(record.scenario) == text_of(member(result, "scenario"@))
    &&& maybe(record.mode) == text_of(member(result, "mode"@))
}

/// The contents of a value that may be missing.
pub open spec fn maybe_parts(value: Option<&RunValue>) -> Option<RunParts> {
    match value {
        Some(value) => Some(run_parts(*value)),
        None => None,
    }
}

fn get<'a>(value: Option<&'a RunValue>, key: &str) -> (found: Option<&'a RunValue>)
    ensures
        maybe_parts(found) == member(maybe_parts(value), key@),
{
    if let Some(table) = value {
        if let RunValue::Table(entries) = table {
            let ghost parts = run_parts(*table)->Table_0;
            let mut i: usize = 0;
            assert(parts.skip(0) =~= parts);
            while i < entries.len()
                invariant
                    maybe_parts(value) == Some(run_parts(*table)),
                    *table == RunValue::Table(*entries),
                    parts == run_parts(*table)->Table_0,
                    parts.len() == entries@.len(),
                    i <= entries@.len(),
                    first_value(parts, key@) == first_value(parts.skip(i as int), key@),
                decreases entries@.len() - i,
            {
                proof {
                    let rest = parts.skip(i as int);
                    assert(rest[0] == (entries@[i as int].key@, run_parts(
                        entries@[i as int].value,
                    )));
                    assert(rest.drop_first() =~= parts.skip(i + 1));
                }
                if same(entries[i].key.as_str(), key) {
                    return Some(&entries[i].value);
                }
                i = i + 1;
            }
            assert(parts.skip(i as int) =~= Seq::empty());
        }
    }
    None
}

fn text(value: Option<&RunValue>) -> (found: Option<String>)
    ensures
        maybe(found) == text_of(maybe_parts(value)),
{
    if let Some(RunValue::Text(text)) = value {
        return Some(text.clone());
    }
    None
}

fn number(value: Option<&RunValue>) -> (found: Option<u64>)
    ensures
        found == number_of(maybe_parts(value)),
{
    if let Some(RunValue::Number(bits)) = value {
        return *bits;
    }
    None
}

/// What a run says about itself.
pub fn meta_of(run: &RunValue) -> (meta: RunMeta)
    ensures
        meta_is(meta, run_parts(*run)),
{
    let said = get(Some(run), "meta");
    RunMeta {
        ubq_label: text(get(said, "ubq_label")),
        machine_label: text(get(said, "machine_label")),
    }
}

/// What a result of a run holds.
pub fn record_of(result: &RunValue) -> (record: RunRecord)
    ensures
        record_is(record, run_parts(*result)),
{
    let result = Some(result);
    RunRecord {
        skipped_reason: text(get(result, "skipped_reason")),
        ops_per_sec: number(get(result, "ops_per_sec")),
        queue: text(get(result, "queue")),
        scenario: text(get(result, "scenario")),
        mode: text(get(result, "mode")),
    }
}

/// The results of a run.
pub open spec fn results_of(run: RunParts) -> Seq<RunParts> {
    items_of(member(Some(run), "results"@))
}

/// What a run file holds: what the run says about itself, and its results.
pub open spec fn run_is(meta: RunMeta, records: Seq<RunRecord>, run: RunParts) -> bool {
    &&& meta_is(meta, run)
    &&& records.len() == results_of(run).len()
    &&& forall|i: int|
        0 <= i < records.len() ==> record_is(#[trigger] records[i], results_of(run)[i])
}

/// Takes a run apart.
pub fn run_of(run: &RunValue) -> (taken: (RunMeta, Vec<RunRecord>))
    ensures
        run_is(taken.0, taken.1@, run_parts(*run)),
{
    let meta = meta_of(run);
    let mut records: Vec<RunRecord> = Vec::new();
    let results = get(Some(run), "results");
    if let Some(list) = results {
        if let RunValue::List(items) = list {
            let ghost parts = run_parts(*list)->List_0;
            let mut i: usize = 0;
            while i < items.len()
                invariant
                    *list == RunValue::List(*items),
                    parts == run_parts(*list)->List_0,
                    parts.len() == items@.len(),
                    i <= items@.len(),
                    records@.len() == i,
                    forall|k: int| 0 <= k < i ==> record_is(#[trigger] records@[k], parts[k]),
                decreases items@.len() - i,
            {
                assert(parts[i as int] == run_parts(items@[i as int]));
                records.push(record_of(&items[i]));
                i = i + 1;
            }
        }
    }
    (meta, records)
}

/// Reads the text of a run file; nothing if it is not JSON.
pub fn read_run(raw: &str) -> (run: Option<(RunMeta, Vec<RunRecord>)>)
    ensures
        match run {
            Some((meta, records)) => {
                &&& json_parts(raw@) is Some
                &&& run_is(meta, records@, json_parts(raw@)->0)
            },
            None => json_parts(raw@) is None,
        },
{
    match parse_json(raw) {
        Some(value) => Some(run_of(&value)),
        None => None,
    }
}

/// Where the results of some runs are filed, one after the other.
pub open spec fn all_keys(runs: Seq<(RunMeta, Vec<RunRecord>)>) -> Seq<Option<KeyParts>>
    decreases runs.len(),
{
    if runs.len() == 0 {
        Seq::empty()
    } else {
        let (meta, records) = runs.last();
        all_keys(runs.drop_last()) + records@.map_values(|record: RunRecord| filed(meta, record))
    }
}

/// The throughputs of the results of some runs, one after the other.
pub open spec fn all_ops(runs: Seq<(RunMeta, Vec<RunRecord>)>) -> Seq<Option<u64>>
    decreases runs.len(),
{
    if runs.len() == 0 {
        Seq::empty()
    } else {
        all_ops(runs.drop_last()) + runs.last().1@.map_values(
            |record: RunRecord| record.ops_per_sec,
        )
    }
}

/// The results of some runs: where each is filed, and its throughput.
pub struct Samples {
    pub keys: Vec<Option<SampleKey>>,
    pub ops: Vec<Option<u64>>,
}

/// Collects the results of some runs.
pub fn samples_of(runs: &Vec<(RunMeta, Vec<RunRecord>)>) -> (samples: Samples)
    ensures
        key_views(samples.keys@) == all_keys(runs@),
        samples.ops@ == all_ops(runs@),
{
    let mut keys: Vec<Option<SampleKey>> = Vec::new();
    let mut ops: Vec<Option<u64>> = Vec::new();
    let mut i: usize = 0;
    assert(runs@.take(0) =~= Seq::<(RunMeta, Vec<RunRecord>)>::empty());
    assert(key_views(keys@) =~= Seq::<Option<KeyParts>>::empty());
    while i < runs.len()
        invariant
            i <= runs@.len(),
            key_views(keys@) == all_keys(runs@.take(i as int)),
            ops@ == all_ops(runs@.take(i as int)),
        decreases runs@.len() - i,
    {
        let meta = &runs[i].0;
        let records = &runs[i].1;
        let ghost first = key_views(keys@);
        let ghost numbers = ops@;
        let ghost places = records@.map_values(|record: RunRecord| filed(*meta, record));
        let ghost found = records@.map_values(|record: RunRecord| record.ops_per_sec);
        let mut k: usize = 0;
        assert(first + places.take(0) =~= first);
        assert(numbers + found.take(0) =~= numbers);
        while k < records.len()
            invariant
                places == records@.map_values(|record: RunRecord| filed(*meta, record)),
                found == records@.map_values(|record: RunRecord| record.ops_per_sec),
                k <= records@.len(),
                key_views(keys@) == first + places.take(k as int),
                ops@ == numbers + found.take(k as int),
            decreases records@.len() - k,
        {
            let record = &records[k];
            let key = sample_key(meta, record);
            let ghost earlier = keys@;
            keys.push(key);
            ops.push(record.ops_per_sec);
            proof {
                assert(places.take(k + 1) =~= places.take(k as int).push(filed(*meta, *record)));
                assert(key_views(earlier.push(key)) =~= key_views(earlier).push(
                    filed(*meta, *record),
                ));
                assert(key_views(keys@) =~= first + places.take(k + 1));
                assert(ops@ =~= numbers + found.take(k + 1));
            }
            k = k + 1;
        }
        proof {
            assert(places.take(k as int) =~= places);
            assert(found.take(k as int) =~= found);
            assert(runs@.take(i + 1).drop_last() =~= runs@.take(i as int));
            assert(runs@.take(i + 1).last() == runs@[i as int]);
        }
        i = i + 1;
    }
    assert(runs@.take(i as int) =~= runs@);
    Samples { keys, ops }
}

/// The value of a key is that of the first entry with it, and there is none
/// without such an entry.
pub proof fn law_first_value(entries: Seq<(Seq<char>, RunParts)>, key: Seq<char>, i: int)
    requires
        0 <= i <= entries.len(),
        forall|j: int| 0 <= j < i ==> (#[trigger] entries[j]).0 != key,
        i < entries.len() ==> entries[i].0 == key,
    ensures
        first_value(entries, key) == (if i < entries.len() {
            Some(entries[i].1)
        } else {
            None
        }),
    decreases i,
{
    if i > 0 {
        let rest = entries.drop_first();
        assert(entries[0].0 != key);
        assert forall|j: int| 0 <= j < i - 1 implies (#[trigger] rest[j]).0 != key by {
            assert(rest[j] == entries[j + 1]);
        }
        law_first_value(rest, key, i - 1);
    }
}

/// A run is about the machine and the label that the table under `meta` names as
/// texts.
pub proof fn law_a_run_names_its_machine_and_label(
    meta: RunMeta,
    entries: Seq<(Seq<char>, RunParts)>,
    i: int,
    said: Seq<(Seq<char>, RunParts)>,
    j: int,
    text: Seq<char>,
)
    requires
        meta_is(meta, RunParts::Table(entries)),
        0 <= i < entries.len(),
        entries[i] == ("meta"@, RunParts::Table(said)),
        forall|m: int| 0 <= m < i ==> (#[trigger] entries[m]).0 != "meta"@,
        0 <= j < said.len(),
        said[j].1 == RunParts::Text(text),
        forall|m: int| 0 <= m < j ==> (#[trigger] said[m]).0 != said[j].0,
    ensures
        said[j].0 == "machine_label"@ ==> meta.machine_label is Some && meta.machine_label->0@
            == text,
        said[j].0 == "ubq_label"@ ==> meta.ubq_label is Some && meta.ubq_label->0@ == text,
{
    law_first_value(entries, "meta"@, i);
    law_first_value(said, said[j].0, j);
}

/// A result holds what its table has under the names of the fields.
pub proof fn law_a_result_holds_its_fields(
    record: RunRecord,
    entries: Seq<(Seq<char>, RunParts)>,
    i: int,
    text: Seq<char>,
    bits: u64,
)
    requires
        record_is(record, RunParts::Table(entries)),
        0 <= i < entries.len(),
        forall|m: int| 0 <= m < i ==> (#[trigger] entries[m]).0 != entries[i].0,
    ensures
        entries[i] == ("queue"@, RunParts::Text(text)) ==> record.queue is Some
            && record.queue->0@ == text,
        entries[i] == ("scenario"@, RunParts::Text(text)) ==> record.scenario is Some
            && record.scenario->0@ == text,
        entries[i] == ("mode"@, RunParts::Text(text)) ==> record.mode is Some && record.mode->0@
            == text,
        entries[i] == ("skipped_reason"@, RunParts::Text(text)) ==> record.skipped_reason is Some
            && record.skipped_reason->0@ == text,
        entries[i] == ("ops_per_sec"@, RunParts::Number(Some(bits))) ==> record.ops_per_sec == Some(
            bits,
        ),
{
    law_first_value(entries, entries[i].0, i);
}

/// Every result of every run is filed with its own throughput, by what it and its
/// run name. `n` is its number among all of them.
pub proof fn law_every_result_is_collected(runs: Seq<(RunMeta, Vec<RunRecord>)>, i: int, k: int) -> (n:
    int)
    requires
        0 <= i < runs.len(),
        0 <= k < runs[i].1@.len(),
    ensures
        0 <= n < all_keys(runs).len(),
        all_keys(runs).len() == all_ops(runs).len(),
        all_keys(runs)[n] == filed(runs[i].0, runs[i].1@[k]),
        all_ops(runs)[n] == runs[i].1@[k].ops_per_sec,
    decreases runs.len(),
{
    let rest = runs.drop_last();
    lemma_as_many_ops(rest);
    lemma_as_many_ops(runs);
    if i < rest.len() {
        assert(rest[i] == runs[i]);
        law_every_result_is_collected(rest, i, k)
    } else {
        all_keys(rest).len() as int + k
    }
}

proof fn lemma_as_many_ops(runs: Seq<(RunMeta, Vec<RunRecord>)>)
    ensures
        all_keys(runs).len() == all_ops(runs).len(),
    decreases runs.len(),
{
    if runs.len() > 0 {
        lemma_as_many_ops(runs.drop_last());
    }
}

/// Nothing else is collected.
pub proof fn law_only_results_are_collected(runs: Seq<(RunMeta, Vec<RunRecord>)>, n: int)
    requires
        0 <= n < all_keys(runs).len(),
    ensures
        exists|i: int, k: int|
            #![trigger runs[i].1@[k]]
            {
                &&& 0 <= i < runs.len()
                &&& 0 <= k < runs[i].1@.len()
                &&& all_keys(runs)[n] == filed(runs[i].0, runs[i].1@[k])
                &&& all_ops(runs)[n] == runs[i].1@[k].ops_per_sec
            },
    decreases runs.len(),
{
    let rest = runs.drop_last();
    lemma_as_many_ops(rest);
    let m = all_keys(rest).len() as int;
    if n < m {
        law_only_results_are_collected(rest, n);
        let (i, k) = choose|i: int, k: int|
            #![trigger rest[i].1@[k]]
            {
                &&& 0 <= i < rest.len()
                &&& 0 <= k < rest[i].1@.len()
                &&& all_keys(rest)[n] == filed(rest[i].0, rest[i].1@[k])
                &&& all_ops(rest)[n] == rest[i].1@[k].ops_per_sec
            };
        assert(runs[i] == rest[i]);
        assert(runs[i].1@[k] == rest[i].1@[k]);
    } else {
        let i = runs.len() - 1;
        assert(runs[i] == runs.last());
        assert(runs[i].1@[n - m] == runs.last().1@[n - m]);
    }
}

} // verus!
