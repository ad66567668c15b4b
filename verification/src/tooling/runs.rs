//! How the samples of recorded runs are grouped.
use vstd::prelude::*;

use crate::order::{self, Side};
use crate::text::{chars_of, folded, join, joined, same, texts, trim, trimmed};
use crate::tooling::fleet::normalize_machine;
use crate::tooling::search::{normalize_scenario, scenario_name};

verus! {

/// What a recorded run says about itself.
#[derive(Clone, Debug)]
pub struct RunMeta {
    pub ubq_label: Option<String>,
    pub machine_label: Option<String>,
}

/// One result of a recorded run: its text fields, as far as they are there,
/// and the bits of its throughput.
#[derive(Clone, Debug)]
pub struct RunRecord {
    pub skipped_reason: Option<String>,
    pub ops_per_sec: Option<u64>,
    pub queue: Option<String>,
    pub scenario: Option<String>,
    pub mode: Option<String>,
}

/// Where a sample is filed.
#[derive(Clone, Debug)]
pub struct SampleKey {
    pub machine: String,
    pub mode: String,
    pub scenario: String,
    pub label: String,
}

/// The contents of a sample key.
pub struct KeyParts {
    pub machine: Seq<char>,
    pub mode: Seq<char>,
    pub scenario: Seq<char>,
    pub label: Seq<char>,
}

impl View for SampleKey {
    type V = KeyParts;

    open spec fn view(&self) -> KeyParts {
        KeyParts {
            machine: self.machine@,
            mode: self.mode@,
            scenario: self.scenario@,
            label: self.label@,
        }
    }
}

impl SampleKey {
    fn copy(&self) -> (key: SampleKey)
        ensures
            key@ == self@,
    {
        SampleKey {
            machine: self.machine.clone(),
            mode: self.mode.clone(),
            scenario: self.scenario.clone(),
            label: self.label.clone(),
        }
    }
}

/// The trimmed text of a field, `other` if the field is missing.
pub open spec fn field(value: Option<String>, other: Seq<char>) -> Seq<char> {
    match value {
        Some(text) => trimmed(text@),
        None => trimmed(other),
    }
}

fn field_text(value: &Option<String>, other: &str) -> (text: String)
    ensures
        text@ == field(*value, other@),
{
    match value {
        Some(text) => trim(text.as_str()),
        None => trim(other),
    }
}

/// The machine of a run.
pub open spec fn machine_of(meta: RunMeta) -> Seq<char> {
    let named = field(meta.machine_label, "local"@);
    folded(
        if named.len() == 0 {
            "local"@
        } else {
            named
        },
    )
}

/// Where a result is filed; nowhere if it was skipped, has no throughput, or
/// names no queue or no scenario.
pub open spec fn filed(meta: RunMeta, record: RunRecord) -> Option<KeyParts> {
    let queue = field(record.queue, ""@);
    let scenario = scenario_name(field(record.scenario, ""@));
    if record.skipped_reason matches Some(reason) && reason@.len() > 0 {
        None
    } else if record.ops_per_sec is None || queue.len() == 0 || scenario.len() == 0 {
        None
    } else {
        Some(
            KeyParts {
                machine: machine_of(meta),
                mode: field(record.mode, "throughput"@),
                scenario,
                label: if queue == "ubq"@ {
                    "ubq_"@ + field(meta.ubq_label, "default"@)
                } else {
                    queue
                },
            },
        )
    }
}

/// Where a result is filed.
pub fn sample_key(meta: &RunMeta, record: &RunRecord) -> (key: Option<SampleKey>)
    ensures
        match key {
            Some(key) => filed(*meta, *record) == Some(key@),
            None => filed(*meta, *record) is None,
        },
{
    if let Some(reason) = &record.skipped_reason {
        if chars_of(reason.as_str()).len() > 0 {
            return None;
        }
    }
    if record.ops_per_sec.is_none() {
        return None;
    }
    let queue = field_text(&record.queue, "");
    if chars_of(queue.as_str()).len() == 0 {
        return None;
    }
    let named = field_text(&record.scenario, "");
    let scenario = normalize_scenario(named.as_str());
    if chars_of(scenario.as_str()).len() == 0 {
        return None;
    }
    let mut machine = field_text(&meta.machine_label, "local");
    if chars_of(machine.as_str()).len() == 0 {
        machine = "local".to_owned();
    }
    let label = if same(queue.as_str(), "ubq") {
        let mut text = "ubq_".to_owned();
        let name = field_text(&meta.ubq_label, "default");
        text.append(name.as_str());
        text
    } else {
        queue
    };
    Some(
        SampleKey {
            machine: normalize_machine(machine.as_str()),
            mode: field_text(&record.mode, "throughput"),
            scenario,
            label,
        },
    )
}

/// Keys in order: by machine, then mode, scenario and label.
pub open spec fn key_precedes(a: KeyParts, b: KeyParts) -> bool {
    ||| order::precedes(a.machine, b.machine)
    ||| a.machine == b.machine && order::precedes(a.mode, b.mode)
    ||| a.machine == b.machine && a.mode == b.mode && order::precedes(a.scenario, b.scenario)
    ||| a.machine == b.machine && a.mode == b.mode && a.scenario == b.scenario && order::precedes(
        a.label,
        b.label,
    )
}

/// No key comes before itself.
pub proof fn law_key_irreflexive(a: KeyParts)
    ensures
        !key_precedes(a, a),
{
    order::law_precedes_irreflexive(a.machine);
    order::law_precedes_irreflexive(a.mode);
    order::law_precedes_irreflexive(a.scenario);
    order::law_precedes_irreflexive(a.label);
}

/// The order of keys is transitive.
pub proof fn law_key_transitive(a: KeyParts, b: KeyParts, c: KeyParts)
    requires
        key_precedes(a, b),
        key_precedes(b, c),
    ensures
        key_precedes(a, c),
{
    if order::precedes(a.machine, b.machine) && order::precedes(b.machine, c.machine) {
        order::law_precedes_transitive(a.machine, b.machine, c.machine);
    }
    if order::precedes(a.mode, b.mode) && order::precedes(b.mode, c.mode) {
        order::law_precedes_transitive(a.mode, b.mode, c.mode);
    }
    if order::precedes(a.scenario, b.scenario) && order::precedes(b.scenario, c.scenario) {
        order::law_precedes_transitive(a.scenario, b.scenario, c.scenario);
    }
    if order::precedes(a.label, b.label) && order::precedes(b.label, c.label) {
        order::law_precedes_transitive(a.label, b.label, c.label);
    }
}

fn key_side(a: &SampleKey, b: &SampleKey) -> (side: Side)
    ensures
        match side {
            Side::Before => key_precedes(a@, b@),
            Side::Same => a@ == b@,
            Side::After => key_precedes(b@, a@),
        },
{
    match order::side(a.machine.as_str(), b.machine.as_str()) {
        Side::Same => {},
        other => {
            return other;
        },
    }
    match order::side(a.mode.as_str(), b.mode.as_str()) {
        Side::Same => {},
        other => {
            return other;
        },
    }
    match order::side(a.scenario.as_str(), b.scenario.as_str()) {
        Side::Same => {},
        other => {
            return other;
        },
    }
    order::side(a.label.as_str(), b.label.as_str())
}

/// The samples that share a key, by their numbers.
pub struct Group {
    pub key: SampleKey,
    pub members: Vec<usize>,
}

/// The keys of samples.
pub open spec fn key_views(keys: Seq<Option<SampleKey>>) -> Seq<Option<KeyParts>> {
    keys.map_values(
        |key: Option<SampleKey>|
            match key {
                Some(key) => Some(key@),
                None => None,
            },
    )
}

/// The numbers of the samples with a key, in order.
pub open spec fn members_of(keys: Seq<Option<KeyParts>>, key: KeyParts) -> Seq<usize>
    decreases keys.len(),
{
    if keys.len() == 0 {
        Seq::empty()
    } else {
        let rest = members_of(keys.drop_last(), key);
        if keys.last() == Some(key) {
            rest.push((keys.len() - 1) as usize)
        } else {
            rest
        }
    }
}

/// The groups are in the order of their keys.
pub open spec fn groups_ascending(groups: Seq<Group>) -> bool {
    forall|i: int, j: int|
        0 <= i < j < groups.len() ==> key_precedes(
            (#[trigger] groups[i]).key@,
            (#[trigger] groups[j]).key@,
        )
}

/// The groups hold all samples that have a key, each in the group of its key.
pub open spec fn grouped(groups: Seq<Group>, keys: Seq<Option<KeyParts>>) -> bool {
    &&& groups_ascending(groups)
    &&& forall|g: int|
        0 <= g < groups.len() ==> {
            &&& (#[trigger] groups[g]).members@ == members_of(keys, groups[g].key@)
            &&& groups[g].members@.len() > 0
        }
    &&& forall|key: KeyParts| #[trigger]
        members_of(keys, key).len() > 0 ==> exists|g: int|
            0 <= g < groups.len() && (#[trigger] groups[g]).key@ == key
}

proof fn lemma_place(groups: Seq<Group>, at: int, key: KeyParts)
    requires
        groups_ascending(groups),
        0 <= at <= groups.len(),
        forall|j: int| 0 <= j < at ==> key_precedes((#[trigger] groups[j]).key@, key),
        at < groups.len() ==> key_precedes(key, groups[at].key@),
    ensures
        forall|j: int| at <= j < groups.len() ==> key_precedes(key, (#[trigger] groups[j]).key@),
        forall|j: int| 0 <= j < groups.len() ==> (#[trigger] groups[j]).key@ != key,
{
    assert forall|j: int| at <= j < groups.len() implies key_precedes(
        key,
        (#[trigger] groups[j]).key@,
    ) by {
        if j > at {
            law_key_transitive(key, groups[at].key@, groups[j].key@);
        }
    }
    law_key_irreflexive(key);
}

/// Files one more sample.
fn file_sample(groups: &mut Vec<Group>, key: &SampleKey, number: usize, Ghost(keys): Ghost<
    Seq<Option<KeyParts>>,
>)
    requires
        grouped(old(groups)@, keys),
        number == keys.len(),
    ensures
        grouped(final(groups)@, keys.push(Some(key@))),
{
    let ghost before = groups@;
    let ghost name = key@;
    let ghost all = keys.push(Some(name));
    assert(all.drop_last() =~= keys);
    assert forall|k: KeyParts| #[trigger] members_of(all, k) == (if k == name {
        members_of(keys, k).push(number)
    } else {
        members_of(keys, k)
    }) by {}
    let mut at: usize = 0;
    while at < groups.len()
        invariant
            groups@ == before,
            name == key@,
            all == keys.push(Some(name)),
            number == keys.len(),
            grouped(before, keys),
            forall|k: KeyParts| #[trigger]
                members_of(all, k) == (if k == name {
                    members_of(keys, k).push(number)
                } else {
                    members_of(keys, k)
                }),
            at <= groups@.len(),
            forall|j: int| 0 <= j < at ==> key_precedes((#[trigger] before[j]).key@, name),
        ensures
            at < groups@.len() ==> key_precedes(name, before[at as int].key@),
        decreases groups@.len() - at,
    {
        match key_side(&groups[at].key, key) {
            Side::Before => {},
            Side::Same => {
                groups[at].members.push(number);
                proof {
                    let after = groups@;
                    assert(after[at as int].key == before[at as int].key);
                    assert(forall|j: int| 0 <= j < after.len() && j != at ==> after[j] == before[j]);
                    assert forall|j: int| 0 <= j < after.len() implies {
                        &&& (#[trigger] after[j]).members@ == members_of(all, after[j].key@)
                        &&& after[j].members@.len() > 0
                    } by {
                        if j != at {
                            law_key_irreflexive(name);
                            assert(before[j].key@ != name) by {
                                if j < at {
                                    assert(key_precedes(before[j].key@, before[at as int].key@));
                                } else {
                                    assert(key_precedes(before[at as int].key@, before[j].key@));
                                }
                            }
                        }
                    }
                    assert forall|k: KeyParts| #[trigger]
                        members_of(all, k).len() > 0 implies exists|g: int|
                        0 <= g < after.len() && (#[trigger] after[g]).key@ == k by {
                        if k == name {
                            assert(after[at as int].key@ == k);
                        } else {
                            assert(members_of(keys, k).len() > 0);
                            let g = choose|g: int|
                                0 <= g < before.len() && (#[trigger] before[g]).key@ == k;
                            assert(after[g].key@ == k);
                        }
                    }
                    assert(groups_ascending(after)) by {
                        assert forall|i: int, j: int| 0 <= i < j < after.len() implies key_precedes(
                            (#[trigger] after[i]).key@,
                            (#[trigger] after[j]).key@,
                        ) by {
                            assert(key_precedes(before[i].key@, before[j].key@));
                        }
                    }
                }
                return;
            },
            Side::After => {
                break;
            },
        }
        at = at + 1;
    }
    proof {
        lemma_place(before, at as int, name);
    }
    let mut members: Vec<usize> = Vec::new();
    members.push(number);
    groups.insert(at, Group { key: key.copy(), members });
    proof {
        let after = groups@;
        let group = after[at as int];
        assert(after =~= before.insert(at as int, group));
        assert(members_of(keys, name).len() == 0) by {
            if members_of(keys, name).len() > 0 {
                let g = choose|g: int|
                    0 <= g < before.len() && (#[trigger] before[g]).key@ == name;
            }
        }
        assert(members_of(keys, name) =~= Seq::<usize>::empty());
        assert(group.members@ =~= members_of(all, name));
        assert forall|j: int| 0 <= j < after.len() implies {
            &&& (#[trigger] after[j]).members@ == members_of(all, after[j].key@)
            &&& after[j].members@.len() > 0
        } by {
            if j < at {
                assert(after[j] == before[j]);
            } else if j > at {
                assert(after[j] == before[j - 1]);
            }
        }
        assert forall|k: KeyParts| #[trigger] members_of(all, k).len() > 0 implies exists|g: int|
            0 <= g < after.len() && (#[trigger] after[g]).key@ == k by {
            if k == name {
                assert(after[at as int].key@ == k);
            } else {
                assert(members_of(keys, k).len() > 0);
                let g = choose|g: int| 0 <= g < before.len() && (#[trigger] before[g]).key@ == k;
                if g < at {
                    assert(after[g].key@ == k);
                } else {
                    assert(after[g + 1].key@ == k);
                }
            }
        }
        assert(groups_ascending(after)) by {
            assert forall|i: int, j: int| 0 <= i < j < after.len() implies key_precedes(
                (#[trigger] after[i]).key@,
                (#[trigger] after[j]).key@,
            ) by {
                let a = if i < at {
                    i
                } else {
                    i - 1
                };
                let b = if j < at {
                    j
                } else {
                    j - 1
                };
                if i != at {
                    assert(after[i] == before[a]);
                }
                if j != at {
                    assert(after[j] == before[b]);
                }
            }
        }
    }
}

/// Groups samples by key: the groups in the order of their keys, the samples
/// of a group in their own order.
pub fn group_samples(keys: &Vec<Option<SampleKey>>) -> (groups: Vec<Group>)
    ensures
        grouped(groups@, key_views(keys@)),
{
    let ghost all = key_views(keys@);
    let mut groups: Vec<Group> = Vec::new();
    let mut i: usize = 0;
    assert(all.take(0) =~= Seq::<Option<KeyParts>>::empty());
    while i < keys.len()
        invariant
            all == key_views(keys@),
            i <= keys@.len(),
            grouped(groups@, all.take(i as int)),
        decreases keys@.len() - i,
    {
        let ghost part = all.take(i as int);
        assert(all.take(i + 1) =~= part.push(all[i as int]));
        match &keys[i] {
            Some(key) => {
                file_sample(&mut groups, key, i, Ghost(part));
            },
            None => {
                assert(part.push(None::<KeyParts>).drop_last() =~= part);
                assert forall|k: KeyParts| #[trigger]
                    members_of(part.push(None::<KeyParts>), k) == members_of(part, k) by {}
            },
        }
        i = i + 1;
    }
    assert(all.take(i as int) =~= all);
    groups
}

/// A sample with a key is in the group of that key and in no other.
pub proof fn law_sample_is_filed_once(
    groups: Seq<Group>,
    keys: Seq<Option<KeyParts>>,
    i: int,
    g: int,
)
    requires
        grouped(groups, keys),
        keys.len() <= usize::MAX,
        0 <= i < keys.len(),
        0 <= g < groups.len(),
    ensures
        groups[g].members@.contains(i as usize) <==> keys[i] == Some(groups[g].key@),
{
    lemma_members(keys, groups[g].key@, i);
}

proof fn lemma_members(keys: Seq<Option<KeyParts>>, key: KeyParts, i: int)
    requires
        keys.len() <= usize::MAX,
        0 <= i,
    ensures
        i < keys.len() ==> (members_of(keys, key).contains(i as usize) <==> keys[i] == Some(key)),
        keys.len() <= i <= usize::MAX ==> !members_of(keys, key).contains(i as usize),
    decreases keys.len(),
{
    if keys.len() > 0 {
        let rest = keys.drop_last();
        let old_members = members_of(rest, key);
        let members = members_of(keys, key);
        lemma_members(rest, key, i);
        if keys.last() == Some(key) {
            let number = (keys.len() - 1) as usize;
            assert(members == old_members.push(number));
            if i <= usize::MAX {
                if old_members.contains(i as usize) {
                    let k = old_members.index_of(i as usize);
                    assert(members[k] == i as usize);
                }
                if members.contains(i as usize) && i as usize != number {
                    let k = members.index_of(i as usize);
                    assert(old_members[k] == i as usize);
                }
                assert(members[old_members.len() as int] == number);
            }
        }
    }
}

/// What identifies a set of missing measurements.
pub fn format_missing_key(winner: &str, missing: &Vec<String>) -> (key: String)
    ensures
        key@ == winner@ + "|"@ + joined(texts(missing@), ","@),
{
    let mut key = winner.to_owned();
    key.append("|");
    let list = join(missing, ",");
    key.append(list.as_str());
    key
}

/// A result counts exactly if it was not skipped, has a throughput, and names a
/// queue and a scenario. It is then filed under the machine that its run names,
/// trimmed and in lower case, or under `local` where the run names none; under
/// its mode, or `throughput` where it names none; under its scenario in standard
/// notation; and under the name of its queue, behind which the label of the run
/// follows for the queue that has labels.
pub proof fn law_a_result_is_filed_by_what_it_names(meta: RunMeta, record: RunRecord)
    ensures
        filed(meta, record) is Some <==> {
            &&& record.skipped_reason is None || record.skipped_reason->0@.len() == 0
            &&& record.ops_per_sec is Some
            &&& record.queue is Some && trimmed(record.queue->0@).len() > 0
            &&& record.scenario is Some && trimmed(record.scenario->0@).len() > 0
        },
        filed(meta, record) matches Some(key) ==> {
            &&& key.machine == (if meta.machine_label is Some && trimmed(
                meta.machine_label->0@,
            ).len() > 0 {
                crate::text::lowered(trimmed(meta.machine_label->0@))
            } else {
                "local"@
            })
            &&& key.mode == (if record.mode is Some {
                trimmed(record.mode->0@)
            } else {
                "throughput"@
            })
            &&& key.scenario == scenario_name(record.scenario->0@)
            &&& key.label == (if trimmed(record.queue->0@) != "ubq"@ {
                trimmed(record.queue->0@)
            } else if meta.ubq_label is Some {
                "ubq_"@ + trimmed(meta.ubq_label->0@)
            } else {
                "ubq_default"@
            })
        },
{
    reveal_strlit("");
    reveal_strlit("local");
    reveal_strlit("throughput");
    reveal_strlit("default");
    reveal_strlit("ubq_");
    reveal_strlit("ubq_default");
    assert(""@ =~= Seq::<char>::empty());
    assert(trimmed(""@) =~= ""@);
    assert(trimmed("local"@) == "local"@);
    assert(trimmed("throughput"@) == "throughput"@);
    assert(trimmed("default"@) == "default"@);
    assert("ubq_"@ + "default"@ =~= "ubq_default"@);
    assert(crate::text::lowered("local"@) =~= "local"@);
    if let Some(text) = meta.machine_label {
        crate::text::law_trim_is_idempotent(text@);
    }
    if let Some(text) = record.scenario {
        crate::text::law_trim_is_idempotent(text@);
    }
    reveal_strlit("spsc");
    reveal_strlit("mpsc");
    reveal_strlit("spmc");
    reveal_strlit("mpmc");
    reveal_strlit("1p1c");
    reveal_strlit("4p1c");
    reveal_strlit("1p4c");
    reveal_strlit("4p4c");
    assert("1p1c"@.len() == 4 && "4p1c"@.len() == 4 && "1p4c"@.len() == 4 && "4p4c"@.len() == 4);
    assert("spsc"@.len() == 4 && "mpsc"@.len() == 4 && "spmc"@.len() == 4 && "mpmc"@.len() == 4);
}

/// Results of different machines, modes, scenarios or queues are never filed
/// together: what two results that share a key name is the same.
pub proof fn law_results_that_share_a_key_name_the_same(
    meta: RunMeta,
    record: RunRecord,
    other_meta: RunMeta,
    other_record: RunRecord,
)
    requires
        filed(meta, record) is Some,
        filed(meta, record) == filed(other_meta, other_record),
    ensures
        ({
            &&& meta.machine_label is Some && trimmed(meta.machine_label->0@).len() > 0
            &&& other_meta.machine_label is Some && trimmed(other_meta.machine_label->0@).len() > 0
        }) ==> crate::text::lowered(trimmed(meta.machine_label->0@)) == crate::text::lowered(
            trimmed(other_meta.machine_label->0@),
        ),
        record.mode is Some && other_record.mode is Some ==> trimmed(record.mode->0@) == trimmed(
            other_record.mode->0@,
        ),
        scenario_name(record.scenario->0@) == scenario_name(other_record.scenario->0@),
        trimmed(record.queue->0@) != "ubq"@ && trimmed(other_record.queue->0@) != "ubq"@
            ==> trimmed(record.queue->0@) == trimmed(other_record.queue->0@),
        ({
            &&& trimmed(record.queue->0@) == "ubq"@ && trimmed(other_record.queue->0@) == "ubq"@
            &&& meta.ubq_label is Some && other_meta.ubq_label is Some
        }) ==> trimmed(meta.ubq_label->0@) == trimmed(other_meta.ubq_label->0@),
{
    law_a_result_is_filed_by_what_it_names(meta, record);
    law_a_result_is_filed_by_what_it_names(other_meta, other_record);
    if meta.ubq_label is Some && other_meta.ubq_label is Some {
        let a = trimmed(meta.ubq_label->0@);
        let b = trimmed(other_meta.ubq_label->0@);
        assert(("ubq_"@ + a).skip("ubq_"@.len() as int) =~= a);
        assert(("ubq_"@ + b).skip("ubq_"@.len() as int) =~= b);
    }
}

/// The numbers of the samples of a group rise: they stand in their own order.
pub proof fn law_members_rise(keys: Seq<Option<KeyParts>>, key: KeyParts)
    requires
        keys.len() <= usize::MAX,
    ensures
        forall|i: int, j: int|
            0 <= i < j < members_of(keys, key).len() ==> #[trigger] members_of(keys, key)[i]
                < #[trigger] members_of(keys, key)[j],
        forall|i: int|
            0 <= i < members_of(keys, key).len() ==> (#[trigger] members_of(keys, key)[i])
                < keys.len(),
    decreases keys.len(),
{
    if keys.len() > 0 {
        let rest = keys.drop_last();
        law_members_rise(rest, key);
        let before = members_of(rest, key);
        let all = members_of(keys, key);
        assert forall|i: int| 0 <= i < all.len() implies (#[trigger] all[i]) < keys.len() by {
            if i < before.len() {
                assert(all[i] == before[i]);
            }
        }
        assert forall|i: int, j: int| 0 <= i < j < all.len() implies #[trigger] all[i]
            < #[trigger] all[j] by {
            assert(all[i] == before[i]);
            if j < before.len() {
                assert(all[j] == before[j]);
            }
        }
    }
}

} // verus!
