//! The rounds in which missing measurements are made up for.
use vstd::prelude::*;

use crate::order::{self, first_position, Side};
use crate::text::{begins, joined, same, strip_prefix, texts};
use crate::tooling::runs::{
    format_missing_key, groups_ascending, law_key_irreflexive, Group, KeyParts,
};
use crate::tooling::search::{
    backoffs, bench_label_sort_key, is_valid, label_of, parse_scenario_threads, presets, rank,
    scenario_threads, LabelParts,
};
use crate::tooling::shorthand::{holds_spelled, spell_out_entries};
use crate::tooling::winners::{
    complete, configuration, entry_label, has_complete_immediate_winner_variants, is_required,
    law_one_winner, strict_immediate_winner_ubq_labels, variants, wins, Entries, Stats,
};

verus! {

/// Whether two rounds in a row lack the same.
pub fn has_no_progress(previous_missing_key: Option<&str>, current_missing_key: Option<&str>) -> (
    stuck: bool)
    ensures
        stuck == (match (previous_missing_key, current_missing_key) {
            (Some(previous), Some(current)) => previous@ == current@,
            _ => false,
        }),
{
    match (previous_missing_key, current_missing_key) {
        (Some(previous), Some(current)) => same(previous, current),
        _ => false,
    }
}

/// A scenario that a host with so many threads can run: one whose threads fit,
/// and one of which the number of threads is not known.
pub open spec fn fits(scenario: Seq<char>, threads: int) -> bool {
    match scenario_threads(scenario) {
        Some((producers, consumers)) => producers + consumers <= threads,
        None => true,
    }
}

/// The scenarios that fit, or those that do not, in their order.
pub open spec fn fitting(list: Seq<Seq<char>>, threads: int, fit: bool) -> Seq<Seq<char>>
    decreases list.len(),
{
    if list.len() == 0 {
        Seq::empty()
    } else {
        let rest = fitting(list.drop_last(), threads, fit);
        if fits(list.last(), threads) == fit {
            rest.push(list.last())
        } else {
            rest
        }
    }
}

/// Parts the scenarios into those that the host can run and the others.
pub fn filter_scenarios_for_host(scenarios: &Vec<String>, available_parallelism: usize) -> (parts: (
    Vec<String>,
    Vec<String>,
))
    ensures
        texts(parts.0@) == fitting(texts(scenarios@), available_parallelism as int, true),
        texts(parts.1@) == fitting(texts(scenarios@), available_parallelism as int, false),
{
    let ghost all = texts(scenarios@);
    let ghost threads = available_parallelism as int;
    let mut runnable: Vec<String> = Vec::new();
    let mut skipped: Vec<String> = Vec::new();
    let mut i: usize = 0;
    assert(all.take(0) =~= Seq::<Seq<char>>::empty());
    assert(texts(runnable@) =~= Seq::<Seq<char>>::empty());
    assert(texts(skipped@) =~= Seq::<Seq<char>>::empty());
    while i < scenarios.len()
        invariant
            all == texts(scenarios@),
            threads == available_parallelism,
            i <= scenarios@.len(),
            texts(runnable@) == fitting(all.take(i as int), threads, true),
            texts(skipped@) == fitting(all.take(i as int), threads, false),
        decreases scenarios@.len() - i,
    {
        let ghost yes = texts(runnable@);
        let ghost no = texts(skipped@);
        let ghost name = scenarios@[i as int]@;
        proof {
            assert(all.take(i + 1).drop_last() =~= all.take(i as int));
            assert(all.take(i + 1).last() == name);
        }
        let fit = match parse_scenario_threads(scenarios[i].as_str()) {
            Some((producers, consumers)) => producers <= available_parallelism && consumers
                <= available_parallelism - producers,
            None => true,
        };
        if fit {
            runnable.push(scenarios[i].clone());
            assert(texts(runnable@) =~= yes.push(name));
        } else {
            skipped.push(scenarios[i].clone());
            assert(texts(skipped@) =~= no.push(name));
        }
        i = i + 1;
    }
    assert(all.take(i as int) =~= all);
    (runnable, skipped)
}

/// What is planned for a scenario.
pub struct ScenarioRoundPlan {
    pub complete: bool,
    pub plan_labels: Vec<String>,
    pub unresolved_no_seed: bool,
    pub missing_key: Option<String>,
}

/// What labels are sorted by.
#[verifier::opaque]
pub open spec fn label_key(label: Seq<char>) -> (int, int, int, int, Seq<char>) {
    match label_of(label) {
        Some(parts) => (
            rank(first_position(presets(), parts.preset)) as int,
            parts.pool as int,
            parts.block as int,
            rank(first_position(backoffs(), parts.backoff)) as int,
            parts.backoff,
        ),
        None => (255, 255, 65535, 255, label),
    }
}

/// The order of two sort keys.
pub open spec fn key_order(
    x: (int, int, int, int, Seq<char>),
    y: (int, int, int, int, Seq<char>),
) -> bool {
    ||| x.0 < y.0
    ||| x.0 == y.0 && x.1 < y.1
    ||| x.0 == y.0 && x.1 == y.1 && x.2 < y.2
    ||| x.0 == y.0 && x.1 == y.1 && x.2 == y.2 && x.3 < y.3
    ||| x.0 == y.0 && x.1 == y.1 && x.2 == y.2 && x.3 == y.3 && order::precedes(x.4, y.4)
}

/// The label `a` sorts before the label `b`.
pub open spec fn label_before(a: Seq<char>, b: Seq<char>) -> bool {
    key_order(label_key(a), label_key(b))
}

/// No label stands behind one that it sorts before.
pub open spec fn labels_sorted(list: Seq<Seq<char>>) -> bool {
    forall|i: int, j: int|
        0 <= i < j < list.len() ==> !label_before(#[trigger] list[j], #[trigger] list[i])
}

proof fn lemma_label_order(a: Seq<char>, b: Seq<char>, c: Seq<char>)
    ensures
        label_before(a, b) ==> !label_before(b, a),
        !label_before(b, a) && !label_before(c, b) ==> !label_before(c, a),
{
    let x = label_key(a).4;
    let y = label_key(b).4;
    let z = label_key(c).4;
    order::law_precedes_total(x, y);
    order::law_precedes_total(y, z);
    order::law_precedes_irreflexive(x);
    if order::precedes(x, y) && order::precedes(y, x) {
        order::law_precedes_transitive(x, y, x);
    }
    if order::precedes(z, x) {
        if order::precedes(x, y) {
            order::law_precedes_transitive(z, x, y);
        }
        if order::precedes(y, z) {
            order::law_precedes_transitive(y, z, x);
        }
    }
}

fn sorts_before(a: &str, b: &str) -> (before: bool)
    ensures
        before == label_before(a@, b@),
{
    proof {
        reveal(label_key);
    }
    let x = bench_label_sort_key(a);
    let y = bench_label_sort_key(b);
    if x.0 != y.0 {
        return x.0 < y.0;
    }
    if x.1 != y.1 {
        return x.1 < y.1;
    }
    if x.2 != y.2 {
        return x.2 < y.2;
    }
    if x.3 != y.3 {
        return x.3 < y.3;
    }
    proof {
        order::law_precedes_irreflexive(x.4@);
    }
    match order::side(x.4.as_str(), y.4.as_str()) {
        Side::Before => true,
        Side::Same => false,
        Side::After => {
            proof {
                if order::precedes(x.4@, y.4@) {
                    order::law_precedes_transitive(x.4@, y.4@, x.4@);
                }
            }
            false
        },
    }
}

/// Puts a label into a sorted list.
fn insert_label(list: &mut Vec<String>, value: String)
    requires
        labels_sorted(texts(old(list)@)),
    ensures
        labels_sorted(texts(final(list)@)),
        final(list)@.len() == old(list)@.len() + 1,
        forall|t: Seq<char>| #[trigger]
            texts(final(list)@).contains(t) <==> texts(old(list)@).contains(t) || t == value@,
        texts(old(list)@).no_duplicates() && !texts(old(list)@).contains(value@) ==> texts(
            final(list)@,
        ).no_duplicates(),
{
    let ghost before = texts(list@);
    let ghost text = value@;
    let mut i: usize = 0;
    while i < list.len() && !sorts_before(value.as_str(), list[i].as_str())
        invariant
            list@ == old(list)@,
            before == texts(list@),
            text == value@,
            labels_sorted(before),
            i <= list@.len(),
            forall|j: int| 0 <= j < i ==> !label_before(text, #[trigger] before[j]),
        decreases list@.len() - i,
    {
        assert(before[i as int] == list@[i as int]@);
        i = i + 1;
    }
    list.insert(i, value);
    proof {
        let after = before.insert(i as int, text);
        assert(texts(list@) =~= after);
        assert forall|x: int, y: int| 0 <= x < y < after.len() implies !label_before(
            #[trigger] after[y],
            #[trigger] after[x],
        ) by {
            if y == i {
                assert(after[x] == before[x]);
            } else if x == i {
                assert(after[y] == before[y - 1]);
                let next = before[i as int];
                assert(next == old(list)@[i as int]@);
                assert(label_before(text, next));
                lemma_label_order(text, next, before[y - 1]);
                if y - 1 > i {
                    assert(!label_before(before[y - 1], next));
                }
            } else {
                let a = if x < i {
                    x
                } else {
                    x - 1
                };
                let b = if y < i {
                    y
                } else {
                    y - 1
                };
                assert(after[x] == before[a] && after[y] == before[b]);
            }
        }
        assert forall|t: Seq<char>| #[trigger] after.contains(t) <==> before.contains(t) || t
            == text by {
            if before.contains(t) {
                let k = before.index_of(t);
                if k < i {
                    assert(after[k] == t);
                } else {
                    assert(after[k + 1] == t);
                }
            }
            if t == text {
                assert(after[i as int] == t);
            }
            if after.contains(t) {
                let k = after.index_of(t);
                if k < i {
                    assert(before[k] == t);
                } else if k > i {
                    assert(before[k - 1] == t);
                }
            }
        }
        if before.no_duplicates() && !before.contains(text) {
            assert forall|x: int, y: int|
                0 <= x < after.len() && 0 <= y < after.len() && x != y implies after[x]
                != after[y] by {
                let a = if x < i {
                    x
                } else {
                    x - 1
                };
                let b = if y < i {
                    y
                } else {
                    y - 1
                };
                if x != i {
                    assert(after[x] == before[a]);
                    assert(before.contains(before[a]));
                }
                if y != i {
                    assert(after[y] == before[b]);
                    assert(before.contains(before[b]));
                }
            }
        }
    }
}

/// A label that is required of the winner and has not been measured.
pub open spec fn is_missing(entries: Entries, winner: Seq<char>, label: Seq<char>) -> bool {
    &&& is_required(winner, configuration(winner)->0, "ubq_"@ + label)
    &&& !entries.labels().contains("ubq_"@ + label)
}

/// The plan for a scenario whose entries are `entries`: nothing if it is
/// complete; the seed, if there is one, where nothing has been measured; else
/// what is missing, in order.
pub open spec fn plans(
    entries: Entries,
    seed: Option<Seq<char>>,
    plan: ScenarioRoundPlan,
) -> bool {
    let labels = texts(plan.plan_labels@);
    if complete(entries) {
        &&& plan.complete
        &&& labels.len() == 0
        &&& !plan.unresolved_no_seed
        &&& plan.missing_key is None
    } else if exists|i: int| wins(entries, i) {
        let winner = entries.labels()[choose|i: int| wins(entries, i)];
        &&& !plan.complete
        &&& !plan.unresolved_no_seed
        &&& labels_sorted(labels)
        &&& labels.no_duplicates()
        &&& forall|t: Seq<char>| #[trigger] labels.contains(t) <==> is_missing(entries, winner, t)
        &&& (plan.missing_key matches Some(key) && key@ == winner + "|"@ + joined(labels, ","@))
    } else {
        &&& !plan.complete
        &&& plan.missing_key is None
        &&& match seed {
            Some(label) => labels == seq![label] && !plan.unresolved_no_seed,
            None => labels.len() == 0 && plan.unresolved_no_seed,
        }
    }
}

/// Plans the next round for a scenario.
pub fn plan_round(entries: &Entries, seed_label: Option<&str>) -> (plan: ScenarioRoundPlan)
    requires
        entries.wf(),
    ensures
        plans(
            *entries,
            match seed_label {
                Some(label) => Some(label@),
                None => None,
            },
            plan,
        ),
{
    if has_complete_immediate_winner_variants(entries) {
        let plan = ScenarioRoundPlan {
            complete: true,
            plan_labels: Vec::new(),
            unresolved_no_seed: false,
            missing_key: None,
        };
        assert(texts(plan.plan_labels@).len() == 0);
        return plan;
    }
    match strict_immediate_winner_ubq_labels(entries) {
        None => {
            assert forall|i: int| !wins(*entries, i) by {
                if wins(*entries, i) {
                    assert(configuration(entries.labels()[i]) is Some);
                }
            }
            match seed_label {
                Some(seed) => {
                    let mut labels: Vec<String> = Vec::new();
                    labels.push(seed.to_owned());
                    assert(texts(labels@) =~= seq![seed@]);
                    ScenarioRoundPlan {
                        complete: false,
                        plan_labels: labels,
                        unresolved_no_seed: false,
                        missing_key: None,
                    }
                },
                None => {
                    let plan = ScenarioRoundPlan {
                        complete: false,
                        plan_labels: Vec::new(),
                        unresolved_no_seed: true,
                        missing_key: None,
                    };
                    assert(texts(plan.plan_labels@).len() == 0);
                    plan
                },
            }
        },
        Some((winner, required)) => {
            let ghost at = choose|i: int|
                #![trigger wins(*entries, i)]
                wins(*entries, i) && winner@ == entries.labels()[i];
            proof {
                let other = choose|i: int| wins(*entries, i);
                law_one_winner(*entries, at, other);
                order::law_ascending_is_distinct(texts(required@));
            }
            let ghost all = texts(required@);
            let ghost front = "ubq_"@;
            let mut labels: Vec<String> = Vec::new();
            let mut i: usize = 0;
            assert(texts(labels@) =~= Seq::<Seq<char>>::empty());
            while i < required.len()
                invariant
                    all == texts(required@),
                    all.no_duplicates(),
                    front == "ubq_"@,
                    i <= required@.len(),
                    labels_sorted(texts(labels@)),
                    texts(labels@).no_duplicates(),
                    forall|t: Seq<char>| #[trigger]
                        texts(labels@).contains(t) <==> all.take(i as int).contains(front + t)
                            && !entries.labels().contains(front + t),
                decreases required@.len() - i,
            {
                let ghost before = texts(labels@);
                let ghost label = required@[i as int]@;
                let ghost part = all.take(i as int);
                proof {
                    assert(all[i as int] == label);
                    assert(all.take(i + 1) =~= part.push(label));
                    assert(!part.contains(label)) by {
                        if part.contains(label) {
                            let k = part.index_of(label);
                            assert(all[k] == all[i as int]);
                        }
                    }
                }
                if let Some(rest) = strip_prefix(required[i].as_str(), "ubq_") {
                    let ghost text = rest@;
                    assert(front + text =~= label);
                    if !entries.contains_key(required[i].as_str()) {
                        assert(!before.contains(text));
                        insert_label(&mut labels, rest);
                    }
                }
                proof {
                    assert forall|t: Seq<char>| #[trigger]
                        texts(labels@).contains(t) <==> all.take(i + 1).contains(front + t)
                            && !entries.labels().contains(front + t) by {
                        lemma_push_contains(part, label, front + t);
                        if front + t == label {
                            assert(begins(label, front)) by {
                                assert(label.take(front.len() as int) =~= front);
                            }
                            assert(label.skip(front.len() as int) =~= t);
                        }
                    }
                }
                i = i + 1;
            }
            assert(all.take(i as int) =~= all);
            let key = format_missing_key(winner.as_str(), &labels);
            ScenarioRoundPlan {
                complete: false,
                plan_labels: labels,
                unresolved_no_seed: false,
                missing_key: Some(key),
            }
        },
    }
}

proof fn lemma_push_contains(list: Seq<Seq<char>>, last: Seq<char>, t: Seq<char>)
    ensures
        list.push(last).contains(t) <==> list.contains(t) || t == last,
{
    let all = list.push(last);
    if list.contains(t) {
        let k = list.index_of(t);
        assert(all[k] == t);
    }
    if t == last {
        assert(all[list.len() as int] == t);
    }
    if all.contains(t) && t != last {
        let k = all.index_of(t);
        assert(list[k] == t);
    }
}

/// What is planned for a scenario with a winner has not been measured, and can
/// be built: a round in which something is measured learns something new.
pub proof fn law_planned_labels_are_new(
    entries: Entries,
    seed: Option<Seq<char>>,
    plan: ScenarioRoundPlan,
    i: int,
    label: Seq<char>,
)
    requires
        plans(entries, seed, plan),
        wins(entries, i),
        texts(plan.plan_labels@).contains(label),
    ensures
        !entries.labels().contains("ubq_"@ + label),
        exists|k: int|
            #![trigger variants(configuration(entries.labels()[i])->0)[k]]
            {
                let list = variants(configuration(entries.labels()[i])->0);
                0 <= k < list.len() && is_valid(list[k]) && "ubq_"@ + label == entry_label(list[k])
            },
{
    let chosen = choose|i: int| wins(entries, i);
    law_one_winner(entries, i, chosen);
    let winner = entries.labels()[i];
    if complete(entries) {
        assert(texts(plan.plan_labels@).len() == 0);
    } else {
        assert(is_missing(entries, winner, label));
        assert("ubq_"@ + label != winner);
        let parts = configuration(winner)->0;
        let k = choose|k: int|
            0 <= k < variants(parts).len() && is_valid(#[trigger] variants(parts)[k]) && "ubq_"@
                + label == entry_label(variants(parts)[k]);
        assert(is_valid(variants(parts)[k]));
    }
}

/// The entries of one scenario on one machine.
pub struct GroupedScenario {
    pub machine: String,
    pub mode: String,
    pub scenario: String,
    pub entries: Entries,
}

/// A group of samples belongs to a scenario, under a label.
pub open spec fn belongs(scenario: GroupedScenario, key: KeyParts, label: Seq<char>) -> bool {
    &&& is_group(scenario, key.machine, key.scenario, key.mode)
    &&& key.label == label
}

/// The scenarios hold the means of the first `n` groups: each scenario stands
/// once, and has an entry for each of its groups.
pub open spec fn gathered(
    scenarios: Seq<GroupedScenario>,
    groups: Seq<Group>,
    means: Seq<u64>,
    n: int,
) -> bool {
    &&& forall|s: int| 0 <= s < scenarios.len() ==> (#[trigger] scenarios[s]).entries.wf()
    &&& forall|s: int, t: int|
        0 <= s < scenarios.len() && 0 <= t < scenarios.len() && s != t ==> !is_group(
            #[trigger] scenarios[s],
            (#[trigger] scenarios[t]).machine@,
            scenarios[t].scenario@,
            scenarios[t].mode@,
        )
    &&& forall|s: int, label: Seq<char>|
        0 <= s < scenarios.len() ==> (#[trigger] scenarios[s].entries.labels().contains(label)
            <==> exists|g: int|
            0 <= g < n && belongs(scenarios[s], (#[trigger] groups[g]).key@, label))
    &&& forall|s: int, e: int, g: int|
        0 <= s < scenarios.len() && 0 <= e < scenarios[s].entries.labels().len() && 0 <= g < n
            && belongs(
            scenarios[s],
            (#[trigger] groups[g]).key@,
            #[trigger] scenarios[s].entries.labels()[e],
        ) ==> scenarios[s].entries.stats()[e].mean_ops_per_sec == means[g]
    &&& forall|g: int|
        0 <= g < n ==> exists|s: int|
            0 <= s < scenarios.len() && is_group(
                #[trigger] scenarios[s],
                (#[trigger] groups[g]).key@.machine,
                groups[g].key@.scenario,
                groups[g].key@.mode,
            )
}

/// Files the mean of every group under its scenario. A mean is a number by
/// which means are ordered.
pub fn gather(groups: &Vec<Group>, means: &Vec<u64>) -> (scenarios: Vec<GroupedScenario>)
    requires
        groups_ascending(groups@),
        means@.len() == groups@.len(),
    ensures
        gathered(scenarios@, groups@, means@, groups@.len() as int),
{
    let mut scenarios: Vec<GroupedScenario> = Vec::new();
    let mut g: usize = 0;
    while g < groups.len()
        invariant
            groups_ascending(groups@),
            means@.len() == groups@.len(),
            g <= groups@.len(),
            gathered(scenarios@, groups@, means@, g as int),
        decreases groups@.len() - g,
    {
        let key = &groups[g].key;
        let stats = Stats { mean_ops_per_sec: means[g] };
        let ghost before = scenarios@;
        let mut s: usize = 0;
        while s < scenarios.len() && !(same(scenarios[s].machine.as_str(), key.machine.as_str())
            && same(scenarios[s].mode.as_str(), key.mode.as_str()) && same(
            scenarios[s].scenario.as_str(),
            key.scenario.as_str(),
        ))
            invariant
                s <= scenarios@.len(),
                scenarios@ == before,
                forall|j: int|
                    0 <= j < s ==> !is_group(
                        #[trigger] before[j],
                        key@.machine,
                        key@.scenario,
                        key@.mode,
                    ),
            decreases scenarios@.len() - s,
        {
            s = s + 1;
        }
        proof {
            assert forall|k: int| 0 <= k < g implies (#[trigger] groups@[k]).key@ != key@ by {
                law_key_irreflexive(key@);
            }
        }
        if s < scenarios.len() {
            scenarios[s].entries.insert(key.label.clone(), stats);
        } else {
            let mut entries = Entries::new();
            entries.insert(key.label.clone(), stats);
            scenarios.push(
                GroupedScenario {
                    machine: key.machine.clone(),
                    mode: key.mode.clone(),
                    scenario: key.scenario.clone(),
                    entries,
                },
            );
        }
        proof {
            lemma_gathered(before, scenarios@, groups@, means@, g as int, s as int);
        }
        g = g + 1;
    }
    scenarios
}

/// The labels of a scenario; none behind the last.
spec fn labels_at(scenarios: Seq<GroupedScenario>, s: int) -> Seq<Seq<char>> {
    if s < scenarios.len() {
        scenarios[s].entries.labels()
    } else {
        Seq::empty()
    }
}

proof fn lemma_gathered(
    before: Seq<GroupedScenario>,
    after: Seq<GroupedScenario>,
    groups: Seq<Group>,
    means: Seq<u64>,
    g: int,
    s: int,
)
    requires
        gathered(before, groups, means, g),
        0 <= g < groups.len(),
        0 <= s <= before.len(),
        forall|k: int| 0 <= k < g ==> (#[trigger] groups[k]).key@ != groups[g].key@,
        forall|j: int|
            0 <= j < s ==> !is_group(
                #[trigger] before[j],
                groups[g].key@.machine,
                groups[g].key@.scenario,
                groups[g].key@.mode,
            ),
        after.len() == (if s < before.len() {
            before.len()
        } else {
            before.len() + 1
        }),
        forall|j: int| 0 <= j < before.len() && j != s ==> #[trigger] after[j] == before[j],
        is_group(
            after[s],
            groups[g].key@.machine,
            groups[g].key@.scenario,
            groups[g].key@.mode,
        ),
        s < before.len() ==> is_group(
            before[s],
            groups[g].key@.machine,
            groups[g].key@.scenario,
            groups[g].key@.mode,
        ),
        after[s].entries.wf(),
        ({
            let label = groups[g].key@.label;
            let held = labels_at(before, s);
            &&& forall|t: Seq<char>| #[trigger]
                after[s].entries.labels().contains(t) <==> held.contains(t) || t == label
            &&& forall|e: int|
                0 <= e < after[s].entries.labels().len() && after[s].entries.labels()[e] == label
                    ==> #[trigger] after[s].entries.stats()[e].mean_ops_per_sec == means[g]
            &&& forall|e: int, f: int|
                s < before.len() && 0 <= e < after[s].entries.labels().len() && 0 <= f < held.len()
                    && #[trigger] after[s].entries.labels()[e] == #[trigger] held[f]
                    && after[s].entries.labels()[e] != label ==> after[s].entries.stats()[e]
                    == before[s].entries.stats()[f]
        }),
    ensures
        gathered(after, groups, means, g + 1),
{
    let key = groups[g].key@;
    let n = g + 1;
    assert forall|j: int| 0 <= j < after.len() implies (#[trigger] after[j]).entries.wf() by {
        if j != s {
            assert(after[j] == before[j]);
        }
    }
    assert forall|a: int, b: int| 0 <= a < after.len() && 0 <= b < after.len() && a != b implies
        !is_group(
        #[trigger] after[a],
        (#[trigger] after[b]).machine@,
        after[b].scenario@,
        after[b].mode@,
    ) by {
        if s < before.len() {
            assert(is_group(after[a], after[b].machine@, after[b].scenario@, after[b].mode@)
                == is_group(
                before[a],
                before[b].machine@,
                before[b].scenario@,
                before[b].mode@,
            ));
        } else {
            if a != s && b != s {
                assert(after[a] == before[a]);
                assert(after[b] == before[b]);
            } else if a == s {
                assert(after[b] == before[b]);
                assert(!is_group(before[b], key.machine, key.scenario, key.mode));
            } else {
                assert(after[a] == before[a]);
            }
        }
    }
    assert forall|j: int, label: Seq<char>| 0 <= j < after.len() implies (
    #[trigger] after[j].entries.labels().contains(label) <==> exists|k: int|
        0 <= k < n && belongs(after[j], (#[trigger] groups[k]).key@, label)) by {
        if j == s {
            if s == before.len() {
                assert forall|k: int| 0 <= k < g implies !belongs(
                    after[s],
                    (#[trigger] groups[k]).key@,
                    label,
                ) by {
                    if belongs(after[s], groups[k].key@, label) {
                        let r = choose|r: int|
                            0 <= r < before.len() && is_group(
                                #[trigger] before[r],
                                groups[k].key@.machine,
                                groups[k].key@.scenario,
                                groups[k].key@.mode,
                            );
                        assert(is_group(before[r], key.machine, key.scenario, key.mode));
                    }
                }
            } else {
                assert(before[s].entries.labels().contains(label) <==> exists|k: int|
                    0 <= k < g && belongs(before[s], (#[trigger] groups[k]).key@, label));
                assert forall|k: int| belongs(after[s], (#[trigger] groups[k]).key@, label)
                    == belongs(before[s], groups[k].key@, label) by {}
            }
            if label == key.label {
                assert(belongs(after[s], groups[g].key@, label));
            }
            if after[s].entries.labels().contains(label) && label != key.label {
                let k = choose|k: int|
                    0 <= k < g && belongs(before[s], (#[trigger] groups[k]).key@, label);
                assert(belongs(after[s], groups[k].key@, label));
            }
            if exists|k: int| 0 <= k < n && belongs(after[s], (#[trigger] groups[k]).key@, label) {
                let k = choose|k: int|
                    0 <= k < n && belongs(after[s], (#[trigger] groups[k]).key@, label);
                if k < g {
                    assert(belongs(before[s], groups[k].key@, label));
                }
            }
        } else {
            assert(after[j] == before[j]);
            assert(!is_group(after[j], key.machine, key.scenario, key.mode)) by {
                assert(!is_group(
                    after[j],
                    after[s].machine@,
                    after[s].scenario@,
                    after[s].mode@,
                ));
            }
            assert(before[j].entries.labels().contains(label) <==> exists|k: int|
                0 <= k < g && belongs(before[j], (#[trigger] groups[k]).key@, label));
        }
    }
    assert forall|j: int, e: int, k: int|
        0 <= j < after.len() && 0 <= e < after[j].entries.labels().len() && 0 <= k < n && belongs(
            after[j],
            (#[trigger] groups[k]).key@,
            #[trigger] after[j].entries.labels()[e],
        ) implies after[j].entries.stats()[e].mean_ops_per_sec == means[k] by {
        let label = after[j].entries.labels()[e];
        if j == s {
            if k < g {
                assert(groups[k].key@ != key);
                assert(label != key.label);
                assert(after[s].entries.labels().contains(label));
                let held = labels_at(before, s);
                assert(held.contains(label));
                let f = choose|f: int| 0 <= f < held.len() && held[f] == label;
                assert(after[s].entries.labels()[e] == held[f]);
                assert(belongs(before[s], groups[k].key@, before[s].entries.labels()[f]));
            } else {
                assert(after[s].entries.stats()[e].mean_ops_per_sec == means[g]);
            }
        } else {
            assert(after[j] == before[j]);
            assert(!is_group(
                after[j],
                after[s].machine@,
                after[s].scenario@,
                after[s].mode@,
            ));
        }
    }
    assert forall|k: int| 0 <= k < n implies exists|r: int|
        0 <= r < after.len() && is_group(
            #[trigger] after[r],
            (#[trigger] groups[k]).key@.machine,
            groups[k].key@.scenario,
            groups[k].key@.mode,
        ) by {
        if k == g {
            assert(is_group(after[s], key.machine, key.scenario, key.mode));
        } else {
            let r = choose|r: int|
                0 <= r < before.len() && is_group(
                    #[trigger] before[r],
                    groups[k].key@.machine,
                    groups[k].key@.scenario,
                    groups[k].key@.mode,
                );
            assert(is_group(
                after[r],
                groups[k].key@.machine,
                groups[k].key@.scenario,
                groups[k].key@.mode,
            ));
        }
    }
}

/// Group `i` is the first for a machine, mode and scenario.
pub open spec fn grouped_at(
    groups: Seq<GroupedScenario>,
    machine: Seq<char>,
    scenario: Seq<char>,
    mode: Seq<char>,
    i: int,
) -> bool {
    &&& 0 <= i < groups.len()
    &&& is_group(groups[i], machine, scenario, mode)
    &&& forall|j: int| 0 <= j < i ==> !is_group(#[trigger] groups[j], machine, scenario, mode)
}

pub open spec fn is_group(
    group: GroupedScenario,
    machine: Seq<char>,
    scenario: Seq<char>,
    mode: Seq<char>,
) -> bool {
    group.machine@ == machine && group.mode@ == mode && group.scenario@ == scenario
}

/// Some entry is the best of those filed under the label of a configuration.
pub open spec fn has_winner(entries: Entries) -> bool {
    exists|i: int| wins(entries, i)
}

/// Plans the next round for a scenario on a machine. Where all measurements are
/// filed under short labels, they count for the configurations that these stand
/// for.
pub fn evaluate_scenario_round(
    machine_label: &str,
    scenario: &str,
    mode: &str,
    grouped: &Vec<GroupedScenario>,
    seed_label: Option<&str>,
) -> (plan: ScenarioRoundPlan)
    requires
        forall|i: int| 0 <= i < grouped@.len() ==> (#[trigger] grouped@[i]).entries.wf(),
    ensures
        ({
            let seed = match seed_label {
                Some(label) => Some(label@),
                None => None,
            };
            ||| exists|i: int|
                #![trigger grouped_at(grouped@, machine_label@, scenario@, mode@, i)]
                {
                    let entries = grouped@[i].entries;
                    &&& grouped_at(grouped@, machine_label@, scenario@, mode@, i)
                    &&& if has_winner(entries) {
                        plans(entries, seed, plan)
                    } else {
                        exists|spelled: Entries|
                            #![trigger spelled.wf()]
                            holds_spelled(entries, entries.labels().len() as int, spelled)
                                && plans(spelled, seed, plan)
                    }
                }
            ||| {
                &&& forall|i: int|
                    0 <= i < grouped@.len() ==> !is_group(
                        #[trigger] grouped@[i],
                        machine_label@,
                        scenario@,
                        mode@,
                    )
                &&& exists|empty: Entries|
                    #![trigger empty.wf()]
                    empty.wf() && empty.labels().len() == 0 && plans(empty, seed, plan)
            }
        }),
{
    let mut i: usize = 0;
    while i < grouped.len()
        invariant
            forall|i: int| 0 <= i < grouped@.len() ==> (#[trigger] grouped@[i]).entries.wf(),
            i <= grouped@.len(),
            forall|j: int|
                0 <= j < i ==> !is_group(
                    #[trigger] grouped@[j],
                    machine_label@,
                    scenario@,
                    mode@,
                ),
        decreases grouped@.len() - i,
    {
        let group = &grouped[i];
        if same(group.machine.as_str(), machine_label) && same(group.mode.as_str(), mode) && same(
            group.scenario.as_str(),
            scenario,
        ) {
            assert(grouped_at(grouped@, machine_label@, scenario@, mode@, i as int));
            if strict_immediate_winner_ubq_labels(&group.entries).is_some() {
                assert(has_winner(group.entries));
                return plan_round(&group.entries, seed_label);
            }
            assert(!has_winner(group.entries));
            let spelled = spell_out_entries(&group.entries);
            assert(spelled.wf());
            return plan_round(&spelled, seed_label);
        }
        i = i + 1;
    }
    let empty = Entries::new();
    plan_round(&empty, seed_label)
}

/// How far a scenario has come.
pub struct ScenarioState {
    pub completed: bool,
    pub rounds_run: usize,
    pub previous_missing_key: Option<String>,
    pub reason: Option<String>,
}

/// What a round decides for a scenario.
#[derive(Clone, Copy, Debug, PartialEq, Eq, Structural)]
pub enum Verdict {
    Complete,
    NoProgress,
    MissingSeed,
    NoLabels,
    Bench,
}

/// The characters of a key that may be missing.
pub open spec fn key_text(key: Option<String>) -> Option<Seq<char>> {
    match key {
        Some(key) => Some(key@),
        None => None,
    }
}

/// What a plan decides for a scenario in a state.
pub open spec fn verdict(state: ScenarioState, plan: ScenarioRoundPlan) -> Verdict {
    if plan.complete {
        Verdict::Complete
    } else if plan.missing_key is Some && key_text(state.previous_missing_key) == key_text(
        plan.missing_key,
    ) {
        Verdict::NoProgress
    } else if plan.plan_labels@.len() > 0 {
        Verdict::Bench
    } else if plan.unresolved_no_seed {
        Verdict::MissingSeed
    } else {
        Verdict::NoLabels
    }
}

/// Why a scenario is left alone after a verdict.
pub open spec fn reason_of(verdict: Verdict) -> Option<Seq<char>> {
    match verdict {
        Verdict::Complete => Some("complete"@),
        Verdict::NoProgress => Some("no-progress"@),
        Verdict::MissingSeed => Some("missing-seed"@),
        Verdict::NoLabels => Some("no-labels"@),
        Verdict::Bench => None,
    }
}

/// What a scenario has come to once a plan was decided on.
pub open spec fn decided(
    before: ScenarioState,
    plan: ScenarioRoundPlan,
    after: ScenarioState,
) -> bool {
    let result = verdict(before, plan);
    &&& after.completed == (before.completed || result == Verdict::Complete)
    &&& after.rounds_run == before.rounds_run + (if result == Verdict::Bench {
        1int
    } else {
        0int
    })
    &&& key_text(after.previous_missing_key) == (if result == Verdict::Complete || result
        == Verdict::NoProgress {
        key_text(before.previous_missing_key)
    } else {
        key_text(plan.missing_key)
    })
    &&& key_text(after.reason) == (match reason_of(result) {
        Some(text) => Some(text),
        None => key_text(before.reason),
    })
}

impl ScenarioState {
    pub fn new() -> (state: ScenarioState)
        ensures
            !state.completed,
            state.rounds_run == 0,
            state.previous_missing_key is None,
            state.reason is None,
    {
        ScenarioState {
            completed: false,
            rounds_run: 0,
            previous_missing_key: None,
            reason: None,
        }
    }

    /// Decides what a plan means for the scenario and notes it.
    pub fn decide(&mut self, plan: &ScenarioRoundPlan) -> (result: Verdict)
        requires
            old(self).rounds_run < usize::MAX,
        ensures
            result == verdict(*old(self), *plan),
            decided(*old(self), *plan, *final(self)),
    {
        if plan.complete {
            self.completed = true;
            self.reason = Some("complete".to_owned());
            return Verdict::Complete;
        }
        let stuck = match (&self.previous_missing_key, &plan.missing_key) {
            (Some(previous), Some(current)) => has_no_progress(
                Some(previous.as_str()),
                Some(current.as_str()),
            ),
            _ => false,
        };
        if stuck {
            self.reason = Some("no-progress".to_owned());
            return Verdict::NoProgress;
        }
        self.previous_missing_key =
        match &plan.missing_key {
            Some(key) => Some(key.clone()),
            None => None,
        };
        if plan.plan_labels.len() == 0 {
            if plan.unresolved_no_seed {
                self.reason = Some("missing-seed".to_owned());
                return Verdict::MissingSeed;
            }
            self.reason = Some("no-labels".to_owned());
            return Verdict::NoLabels;
        }
        self.rounds_run = self.rounds_run + 1;
        Verdict::Bench
    }
}

/// A search over several scenarios, and which of them go on.
pub struct Search {
    pub scenarios: Vec<String>,
    pub states: Vec<ScenarioState>,
    pub active: Vec<bool>,
    pub rounds: usize,
}

/// What a round decided: for every scenario that went on its verdict, and the
/// scenarios with something to measure.
pub struct Round {
    pub verdicts: Vec<Option<Verdict>>,
    pub planned: Vec<usize>,
}

/// The places at which a list says yes, in order.
pub open spec fn chosen(flags: Seq<bool>) -> Seq<usize>
    decreases flags.len(),
{
    if flags.len() == 0 {
        Seq::empty()
    } else {
        let rest = chosen(flags.drop_last());
        if flags.last() {
            rest.push((flags.len() - 1) as usize)
        } else {
            rest
        }
    }
}

/// When a round plans nothing, no scenario goes on.
pub proof fn law_nothing_planned_ends_the_search(flags: Seq<bool>)
    ensures
        chosen(flags).len() == 0 <==> forall|i: int| 0 <= i < flags.len() ==> !flags[i],
    decreases flags.len(),
{
    if flags.len() > 0 {
        let rest = flags.drop_last();
        law_nothing_planned_ends_the_search(rest);
        assert(flags.last() == flags[flags.len() - 1]);
        assert forall|i: int| 0 <= i < rest.len() implies rest[i] == flags[i] by {}
        if chosen(flags).len() == 0 {
            assert forall|i: int| 0 <= i < flags.len() implies !flags[i] by {
                if i < rest.len() {
                    assert(!rest[i]);
                }
            }
        }
        if forall|i: int| 0 <= i < flags.len() ==> !flags[i] {
            assert forall|i: int| 0 <= i < rest.len() implies !rest[i] by {
                assert(!flags[i]);
            }
        }
    }
}

impl Search {
    pub open spec fn wf(&self) -> bool {
        &&& self.states@.len() == self.scenarios@.len()
        &&& self.active@.len() == self.scenarios@.len()
        &&& forall|i: int|
            0 <= i < self.states@.len() ==> (#[trigger] self.states@[i]).rounds_run <= self.rounds
    }

    /// A search in which every scenario is still to be looked at.
    pub fn new(scenarios: Vec<String>) -> (search: Search)
        ensures
            search.wf(),
            search.scenarios == scenarios,
            search.rounds == 0,
            forall|i: int| 0 <= i < search.active@.len() ==> #[trigger] search.active@[i],
            forall|i: int|
                0 <= i < search.states@.len() ==> !(#[trigger] search.states@[i]).completed
                    && search.states@[i].rounds_run == 0 && search.states@[i].reason is None
                    && search.states@[i].previous_missing_key is None,
    {
        let mut states: Vec<ScenarioState> = Vec::new();
        let mut active: Vec<bool> = Vec::new();
        while states.len() < scenarios.len()
            invariant
                states@.len() == active@.len(),
                states@.len() <= scenarios@.len(),
                forall|i: int| 0 <= i < active@.len() ==> #[trigger] active@[i],
                forall|i: int|
                    0 <= i < states@.len() ==> !(#[trigger] states@[i]).completed
                        && states@[i].rounds_run == 0 && states@[i].reason is None
                        && states@[i].previous_missing_key is None,
            decreases scenarios@.len() - states@.len(),
        {
            states.push(ScenarioState::new());
            active.push(true);
        }
        Search { scenarios, states, active, rounds: 0 }
    }

    /// One round: decides on a plan for every scenario that goes on. Those with
    /// nothing to measure stop.
    pub fn run_round(&mut self, plans: &Vec<ScenarioRoundPlan>) -> (round: Round)
        requires
            old(self).wf(),
            plans@.len() == old(self).scenarios@.len(),
            old(self).rounds < usize::MAX,
        ensures
            final(self).wf(),
            final(self).scenarios == old(self).scenarios,
            final(self).rounds == old(self).rounds + 1,
            forall|i: int|
                0 <= i < plans@.len() ==> #[trigger] final(self).active@[i] == (old(self).active@[i]
                    && verdict(old(self).states@[i], plans@[i]) == Verdict::Bench),
            forall|i: int|
                0 <= i < plans@.len() ==> if old(self).active@[i] {
                    decided(old(self).states@[i], plans@[i], #[trigger] final(self).states@[i])
                } else {
                    final(self).states@[i] == old(self).states@[i]
                },
            round.planned@ == chosen(final(self).active@),
            round.verdicts@.len() == plans@.len(),
            forall|i: int|
                0 <= i < plans@.len() ==> #[trigger] round.verdicts@[i] == (if old(
                    self,
                ).active@[i] {
                    Some(verdict(old(self).states@[i], plans@[i]))
                } else {
                    None
                }),
    {
        let mut verdicts: Vec<Option<Verdict>> = Vec::new();
        let mut planned: Vec<usize> = Vec::new();
        let mut i: usize = 0;
        let ghost before = *self;
        self.rounds = self.rounds + 1;
        assert(self.active@.take(0) =~= Seq::<bool>::empty());
        while i < plans.len()
            invariant
                before == *old(self),
                before.wf(),
                self.scenarios == before.scenarios,
                self.rounds == before.rounds + 1,
                plans@.len() == before.scenarios@.len(),
                self.states@.len() == plans@.len(),
                self.active@.len() == plans@.len(),
                i <= plans@.len(),
                forall|j: int|
                    0 <= j < i ==> #[trigger] self.active@[j] == (before.active@[j] && verdict(
                        before.states@[j],
                        plans@[j],
                    ) == Verdict::Bench),
                forall|j: int|
                    0 <= j < i ==> if before.active@[j] {
                        decided(before.states@[j], plans@[j], #[trigger] self.states@[j])
                    } else {
                        self.states@[j] == before.states@[j]
                    },
                forall|j: int|
                    i <= j < plans@.len() ==> #[trigger] self.active@[j] == before.active@[j],
                forall|j: int|
                    i <= j < plans@.len() ==> #[trigger] self.states@[j] == before.states@[j],
                planned@ == chosen(self.active@.take(i as int)),
                verdicts@.len() == i,
                forall|j: int|
                    0 <= j < i ==> #[trigger] verdicts@[j] == (if before.active@[j] {
                        Some(verdict(before.states@[j], plans@[j]))
                    } else {
                        None
                    }),
            decreases plans@.len() - i,
        {
            let ghost flags = self.active@;
            assert(self.states@[i as int].rounds_run <= before.rounds);
            if self.active[i] {
                let result = self.states[i].decide(&plans[i]);
                verdicts.push(Some(result));
                if result == Verdict::Bench {
                    planned.push(i);
                } else {
                    self.active.set(i, false);
                }
            } else {
                verdicts.push(None);
            }
            proof {
                let next = self.active@.take(i + 1);
                assert(next.drop_last() =~= flags.take(i as int));
                assert(next.last() == self.active@[i as int]);
            }
            i = i + 1;
        }
        assert(self.active@.take(i as int) =~= self.active@);
        proof {
            assert forall|j: int| 0 <= j < self.states@.len() implies (
            #[trigger] self.states@[j]).rounds_run <= self.rounds by {
                assert(before.states@[j].rounds_run <= before.rounds);
                if before.active@[j] {
                    assert(decided(before.states@[j], plans@[j], self.states@[j]));
                }
            }
        }
        Round { verdicts, planned }
    }

    /// The scenarios that go on, in order.
    pub fn going_on(&self) -> (list: Vec<usize>)
        requires
            self.wf(),
        ensures
            list@ == chosen(self.active@),
    {
        let mut list: Vec<usize> = Vec::new();
        let mut i: usize = 0;
        assert(self.active@.take(0) =~= Seq::<bool>::empty());
        while i < self.active.len()
            invariant
                i <= self.active@.len(),
                list@ == chosen(self.active@.take(i as int)),
            decreases self.active@.len() - i,
        {
            proof {
                let next = self.active@.take(i + 1);
                assert(next.drop_last() =~= self.active@.take(i as int));
                assert(next.last() == self.active@[i as int]);
            }
            if self.active[i] {
                list.push(i);
            }
            i = i + 1;
        }
        assert(self.active@.take(i as int) =~= self.active@);
        list
    }
}

/// The scenarios that have not been completed.
pub open spec fn unfinished(list: Seq<Seq<char>>, states: Seq<ScenarioState>) -> Seq<Seq<char>>
    decreases list.len(),
{
    if list.len() == 0 {
        Seq::empty()
    } else {
        let rest = unfinished(list.drop_last(), states);
        if states[list.len() - 1].completed {
            rest
        } else {
            rest.push(list.last())
        }
    }
}

pub fn incomplete_scenarios(scenarios: &Vec<String>, states: &Vec<ScenarioState>) -> (list: Vec<
    String,
>)
    requires
        scenarios@.len() == states@.len(),
    ensures
        texts(list@) == unfinished(texts(scenarios@), states@),
{
    let ghost all = texts(scenarios@);
    let mut list: Vec<String> = Vec::new();
    let mut i: usize = 0;
    assert(all.take(0) =~= Seq::<Seq<char>>::empty());
    assert(texts(list@) =~= Seq::<Seq<char>>::empty());
    while i < scenarios.len()
        invariant
            all == texts(scenarios@),
            scenarios@.len() == states@.len(),
            i <= scenarios@.len(),
            texts(list@) == unfinished(all.take(i as int), states@),
        decreases scenarios@.len() - i,
    {
        let ghost before = texts(list@);
        proof {
            assert(all.take(i + 1).drop_last() =~= all.take(i as int));
            assert(all.take(i + 1).last() == scenarios@[i as int]@);
        }
        if !states[i].completed {
            list.push(scenarios[i].clone());
            assert(texts(list@) =~= before.push(scenarios@[i as int]@));
        }
        i = i + 1;
    }
    assert(all.take(i as int) =~= all);
    list
}

/// How the search ends.
pub fn search_result(incomplete: usize, allow_incomplete: bool) -> (result: Result<(), String>)
    ensures
        result is Ok <==> incomplete == 0 || allow_incomplete,
        result matches Err(message) ==> message@ == "incomplete scenarios remained"@,
{
    if incomplete > 0 && !allow_incomplete {
        Err("incomplete scenarios remained".to_owned())
    } else {
        Ok(())
    }
}

/// What a host can run is what it has threads enough for, and what it cannot run
/// is the rest, both in their order.
pub proof fn law_a_host_runs_what_it_has_threads_for(list: Seq<Seq<char>>, threads: int)
    ensures
        fitting(list, threads, true) == list.filter(
            |s: Seq<char>|
                scenario_threads(s) is None || (scenario_threads(s)->0).0 + (scenario_threads(s)->0).1
                    <= threads,
        ),
        fitting(list, threads, false) == list.filter(
            |s: Seq<char>|
                scenario_threads(s) is Some && (scenario_threads(s)->0).0 + (scenario_threads(s)->0).1
                    > threads,
        ),
    decreases list.len(),
{
    reveal(Seq::filter);
    if list.len() > 0 {
        law_a_host_runs_what_it_has_threads_for(list.drop_last(), threads);
    }
}

/// The places of a list that are chosen rise, and are exactly those at which it
/// says yes.
pub proof fn law_chosen_places(flags: Seq<bool>)
    requires
        flags.len() <= usize::MAX,
    ensures
        forall|i: int, j: int|
            0 <= i < j < chosen(flags).len() ==> #[trigger] chosen(flags)[i] < #[trigger] chosen(
                flags,
            )[j],
        forall|k: int|
            0 <= k < chosen(flags).len() ==> (#[trigger] chosen(flags)[k]) < flags.len()
                && flags[chosen(flags)[k] as int],
        forall|i: int|
            0 <= i < flags.len() && #[trigger] flags[i] ==> chosen(flags).contains(i as usize),
    decreases flags.len(),
{
    let all = chosen(flags);
    if flags.len() > 0 {
        let rest = flags.drop_last();
        law_chosen_places(rest);
        let before = chosen(rest);
        assert forall|k: int| 0 <= k < all.len() implies (#[trigger] all[k]) < flags.len()
            && flags[all[k] as int] by {
            if k < before.len() {
                assert(all[k] == before[k]);
                assert(rest[before[k] as int]);
            }
        }
        assert forall|i: int, j: int| 0 <= i < j < all.len() implies #[trigger] all[i]
            < #[trigger] all[j] by {
            assert(all[i] == before[i]);
            if j < before.len() {
                assert(all[j] == before[j]);
            }
        }
        assert forall|i: int| 0 <= i < flags.len() && #[trigger] flags[i] implies all.contains(
            i as usize,
        ) by {
            if i < rest.len() {
                assert(rest[i]);
                let k = before.index_of(i as usize);
                assert(all[k] == i as usize);
            } else {
                assert(all[all.len() - 1] == i as usize);
            }
        }
    }
}

/// A round plans exactly what the winner is to be compared with and what has not
/// been measured, and there is something to plan until all of it has been.
pub proof fn law_a_round_plans_what_is_missing(
    entries: Entries,
    seed: Option<Seq<char>>,
    plan: ScenarioRoundPlan,
    i: int,
    label: Seq<char>,
)
    requires
        plans(entries, seed, plan),
        wins(entries, i),
    ensures
        texts(plan.plan_labels@).contains(label) <==> {
            &&& is_required(
                entries.labels()[i],
                configuration(entries.labels()[i])->0,
                "ubq_"@ + label,
            )
            &&& !entries.labels().contains("ubq_"@ + label)
        },
        texts(plan.plan_labels@).no_duplicates(),
        labels_sorted(texts(plan.plan_labels@)),
        plan.complete <==> plan.plan_labels@.len() == 0,
        !plan.unresolved_no_seed,
{
    let at = choose|i: int| wins(entries, i);
    law_one_winner(entries, i, at);
    let winner = entries.labels()[i];
    let parts = configuration(winner)->0;
    let labels = texts(plan.plan_labels@);
    assert(labels.len() == plan.plan_labels@.len());
    if complete(entries) {
        let j = choose|j: int|
            #![trigger wins(entries, j)]
            {
                &&& wins(entries, j)
                &&& forall|t: Seq<char>|
                    is_required(entries.labels()[j], configuration(entries.labels()[j])->0, t)
                        ==> #[trigger] entries.labels().contains(t)
            };
        law_one_winner(entries, i, j);
        assert(entries.labels().contains("ubq_"@ + label) || !is_required(
            winner,
            parts,
            "ubq_"@ + label,
        ));
    } else {
        assert(labels.contains(label) <==> is_missing(entries, winner, label));
        assert(exists|t: Seq<char>|
            is_required(winner, parts, t) && !#[trigger] entries.labels().contains(t));
        let t = choose|t: Seq<char>|
            is_required(winner, parts, t) && !#[trigger] entries.labels().contains(t);
        assert(entries.labels().contains(winner));
        let k = choose|k: int|
            0 <= k < variants(parts).len() && is_valid(#[trigger] variants(parts)[k]) && t
                == entry_label(variants(parts)[k]);
        let rest = variants(parts)[k].written(","@);
        assert(t == "ubq_"@ + rest);
        assert(is_missing(entries, winner, rest));
        assert(labels.contains(rest));
    }
}

/// Where nothing has been measured that could be the winner, the seed is planned
/// and nothing else, and without a seed there is nothing to plan.
pub proof fn law_a_search_begins_with_the_seed(
    entries: Entries,
    seed: Option<Seq<char>>,
    plan: ScenarioRoundPlan,
)
    requires
        plans(entries, seed, plan),
        forall|j: int|
            0 <= j < entries.labels().len() ==> configuration(#[trigger] entries.labels()[j])
                is None,
    ensures
        !plan.complete,
        seed is Some ==> texts(plan.plan_labels@) == seq![seed->0] && !plan.unresolved_no_seed,
        seed is None ==> plan.plan_labels@.len() == 0 && plan.unresolved_no_seed,
{
    assert forall|i: int| !wins(entries, i) by {
        if wins(entries, i) {
            assert(configuration(entries.labels()[i]) is Some);
        }
    }
    assert(texts(plan.plan_labels@).len() == plan.plan_labels@.len());
}

/// Labels that can be built sort by preset, pool size, block length and backoff,
/// in the order in which the values of each are listed.
pub proof fn law_labels_sort_by_their_fields(a: LabelParts, b: LabelParts, i: int, j: int, k: int, l: int)
    requires
        is_valid(a),
        is_valid(b),
        ({
            let names = seq![
                "aggressive_prepare"@,
                "balanced"@,
                "pool_conservative"@,
                "no_pool"@,
                "consumer_pool_only"@,
            ];
            let waits = seq!["crossbeam"@, "yield"@];
            &&& 0 <= i < 5 && a.preset == names[i]
            &&& 0 <= j < 5 && b.preset == names[j]
            &&& 0 <= k < 2 && a.backoff == waits[k]
            &&& 0 <= l < 2 && b.backoff == waits[l]
        }),
    ensures
        label_before(a.written(","@), b.written(","@)) <==> {
            ||| i < j
            ||| i == j && a.pool < b.pool
            ||| i == j && a.pool == b.pool && a.block < b.block
            ||| i == j && a.pool == b.pool && a.block == b.block && k < l
        },
{
    reveal(label_key);
    crate::tooling::search::law_a_label_is_read_back(a);
    crate::tooling::search::law_a_label_is_read_back(b);
    reveal_strlit("aggressive_prepare");
    reveal_strlit("balanced");
    reveal_strlit("pool_conservative");
    reveal_strlit("no_pool");
    reveal_strlit("consumer_pool_only");
    reveal_strlit("crossbeam");
    reveal_strlit("yield");
    assert("aggressive_prepare"@[0] != "consumer_pool_only"@[0]);
    assert("aggressive_prepare"@.len() == 18);
    assert("balanced"@.len() == 8);
    assert("pool_conservative"@.len() == 17);
    assert("no_pool"@.len() == 7);
    assert("consumer_pool_only"@.len() == 18);
    assert("crossbeam"@.len() == 9);
    assert("yield"@.len() == 5);
    assert(presets()[i] == a.preset && presets()[j] == b.preset);
    assert(backoffs()[k] == a.backoff && backoffs()[l] == b.backoff);
    order::lemma_first_position(presets(), a.preset, i);
    order::lemma_first_position(presets(), b.preset, j);
    order::lemma_first_position(backoffs(), a.backoff, k);
    order::lemma_first_position(backoffs(), b.backoff, l);
    order::law_precedes_irreflexive(a.backoff);
}

/// A scenario goes on exactly while a round has something to measure for it and
/// does not lack the same as the round before.
pub proof fn law_a_scenario_goes_on_while_it_learns(state: ScenarioState, plan: ScenarioRoundPlan)
    ensures
        verdict(state, plan) == Verdict::Bench <==> {
            &&& !plan.complete
            &&& plan.plan_labels@.len() > 0
            &&& plan.missing_key is None || state.previous_missing_key is None
                || plan.missing_key->0@ != state.previous_missing_key->0@
        },
        verdict(state, plan) == Verdict::Complete <==> plan.complete,
        reason_of(verdict(state, plan)) is None <==> verdict(state, plan) == Verdict::Bench,
{
}

/// The scenarios that are left are those that have not been completed, in their
/// order.
pub proof fn law_unfinished_scenarios(list: Seq<Seq<char>>, states: Seq<ScenarioState>)
    requires
        list.len() <= states.len(),
    ensures
        forall|i: int|
            0 <= i < list.len() && !(#[trigger] states[i]).completed ==> unfinished(
                list,
                states,
            ).contains(list[i]),
        forall|k: int|
            0 <= k < unfinished(list, states).len() ==> exists|i: int|
                0 <= i < list.len() && !(#[trigger] states[i]).completed && list[i]
                    == #[trigger] unfinished(list, states)[k],
        unfinished(list, states).len() == 0 <==> forall|i: int|
            0 <= i < list.len() ==> (#[trigger] states[i]).completed,
    decreases list.len(),
{
    let all = unfinished(list, states);
    if list.len() > 0 {
        let rest = list.drop_last();
        law_unfinished_scenarios(rest, states);
        let before = unfinished(rest, states);
        assert forall|i: int| 0 <= i < list.len() && !(
        #[trigger] states[i]).completed implies all.contains(list[i]) by {
            if i < rest.len() {
                assert(before.contains(rest[i]));
                let k = before.index_of(list[i]);
                assert(all[k] == list[i]);
            } else {
                assert(all[all.len() - 1] == list[i]);
            }
        }
        assert forall|k: int| 0 <= k < all.len() implies exists|i: int|
            0 <= i < list.len() && !(#[trigger] states[i]).completed && list[i]
                == #[trigger] all[k] by {
            if k < before.len() {
                assert(all[k] == before[k]);
                let i = choose|i: int|
                    0 <= i < rest.len() && !(#[trigger] states[i]).completed && rest[i]
                        == before[k];
                assert(list[i] == rest[i]);
            } else {
                assert(!states[list.len() - 1].completed);
            }
        }
        if all.len() > 0 {
            let i = choose|i: int|
                0 <= i < list.len() && !(#[trigger] states[i]).completed && list[i] == all[0];
            assert(!states[i].completed);
        }
    }
}

/// A scenario that is measured has one round more behind it and remembers what it
/// lacked; it stays incomplete until a plan finds it complete, and is never made
/// incomplete again.
pub proof fn law_what_a_round_leaves(
    before: ScenarioState,
    plan: ScenarioRoundPlan,
    after: ScenarioState,
)
    requires
        decided(before, plan, after),
    ensures
        after.completed <==> before.completed || plan.complete,
        verdict(before, plan) == Verdict::Bench ==> {
            &&& after.rounds_run == before.rounds_run + 1
            &&& plan.missing_key is Some ==> after.previous_missing_key is Some
                && after.previous_missing_key->0@ == plan.missing_key->0@
            &&& after.reason is Some <==> before.reason is Some
        },
        verdict(before, plan) != Verdict::Bench ==> after.rounds_run == before.rounds_run
            && after.reason is Some,
        plan.complete ==> after.reason is Some && after.reason->0@ == "complete"@,
{
}

} // verus!
