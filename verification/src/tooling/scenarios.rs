//! The scenarios of a benchmark.
use vstd::prelude::*;

use crate::order;
use crate::text::{decimal, folded, lower_char, lowered, texts, trim_end, trim_start, trimmed};
use crate::tooling::fleet::{add_distinct, distinct, law_distinct};
use crate::tooling::search::{
    law_thread_counts_are_read_back, normalize_scenario, parse_csv_list, scenario_key,
    scenario_name, scenario_sort_key, scenario_threads, trimmed_items,
};

verus! {

/// The scenarios that are run unless others are asked for.
pub open spec fn default_scenarios() -> Seq<Seq<char>> {
    seq![
        "1p1c"@,
        "4p1c"@,
        "1p4c"@,
        "4p4c"@,
        "8p1c"@,
        "8p4c"@,
        "8p8c"@,
        "1p8c"@,
        "4p8c"@,
        "16p1c"@,
        "1p16c"@,
        "8p16c"@,
        "16p8c"@,
        "16p16c"@,
        "32p1c"@,
        "1p32c"@,
        "16p32c"@,
        "32p16c"@,
        "32p32c"@,
        "64p1c"@,
        "1p64c"@,
        "32p64c"@,
        "64p32c"@,
        "64p64c"@,
    ]
}

fn default_scenario_values() -> (list: Vec<String>)
    ensures
        texts(list@) == default_scenarios(),
{
    let names: [&str; 24] = [
        "1p1c",
        "4p1c",
        "1p4c",
        "4p4c",
        "8p1c",
        "8p4c",
        "8p8c",
        "1p8c",
        "4p8c",
        "16p1c",
        "1p16c",
        "8p16c",
        "16p8c",
        "16p16c",
        "32p1c",
        "1p32c",
        "16p32c",
        "32p16c",
        "32p32c",
        "64p1c",
        "1p64c",
        "32p64c",
        "64p32c",
        "64p64c",
    ];
    let mut list: Vec<String> = Vec::new();
    let mut i: usize = 0;
    while i < 24
        invariant
            i <= 24,
            list@.len() == i,
            forall|j: int| 0 <= j < i ==> #[trigger] list@[j]@ == names@[j]@,
        decreases 24 - i,
    {
        list.push(names[i].to_owned());
        i = i + 1;
    }
    assert(texts(list@) =~= default_scenarios());
    list
}

/// The scenario names of a list.
pub open spec fn scenario_names(list: Seq<Seq<char>>) -> Seq<Seq<char>> {
    list.map_values(|name: Seq<char>| scenario_name(name))
}

/// The scenarios that are asked for, before repetitions are dropped.
pub open spec fn requested_scenarios(raw: Option<&str>) -> Seq<Seq<char>> {
    match raw {
        Some(text) => scenario_names(trimmed_items(crate::text::split(text@, ','))),
        None => default_scenarios(),
    }
}

/// The order of two sort keys.
pub open spec fn key_before(a: (int, int, int, Seq<char>), b: (int, int, int, Seq<char>)) -> bool {
    ||| a.0 < b.0
    ||| a.0 == b.0 && a.1 < b.1
    ||| a.0 == b.0 && a.1 == b.1 && a.2 < b.2
    ||| a.0 == b.0 && a.1 == b.1 && a.2 == b.2 && order::precedes(a.3, b.3)
}

/// Scenario `a` comes before scenario `b`.
pub open spec fn scenario_before(a: Seq<char>, b: Seq<char>) -> bool {
    key_before(scenario_key(a), scenario_key(b))
}

/// No scenario stands behind one that it comes before.
pub open spec fn scenarios_sorted(list: Seq<Seq<char>>) -> bool {
    forall|i: int, j: int|
        0 <= i < j < list.len() ==> !scenario_before(#[trigger] list[j], #[trigger] list[i])
}

/// The order of scenarios is transitive.
pub proof fn law_scenario_order_transitive(a: Seq<char>, b: Seq<char>, c: Seq<char>)
    requires
        !scenario_before(b, a),
        !scenario_before(c, b),
    ensures
        !scenario_before(c, a),
{
    let x = scenario_key(a);
    let y = scenario_key(b);
    let z = scenario_key(c);
    order::law_precedes_total(x.3, y.3);
    order::law_precedes_total(y.3, z.3);
    order::law_precedes_irreflexive(x.3);
    if order::precedes(z.3, x.3) {
        if order::precedes(x.3, y.3) {
            order::law_precedes_transitive(z.3, x.3, y.3);
        }
        if order::precedes(y.3, z.3) {
            order::law_precedes_transitive(y.3, z.3, x.3);
        }
    }
}

fn comes_before(a: &str, b: &str) -> (before: bool)
    ensures
        before == scenario_before(a@, b@),
{
    let x = scenario_sort_key(a);
    let y = scenario_sort_key(b);
    if x.0 != y.0 {
        return x.0 < y.0;
    }
    if x.1 != y.1 {
        return x.1 < y.1;
    }
    if x.2 != y.2 {
        return x.2 < y.2;
    }
    proof {
        order::law_precedes_irreflexive(x.3@);
    }
    match order::side(x.3.as_str(), y.3.as_str()) {
        order::Side::Before => true,
        order::Side::Same => false,
        order::Side::After => {
            proof {
                if order::precedes(x.3@, y.3@) {
                    order::law_precedes_transitive(x.3@, y.3@, x.3@);
                }
            }
            false
        },
    }
}

/// Puts a scenario into a sorted list, behind those that are equal to it.
fn insert_scenario(list: &mut Vec<String>, value: String)
    requires
        scenarios_sorted(texts(old(list)@)),
    ensures
        scenarios_sorted(texts(final(list)@)),
        exists|i: int|
            0 <= i <= old(list)@.len() && texts(final(list)@) == #[trigger] texts(
                old(list)@,
            ).insert(i, value@),
{
    let ghost before = texts(list@);
    let ghost text = value@;
    let mut i: usize = 0;
    while i < list.len() && !comes_before(value.as_str(), list[i].as_str())
        invariant
            list@ == old(list)@,
            before == texts(list@),
            text == value@,
            scenarios_sorted(before),
            i <= list@.len(),
            forall|j: int| 0 <= j < i ==> !scenario_before(text, #[trigger] before[j]),
        decreases list@.len() - i,
    {
        assert(before[i as int] == list@[i as int]@);
        i = i + 1;
    }
    list.insert(i, value);
    let ghost after = before.insert(i as int, text);
    proof {
        assert(texts(list@) =~= after);
        assert forall|x: int, y: int| 0 <= x < y < after.len() implies !scenario_before(
            #[trigger] after[y],
            #[trigger] after[x],
        ) by {
            if y == i {
                assert(after[x] == before[x]);
            } else if x == i {
                assert(after[y] == before[y - 1]);
                assert(before[i as int] == old(list)@[i as int]@);
                assert(scenario_before(text, before[i as int]));
                if y - 1 > i {
                    assert(!scenario_before(before[y - 1], before[i as int]));
                }
                lemma_asymmetric(text, before[i as int]);
                if y - 1 > i {
                    law_scenario_order_transitive(text, before[i as int], before[y - 1]);
                }
            } else {
                let a = if x < i {
                    x
                } else {
                    x - 1
                };
                let b = if y < i {
                    y
                } else {
                    y - 1
                };
                assert(after[x] == before[a] && after[y] == before[b]);
            }
        }
    }
}

proof fn lemma_asymmetric(a: Seq<char>, b: Seq<char>)
    requires
        scenario_before(a, b),
    ensures
        !scenario_before(b, a),
{
    let x = scenario_key(a);
    let y = scenario_key(b);
    if order::precedes(x.3, y.3) && order::precedes(y.3, x.3) {
        order::law_precedes_transitive(x.3, y.3, x.3);
        order::law_precedes_irreflexive(x.3);
    }
}

proof fn lemma_contains_insert(list: Seq<Seq<char>>, i: int, value: Seq<char>)
    requires
        0 <= i <= list.len(),
        list.no_duplicates(),
        !list.contains(value),
    ensures
        list.insert(i, value).no_duplicates(),
        forall|t: Seq<char>| #[trigger]
            list.insert(i, value).contains(t) <==> list.contains(t) || t == value,
{
    let after = list.insert(i, value);
    assert forall|t: Seq<char>| #[trigger] after.contains(t) <==> list.contains(t) || t
        == value by {
        if list.contains(t) {
            let k = list.index_of(t);
            if k < i {
                assert(after[k] == t);
            } else {
                assert(after[k + 1] == t);
            }
        }
        if t == value {
            assert(after[i] == t);
        }
        if after.contains(t) {
            let k = after.index_of(t);
            if k < i {
                assert(list[k] == t);
            } else if k > i {
                assert(list[k - 1] == t);
            }
        }
    }
    assert forall|x: int, y: int|
        0 <= x < after.len() && 0 <= y < after.len() && x != y implies after[x] != after[y] by {
        let a = if x < i {
            x
        } else {
            x - 1
        };
        let b = if y < i {
            y
        } else {
            y - 1
        };
        if x != i {
            assert(after[x] == list[a]);
            assert(list.contains(list[a]));
        }
        if y != i {
            assert(after[y] == list[b]);
            assert(list.contains(list[b]));
        }
    }
}

/// The scenarios to run: those of a comma-separated list or the usual ones,
/// each once, by producer count, then consumer count, then name.
pub fn parse_scenarios(raw: Option<&str>) -> (list: Vec<String>)
    ensures
        scenarios_sorted(texts(list@)),
        texts(list@).no_duplicates(),
        forall|t: Seq<char>| #[trigger]
            texts(list@).contains(t) <==> requested_scenarios(raw).contains(t) && t.len() > 0,
{
    let mut source: Vec<String> = Vec::new();
    match raw {
        Some(text) => {
            let items = parse_csv_list(text);
            let ghost all = trimmed_items(crate::text::split(text@, ','));
            let mut i: usize = 0;
            while i < items.len()
                invariant
                    texts(items@) == all,
                    i <= items@.len(),
                    source@.len() == i,
                    forall|j: int| 0 <= j < i ==> #[trigger] source@[j]@ == scenario_name(all[j]),
                decreases items@.len() - i,
            {
                assert(all[i as int] == items@[i as int]@);
                source.push(normalize_scenario(items[i].as_str()));
                i = i + 1;
            }
            assert(texts(source@) =~= scenario_names(all));
        },
        None => {
            source = default_scenario_values();
        },
    }
    let ghost wanted = requested_scenarios(raw);
    assert(texts(source@) == wanted);
    let mut seen: Vec<String> = Vec::new();
    let mut list: Vec<String> = Vec::new();
    let mut i: usize = 0;
    assert(wanted.take(0) =~= Seq::<Seq<char>>::empty());
    assert(texts(seen@) =~= Seq::<Seq<char>>::empty());
    assert(texts(list@) =~= Seq::<Seq<char>>::empty());
    while i < source.len()
        invariant
            texts(source@) == wanted,
            i <= source@.len(),
            texts(seen@) == distinct(wanted.take(i as int)),
            texts(list@).no_duplicates(),
            scenarios_sorted(texts(list@)),
            forall|t: Seq<char>| #[trigger]
                texts(list@).contains(t) <==> texts(seen@).contains(t),
        decreases source@.len() - i,
    {
        let ghost known = texts(seen@);
        let ghost sorted = texts(list@);
        let ghost name = source@[i as int]@;
        proof {
            assert(wanted.take(i + 1).drop_last() =~= wanted.take(i as int));
            assert(wanted.take(i + 1).last() == name);
        }
        let before: usize = seen.len();
        add_distinct(&mut seen, source[i].clone());
        if seen.len() > before {
            insert_scenario(&mut list, source[i].clone());
            proof {
                assert(known.len() == before);
                assert(texts(seen@) == known.push(name));
                let k = choose|k: int|
                    0 <= k <= sorted.len() && texts(list@) == #[trigger] sorted.insert(k, name);
                assert(!known.contains(name));
                assert(!sorted.contains(name));
                lemma_contains_insert(sorted, k, name);
                assert forall|t: Seq<char>| #[trigger]
                    texts(list@).contains(t) <==> texts(seen@).contains(t) by {
                    if known.contains(t) {
                        let m = known.index_of(t);
                        assert(texts(seen@)[m] == t);
                    }
                    if t == name {
                        assert(texts(seen@)[known.len() as int] == t);
                    }
                    if texts(seen@).contains(t) && t != name {
                        let m = texts(seen@).index_of(t);
                        assert(known[m] == t);
                    }
                }
            }
        }
        i = i + 1;
    }
    proof {
        assert(wanted.take(i as int) =~= wanted);
        law_distinct(wanted);
    }
    list
}

proof fn lemma_lower_space(c: char)
    ensures
        crate::text::is_space(lower_char(c)) == crate::text::is_space(c),
{
}

proof fn lemma_trim_start_lowered(s: Seq<char>)
    ensures
        trim_start(lowered(s)) == lowered(trim_start(s)),
    decreases s.len(),
{
    if s.len() > 0 {
        lemma_lower_space(s[0]);
        assert(lowered(s).drop_first() =~= lowered(s.drop_first()));
        lemma_trim_start_lowered(s.drop_first());
    }
}

proof fn lemma_trim_end_lowered(s: Seq<char>)
    ensures
        trim_end(lowered(s)) == lowered(trim_end(s)),
    decreases s.len(),
{
    if s.len() > 0 {
        lemma_lower_space(s.last());
        assert(lowered(s).drop_last() =~= lowered(s.drop_last()));
        lemma_trim_end_lowered(s.drop_last());
    }
}

/// Normalizing a name twice is normalizing it once.
pub proof fn law_folded_is_idempotent(s: Seq<char>)
    ensures
        folded(folded(s)) == folded(s),
{
    let core = trimmed(s);
    crate::text::law_trim_is_idempotent(s);
    assert(trimmed(core) == core);
    lemma_trim_start_lowered(core);
    lemma_trim_end_lowered(trim_start(core));
    lemma_trim_end_lowered(core);
    lemma_trim_start_lowered(trim_end(core));
    assert(trimmed(lowered(core)) == lowered(core));
    assert(lowered(lowered(core)) =~= lowered(core));
}

/// Scenarios come by the number of producers, then by the number of consumers.
pub proof fn law_scenarios_come_by_thread_counts(p: nat, c: nat, q: nat, d: nat)
    requires
        0 < p <= usize::MAX,
        0 < c <= usize::MAX,
        0 < q <= usize::MAX,
        0 < d <= usize::MAX,
    ensures
        scenario_before(
            decimal(p) + seq!['p'] + decimal(c) + seq!['c'],
            decimal(q) + seq!['p'] + decimal(d) + seq!['c'],
        ) <==> p < q || p == q && c < d,
{
    law_thread_counts_are_read_back(p, c);
    law_thread_counts_are_read_back(q, d);
    order::law_precedes_irreflexive(decimal(p) + seq!['p'] + decimal(c) + seq!['c']);
}

/// A scenario whose thread counts are known comes before one whose counts are
/// not, and of two such the names decide.
pub proof fn law_scenarios_without_thread_counts_come_last(a: Seq<char>, b: Seq<char>)
    requires
        scenario_threads(scenario_name(b)) is None,
    ensures
        scenario_threads(scenario_name(a)) is Some ==> scenario_before(a, b) && !scenario_before(
            b,
            a,
        ),
        scenario_threads(scenario_name(a)) is None ==> (scenario_before(a, b) <==> order::precedes(
            scenario_name(a),
            scenario_name(b),
        )),
{
}

} // verus!
