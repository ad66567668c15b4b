//! The short names under which configurations are also filed.
use vstd::prelude::*;

use crate::order;
use crate::text::{
    begins, decimal, is_digit, join, joined, law_joined_parts_split_again, lemma_decimal, same,
    split, split_on, strip_prefix, texts,
};
use crate::tooling::search::{is_valid, law_a_label_is_read_back, parse_ubq_label, LabelParts};
use crate::tooling::winners::{configuration, Entries};

verus! {

/// The preset that a version number stands for.
pub open spec fn numbered_preset(name: Seq<char>) -> Option<Seq<char>> {
    if name == "v3"@ {
        Some("aggressive_prepare"@)
    } else if name == "v4"@ {
        Some("balanced"@)
    } else if name == "v5"@ {
        Some("pool_conservative"@)
    } else if name == "v6"@ {
        Some("no_pool"@)
    } else if name == "v7"@ {
        Some("consumer_pool_only"@)
    } else {
        None
    }
}

/// The backoff that the fields of a short label stand for: one without a
/// fourth field has the common one.
pub open spec fn lettered_backoff(fields: Seq<Seq<char>>) -> Option<Seq<char>> {
    if fields.len() == 3 {
        Some("crossbeam"@)
    } else if fields.len() == 4 && fields[3] == "b"@ {
        Some("yield"@)
    } else {
        None
    }
}

/// A label of an entry with its preset and its backoff spelled out; one that
/// is not a short label as it is.
pub open spec fn spelled_out(label: Seq<char>) -> Seq<char> {
    let fields = split(label.skip("ubq_"@.len() as int), ',');
    if begins(label, "ubq_"@) {
        match (numbered_preset(fields[0]), lettered_backoff(fields)) {
            (Some(preset), Some(backoff)) => "ubq_"@ + joined(
                seq![preset, fields[1], fields[2], backoff],
                ","@,
            ),
            _ => label,
        }
    } else {
        label
    }
}

fn preset_of(name: &str) -> (preset: Option<&'static str>)
    ensures
        match preset {
            Some(preset) => numbered_preset(name@) == Some(preset@),
            None => numbered_preset(name@) is None,
        },
{
    if same(name, "v3") {
        Some("aggressive_prepare")
    } else if same(name, "v4") {
        Some("balanced")
    } else if same(name, "v5") {
        Some("pool_conservative")
    } else if same(name, "v6") {
        Some("no_pool")
    } else if same(name, "v7") {
        Some("consumer_pool_only")
    } else {
        None
    }
}

/// Spells out the label of an entry.
pub fn spell_out(label: &str) -> (result: String)
    ensures
        result@ == spelled_out(label@),
{
    let rest = match strip_prefix(label, "ubq_") {
        Some(rest) => rest,
        None => {
            return label.to_owned();
        },
    };
    let fields = split_on(rest.as_str(), ',');
    let ghost parts = split(label@.skip("ubq_"@.len() as int), ',');
    assert(parts == texts(fields@));
    assert(parts[0] == fields@[0]@);
    let preset = match preset_of(fields[0].as_str()) {
        Some(preset) => preset,
        None => {
            return label.to_owned();
        },
    };
    let backoff = if fields.len() == 3 {
        "crossbeam"
    } else if fields.len() == 4 && same(fields[3].as_str(), "b") {
        assert(parts[3] == fields@[3]@);
        "yield"
    } else {
        assert(parts.len() == 4 ==> parts[3] == fields@[3]@);
        return label.to_owned();
    };
    let mut spelled: Vec<String> = Vec::new();
    spelled.push(preset.to_owned());
    spelled.push(fields[1].clone());
    spelled.push(fields[2].clone());
    spelled.push(backoff.to_owned());
    proof {
        assert(parts[1] == fields@[1]@);
        assert(parts[2] == fields@[2]@);
        assert(texts(spelled@) =~= seq![preset@, parts[1], parts[2], backoff@]);
    }
    let mut result = "ubq_".to_owned();
    let tail = join(&spelled, ",");
    result.append(tail.as_str());
    result
}

/// Entry `m` is filed under `label`, which is spelled out.
pub open spec fn is_full(entries: Entries, m: int, label: Seq<char>) -> bool {
    entries.labels()[m] == label && spelled_out(label) == label
}

/// Entry `j` is the one of the first `n` that counts for `label`: the one that
/// is filed under it, or where there is none, the first with a short label that
/// stands for it.
pub open spec fn filed_for(entries: Entries, n: int, label: Seq<char>, j: int) -> bool {
    &&& 0 <= j < n
    &&& spelled_out(entries.labels()[j]) == label
    &&& is_full(entries, j, label) || {
        &&& forall|m: int| 0 <= m < n ==> !#[trigger] is_full(entries, m, label)
        &&& forall|m: int| 0 <= m < j ==> spelled_out(#[trigger] entries.labels()[m]) != label
    }
}

/// `spelled` holds the first `n` entries under labels that are spelled out. A
/// short label never takes the place of an entry that is filed under its full
/// label.
pub open spec fn holds_spelled(entries: Entries, n: int, spelled: Entries) -> bool {
    &&& spelled.wf()
    &&& forall|label: Seq<char>| #[trigger]
        spelled.labels().contains(label) <==> exists|j: int| filed_for(entries, n, label, j)
    &&& forall|k: int, j: int|
        0 <= k < spelled.labels().len() && #[trigger] filed_for(
            entries,
            n,
            spelled.labels()[k],
            j,
        ) ==> spelled.stats()[k] == entries.stats()[j]
}

/// Where some entry stands for a label, one counts for it.
proof fn lemma_some_counts(entries: Entries, n: int, label: Seq<char>, m: int)
    requires
        0 <= m < n,
        spelled_out(entries.labels()[m]) == label,
    ensures
        exists|j: int| filed_for(entries, n, label, j),
    decreases m,
{
    if exists|j: int| 0 <= j < n && is_full(entries, j, label) {
        let j = choose|j: int| 0 <= j < n && is_full(entries, j, label);
        assert(filed_for(entries, n, label, j));
    } else if exists|j: int| 0 <= j < m && spelled_out(#[trigger] entries.labels()[j]) == label {
        let j = choose|j: int| 0 <= j < m && spelled_out(#[trigger] entries.labels()[j]) == label;
        lemma_some_counts(entries, n, label, j);
    } else {
        assert(filed_for(entries, n, label, m));
    }
}

/// One more entry decides only for the label that it stands for, and for that
/// only if it is filed under it or none counted yet.
proof fn lemma_one_more(entries: Entries, i: int, label: Seq<char>, j: int)
    requires
        0 <= i < entries.labels().len(),
        entries.wf(),
    ensures
        label != spelled_out(entries.labels()[i]) ==> filed_for(entries, i + 1, label, j)
            == filed_for(entries, i, label, j),
        label == spelled_out(entries.labels()[i]) && is_full(entries, i, label) ==> filed_for(
            entries,
            i + 1,
            label,
            j,
        ) == (j == i),
        label == spelled_out(entries.labels()[i]) && !is_full(entries, i, label) ==> filed_for(
            entries,
            i + 1,
            label,
            j,
        ) == (filed_for(entries, i, label, j) || j == i && forall|k: int|
            !filed_for(entries, i, label, k)),
{
    order::law_ascending_is_distinct(entries.labels());
    let full = is_full(entries, i, label);
    if label == spelled_out(entries.labels()[i]) {
        if filed_for(entries, i + 1, label, j) && full {
            assert(is_full(entries, j, label));
        }
        if filed_for(entries, i, label, j) && !full {
            assert forall|m: int| !is_full(entries, j, label) && 0 <= m < i + 1 implies
                !#[trigger] is_full(entries, m, label) by {}
        }
        if filed_for(entries, i + 1, label, i) && !full {
            assert forall|k: int| !filed_for(entries, i, label, k) by {}
        }
        if !full && forall|k: int| !filed_for(entries, i, label, k) {
            assert forall|m: int| 0 <= m < i implies spelled_out(#[trigger] entries.labels()[m])
                != label by {
                if spelled_out(entries.labels()[m]) == label {
                    lemma_some_counts(entries, i, label, m);
                }
            }
            assert forall|m: int| 0 <= m < i + 1 implies !#[trigger] is_full(
                entries,
                m,
                label,
            ) by {
                if m < i {
                    assert(spelled_out(entries.labels()[m]) != label);
                }
            }
            assert(filed_for(entries, i + 1, label, i));
        }
    } else if filed_for(entries, i, label, j) {
        assert forall|m: int| !is_full(entries, j, label) && 0 <= m < i + 1 implies !#[trigger] is_full(
            entries,
            m,
            label,
        ) by {}
    }
}

/// Files entries under labels that are spelled out.
pub fn spell_out_entries(entries: &Entries) -> (spelled: Entries)
    requires
        entries.wf(),
    ensures
        holds_spelled(*entries, entries.labels().len() as int, spelled),
{
    let mut spelled = Entries::new();
    let mut i: usize = 0;
    while i < entries.len()
        invariant
            entries.wf(),
            i <= entries.labels().len(),
            holds_spelled(*entries, i as int, spelled),
        decreases entries.labels().len() - i,
    {
        let ghost before = spelled;
        let (label, stats) = entries.at(i);
        let text = spell_out(label.as_str());
        let ghost new = text@;
        let ghost n = i + 1;
        if same(text.as_str(), label.as_str()) || !spelled.contains_key(text.as_str()) {
            spelled.insert(text, stats);
            proof {
                assert forall|t: Seq<char>| #[trigger] spelled.labels().contains(t) <==> exists|
                    j: int,
                | filed_for(*entries, n, t, j) by {
                    if t == new {
                        lemma_one_more(*entries, i as int, t, i as int);
                        assert(filed_for(*entries, n, t, i as int));
                    } else {
                        if before.labels().contains(t) {
                            let j = choose|j: int| filed_for(*entries, i as int, t, j);
                            lemma_one_more(*entries, i as int, t, j);
                        }
                        if exists|j: int| filed_for(*entries, n, t, j) {
                            let j = choose|j: int| filed_for(*entries, n, t, j);
                            lemma_one_more(*entries, i as int, t, j);
                        }
                    }
                }
                assert forall|k: int, j: int|
                    0 <= k < spelled.labels().len() && #[trigger] filed_for(
                        *entries,
                        n,
                        spelled.labels()[k],
                        j,
                    ) implies spelled.stats()[k] == entries.stats()[j] by {
                    let t = spelled.labels()[k];
                    lemma_one_more(*entries, i as int, t, j);
                    if t != new {
                        assert(spelled.labels().contains(t));
                        let b = choose|b: int|
                            0 <= b < before.labels().len() && before.labels()[b] == t;
                        assert(spelled.labels()[k] == before.labels()[b]);
                        assert(filed_for(*entries, i as int, before.labels()[b], j));
                    }
                }
            }
        } else {
            proof {
                assert(exists|j: int| filed_for(*entries, i as int, new, j));
                assert forall|t: Seq<char>| #[trigger] spelled.labels().contains(t) <==> exists|
                    j: int,
                | filed_for(*entries, n, t, j) by {
                    if before.labels().contains(t) {
                        let j = choose|j: int| filed_for(*entries, i as int, t, j);
                        lemma_one_more(*entries, i as int, t, j);
                    }
                    if exists|j: int| filed_for(*entries, n, t, j) {
                        let j = choose|j: int| filed_for(*entries, n, t, j);
                        lemma_one_more(*entries, i as int, t, j);
                    }
                }
                assert forall|k: int, j: int|
                    0 <= k < spelled.labels().len() && #[trigger] filed_for(
                        *entries,
                        n,
                        spelled.labels()[k],
                        j,
                    ) implies spelled.stats()[k] == entries.stats()[j] by {
                    lemma_one_more(*entries, i as int, spelled.labels()[k], j);
                }
            }
        }
        i = i + 1;
    }
    spelled
}

/// Entries without short labels stay as they are.
pub proof fn law_spelled_labels_stay(entries: Entries, spelled: Entries)
    requires
        entries.wf(),
        holds_spelled(entries, entries.labels().len() as int, spelled),
        forall|i: int|
            0 <= i < entries.labels().len() ==> spelled_out(#[trigger] entries.labels()[i])
                == entries.labels()[i],
    ensures
        spelled.labels() == entries.labels(),
        spelled.stats() == entries.stats(),
{
    let n = entries.labels().len() as int;
    order::law_ascending_is_distinct(entries.labels());
    assert forall|i: int| 0 <= i < n implies filed_for(
        entries,
        n,
        #[trigger] entries.labels()[i],
        i,
    ) by {
        assert(is_full(entries, i, entries.labels()[i]));
    }
    assert forall|label: Seq<char>| #[trigger]
        spelled.labels().contains(label) <==> entries.labels().contains(label) by {
        if entries.labels().contains(label) {
            let i = choose|i: int| 0 <= i < n && entries.labels()[i] == label;
            assert(filed_for(entries, n, entries.labels()[i], i));
        }
        if spelled.labels().contains(label) {
            let j = choose|j: int| filed_for(entries, n, label, j);
            assert(entries.labels()[j] == label);
        }
    }
    order::law_ascending_is_unique(spelled.labels(), entries.labels());
    assert forall|k: int| 0 <= k < n implies #[trigger] spelled.stats()[k] == entries.stats()[k] by {
        assert(filed_for(entries, n, entries.labels()[k], k));
        assert(filed_for(entries, n, spelled.labels()[k], k));
    }
    assert(spelled.stats() =~= entries.stats());
}

/// A short label never replaces an entry that is filed under its full label.
pub proof fn law_full_labels_keep_their_means(entries: Entries, spelled: Entries, i: int, k: int)
    requires
        entries.wf(),
        holds_spelled(entries, entries.labels().len() as int, spelled),
        0 <= i < entries.labels().len(),
        0 <= k < spelled.labels().len(),
        spelled_out(entries.labels()[i]) == entries.labels()[i],
        spelled.labels()[k] == entries.labels()[i],
    ensures
        spelled.stats()[k] == entries.stats()[i],
{
    let n = entries.labels().len() as int;
    assert(is_full(entries, i, entries.labels()[i]));
    assert(filed_for(entries, n, entries.labels()[i], i));
    assert(filed_for(entries, n, spelled.labels()[k], i));
}

/// The configuration that a label stands for, in full or short notation.
pub open spec fn stands_for(label: Seq<char>) -> Option<LabelParts> {
    configuration(spelled_out("ubq_"@ + label))
}

/// Whether a label stands for a configuration that can be built.
pub fn is_known_label(label: &str) -> (known: bool)
    ensures
        known == (stands_for(label@) is Some),
{
    let mut text = "ubq_".to_owned();
    text.append(label);
    let full = spell_out(text.as_str());
    match strip_prefix(full.as_str(), "ubq_") {
        Some(rest) => parse_ubq_label(rest.as_str(), true).is_ok(),
        None => false,
    }
}

/// A short label stands for the preset with its number, the pool and the block
/// that it names, and the common backoff, or the other one where the letter `b`
/// is its last field.
pub proof fn law_short_labels_stand_for_configurations(label: LabelParts, i: int)
    requires
        0 <= i < 5,
        label.preset == seq![
            "aggressive_prepare"@,
            "balanced"@,
            "pool_conservative"@,
            "no_pool"@,
            "consumer_pool_only"@,
        ][i],
        is_valid(label),
    ensures
        ({
            let number = seq!["v3"@, "v4"@, "v5"@, "v6"@, "v7"@][i];
            let fields = seq![number, decimal(label.pool as nat), decimal(label.block as nat)];
            &&& label.backoff == "crossbeam"@ ==> stands_for(joined(fields, seq![','])) == Some(
                label,
            )
            &&& label.backoff == "yield"@ ==> stands_for(
                joined(fields.push("b"@), seq![',']),
            ) == Some(label)
        }),
{
    let numbers = seq!["v3"@, "v4"@, "v5"@, "v6"@, "v7"@];
    let number = numbers[i];
    let pool = decimal(label.pool as nat);
    let block = decimal(label.block as nat);
    let short = seq![number, pool, block];
    let long = short.push("b"@);
    reveal_strlit("v3");
    reveal_strlit("v4");
    reveal_strlit("v5");
    reveal_strlit("v6");
    reveal_strlit("v7");
    reveal_strlit("b");
    reveal_strlit(",");
    reveal_strlit("ubq_");
    assert(","@ =~= seq![',']);
    assert("v3"@[1] == '3' && "v4"@[1] == '4' && "v5"@[1] == '5' && "v6"@[1] == '6' && "v7"@[1]
        == '7');
    assert(numbered_preset(number) == Some(label.preset));
    lemma_decimal(label.pool as nat);
    lemma_decimal(label.block as nat);
    assert(!number.contains(',')) by {
        assert(number.len() == 2 && number[0] == 'v' && number[1] != ',');
    }
    assert(!pool.contains(',')) by {
        if pool.contains(',') {
            let k = pool.index_of(',');
            assert(is_digit(pool[k]));
        }
    }
    assert(!block.contains(',')) by {
        if block.contains(',') {
            let k = block.index_of(',');
            assert(is_digit(block[k]));
        }
    }
    assert(!"b"@.contains(','));
    law_joined_parts_split_again(short, ',');
    law_joined_parts_split_again(long, ',');
    law_a_label_is_read_back(label);
    let full = seq![label.preset, pool, block, label.backoff];
    reveal_with_fuel(joined, 5);
    assert(full.drop_last() =~= seq![label.preset, pool, block]);
    assert(full.drop_last().drop_last() =~= seq![label.preset, pool]);
    assert(full.drop_last().drop_last().drop_last() =~= seq![label.preset]);
    assert(joined(full, ","@) =~= label.written(","@));
    let a = joined(short, seq![',']);
    let b = joined(long, seq![',']);
    let front = "ubq_"@;
    assert((front + a).take(4) =~= front);
    assert((front + a).skip(4) =~= a);
    assert((front + b).take(4) =~= front);
    assert((front + b).skip(4) =~= b);
    let text = label.written(","@);
    assert((front + text).take(4) =~= front);
    assert((front + text).skip(4) =~= text);
    assert(short[0] == number && short[1] == pool && short[2] == block);
    assert(long[0] == number && long[1] == pool && long[2] == block && long[3] == "b"@);
}

/// A label that is no short label stays as it is.
pub proof fn law_other_labels_stay(label: Seq<char>)
    requires
        !begins(label, "ubq_"@) || !seq!["v3"@, "v4"@, "v5"@, "v6"@, "v7"@].contains(
            split(label.skip("ubq_"@.len() as int), ',')[0],
        ),
    ensures
        spelled_out(label) == label,
{
    let numbers = seq!["v3"@, "v4"@, "v5"@, "v6"@, "v7"@];
    let first = split(label.skip("ubq_"@.len() as int), ',')[0];
    assert(numbers[0] == "v3"@ && numbers[1] == "v4"@ && numbers[2] == "v5"@ && numbers[3]
        == "v6"@ && numbers[4] == "v7"@);
    if numbered_preset(first) is Some {
        assert(numbers.contains(first));
    }
}

} // verus!
