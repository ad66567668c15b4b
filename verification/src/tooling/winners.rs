//! The best configuration of a scenario and the variants to compare it with.
use vstd::prelude::*;

use crate::order;
use crate::text::{begins, strip_prefix, texts};
use crate::tooling::search::{
    accepted_label, all_pool_values, all_pools, backoff_values, backoffs, block_values, blocks,
    is_valid, is_valid_ubq_label, parse_ubq_label, pooled_preset_values, pooled_presets,
    preset_values, presets, LabelParts, UbqLabel,
};

verus! {

/// The mean throughput of one queue, as a number by which means are ordered.
#[derive(Clone, Copy, Debug, PartialEq, Eq, Structural)]
pub struct Stats {
    pub mean_ops_per_sec: u64,
}

/// The measured queues of one scenario, in the order of their labels.
pub struct Entries {
    labels: Vec<String>,
    stats: Vec<Stats>,
}

impl Entries {
    pub closed spec fn labels(&self) -> Seq<Seq<char>> {
        texts(self.labels@)
    }

    pub closed spec fn stats(&self) -> Seq<Stats> {
        self.stats@
    }

    /// Each label stands once, in order, with its statistics.
    pub open spec fn wf(&self) -> bool {
        &&& order::ascending(self.labels())
        &&& self.labels().len() == self.stats().len()
    }

    pub fn new() -> (entries: Entries)
        ensures
            entries.wf(),
            entries.labels() == Seq::<Seq<char>>::empty(),
    {
        let entries = Entries { labels: Vec::new(), stats: Vec::new() };
        assert(entries.labels() =~= Seq::<Seq<char>>::empty());
        entries
    }

    pub fn len(&self) -> (len: usize)
        requires
            self.wf(),
        ensures
            len == self.labels().len(),
    {
        self.labels.len()
    }

    /// The label and the statistics of entry `i`.
    pub fn at(&self, i: usize) -> (entry: (String, Stats))
        requires
            self.wf(),
            i < self.labels().len(),
        ensures
            entry.0@ == self.labels()[i as int],
            entry.1 == self.stats()[i as int],
    {
        (self.labels[i].clone(), self.stats[i])
    }

    /// Files the statistics of a label, in place of earlier ones.
    pub fn insert(&mut self, label: String, stats: Stats)
        requires
            old(self).wf(),
        ensures
            final(self).wf(),
            forall|t: Seq<char>| #[trigger]
                final(self).labels().contains(t) <==> old(self).labels().contains(t) || t == label@,
            forall|i: int|
                0 <= i < final(self).labels().len() && final(self).labels()[i] == label@
                    ==> #[trigger] final(self).stats()[i] == stats,
            forall|i: int, j: int|
                0 <= i < final(self).labels().len() && 0 <= j < old(self).labels().len()
                    && #[trigger] final(self).labels()[i] == #[trigger] old(self).labels()[j]
                    && final(self).labels()[i] != label@ ==> final(self).stats()[i] == old(
                    self,
                ).stats()[j],
    {
        let ghost before = self.labels();
        let ghost numbers = self.stats();
        let ghost text = label@;
        proof {
            order::law_ascending_is_distinct(before);
        }
        let mut i: usize = 0;
        while i < self.labels.len()
            invariant
                self.labels() == before,
                self.stats() == numbers,
                before == old(self).labels(),
                numbers == old(self).stats(),
                before.len() == numbers.len(),
                order::ascending(before),
                before.no_duplicates(),
                text == label@,
                i <= self.labels@.len(),
                forall|j: int|
                    0 <= j < i ==> order::precedes(#[trigger] before[j], text) && before[j] != text,
            ensures
                i < before.len() ==> order::precedes(text, before[i as int]) && before[i as int]
                    != text,
            decreases self.labels@.len() - i,
        {
            assert(before[i as int] == self.labels@[i as int]@);
            match order::side(self.labels[i].as_str(), label.as_str()) {
                order::Side::Before => {},
                order::Side::Same => {
                    self.stats.set(i, stats);
                    assert(before.contains(text));
                    return;
                },
                order::Side::After => {
                    break;
                },
            }
            i = i + 1;
        }
        proof {
            order::lemma_insert(before, i as int, text);
            order::law_ascending_is_distinct(before.insert(i as int, text));
        }
        self.labels.insert(i, label);
        self.stats.insert(i, stats);
        proof {
            assert(self.labels() =~= before.insert(i as int, text));
            assert(self.stats() =~= numbers.insert(i as int, stats));
            let after = self.labels();
            assert forall|a: int, b: int|
                0 <= a < after.len() && 0 <= b < before.len() && #[trigger] after[a]
                    == #[trigger] before[b] && after[a] != text implies self.stats()[a]
                == numbers[b] by {
                let place = if b < i {
                    b
                } else {
                    b + 1
                };
                assert(after[place] == before[b]);
                assert(place == a);
            }
        }
    }

    pub fn contains_key(&self, label: &str) -> (held: bool)
        ensures
            held == self.labels().contains(label@),
    {
        order::holds(&self.labels, label)
    }
}

/// The configuration that a label names, if it names one that can be built.
pub open spec fn configuration(label: Seq<char>) -> Option<LabelParts> {
    if begins(label, "ubq_"@) {
        accepted_label(label.skip("ubq_"@.len() as int), true)
    } else {
        None
    }
}

/// Entry `i` is a configuration with the best mean, the last one of several.
pub open spec fn wins(entries: Entries, i: int) -> bool {
    &&& 0 <= i < entries.labels().len()
    &&& configuration(entries.labels()[i]) is Some
    &&& forall|j: int|
        0 <= j < entries.labels().len() && configuration(#[trigger] entries.labels()[j]) is Some
            ==> {
            ||| entries.stats()[j].mean_ops_per_sec < entries.stats()[i].mean_ops_per_sec
            ||| entries.stats()[j].mean_ops_per_sec == entries.stats()[i].mean_ops_per_sec && j
                <= i
        }
}

/// The values next to position `at` of a domain.
pub open spec fn adjacent<T>(domain: Seq<T>, at: Option<int>) -> Seq<T> {
    match at {
        Some(i) => {
            let below = if i > 0 {
                seq![domain[i - 1]]
            } else {
                Seq::empty()
            };
            let above = if i + 1 < domain.len() {
                seq![domain[i + 1]]
            } else {
                Seq::empty()
            };
            below + above
        },
        None => Seq::empty(),
    }
}

/// Where a number occurs in a domain.
pub open spec fn position_of<T>(domain: Seq<T>, value: T) -> Option<int> {
    if domain.contains(value) {
        Some(domain.index_of(value))
    } else {
        None
    }
}

pub open spec fn with_preset(label: LabelParts, preset: Seq<char>) -> LabelParts {
    LabelParts { preset, ..label }
}

pub open spec fn with_pool(label: LabelParts, pool: u8) -> LabelParts {
    LabelParts { pool, ..label }
}

pub open spec fn with_block(label: LabelParts, block: u16) -> LabelParts {
    LabelParts { block, ..label }
}

pub open spec fn with_backoff(label: LabelParts, backoff: Seq<char>) -> LabelParts {
    LabelParts { backoff, ..label }
}

/// The labels one step away along one field, counted from the first.
pub open spec fn neighbors_along(label: LabelParts, idx: int) -> Seq<LabelParts> {
    if idx == 0 {
        adjacent(presets(), order::first_position(presets(), label.preset)).map_values(
            |preset: Seq<char>| with_preset(label, preset),
        )
    } else if idx == 1 {
        adjacent(all_pools(), position_of(all_pools(), label.pool)).map_values(
            |pool: u8| with_pool(label, pool),
        )
    } else if idx == 2 {
        adjacent(blocks(), position_of(blocks(), label.block)).map_values(
            |block: u16| with_block(label, block),
        )
    } else if idx == 3 {
        adjacent(backoffs(), order::first_position(backoffs(), label.backoff)).map_values(
            |backoff: Seq<char>| with_backoff(label, backoff),
        )
    } else {
        Seq::empty()
    }
}

pub open spec fn label_views(list: Seq<UbqLabel>) -> Seq<LabelParts> {
    list.map_values(|label: UbqLabel| label@)
}

fn neighbors_u8(value: u8, domain: &Vec<u8>) -> (list: Vec<u8>)
    requires
        domain@.no_duplicates(),
    ensures
        list@ == adjacent(domain@, position_of(domain@, value)),
{
    let mut list: Vec<u8> = Vec::new();
    let mut i: usize = 0;
    while i < domain.len()
        invariant
            i <= domain@.len(),
            domain@.no_duplicates(),
            list@.len() == 0,
            forall|j: int| 0 <= j < i ==> domain@[j] != value,
        decreases domain@.len() - i,
    {
        if domain[i] == value {
            assert(domain@.index_of(value) == i);
            if i > 0 {
                list.push(domain[i - 1]);
            }
            if i + 1 < domain.len() {
                list.push(domain[i + 1]);
            }
            assert(list@ =~= adjacent(domain@, Some(i as int)));
            return list;
        }
        i = i + 1;
    }
    assert(list@ =~= Seq::<u8>::empty());
    list
}

fn neighbors_u16(value: u16, domain: &Vec<u16>) -> (list: Vec<u16>)
    requires
        domain@.no_duplicates(),
    ensures
        list@ == adjacent(domain@, position_of(domain@, value)),
{
    let mut list: Vec<u16> = Vec::new();
    let mut i: usize = 0;
    while i < domain.len()
        invariant
            i <= domain@.len(),
            domain@.no_duplicates(),
            list@.len() == 0,
            forall|j: int| 0 <= j < i ==> domain@[j] != value,
        decreases domain@.len() - i,
    {
        if domain[i] == value {
            assert(domain@.index_of(value) == i);
            if i > 0 {
                list.push(domain[i - 1]);
            }
            if i + 1 < domain.len() {
                list.push(domain[i + 1]);
            }
            assert(list@ =~= adjacent(domain@, Some(i as int)));
            return list;
        }
        i = i + 1;
    }
    assert(list@ =~= Seq::<u16>::empty());
    list
}

fn neighbors_str(value: &str, domain: &Vec<String>) -> (list: Vec<String>)
    ensures
        texts(list@) == adjacent(
            texts(domain@),
            order::first_position(texts(domain@), value@),
        ),
{
    let ghost all = texts(domain@);
    let mut list: Vec<String> = Vec::new();
    let len: usize = domain.len();
    if let Some(i) = order::position_in(domain, value) {
        if i > 0 {
            assert(all[i - 1] == domain@[i - 1]@);
            list.push(domain[i - 1].clone());
        }
        if i < len - 1 {
            assert(all[i + 1] == domain@[i + 1]@);
            list.push(domain[i + 1].clone());
        }
        assert(texts(list@) =~= adjacent(all, Some(i as int)));
    } else {
        assert(texts(list@) =~= Seq::<Seq<char>>::empty());
    }
    list
}

proof fn lemma_domains()
    ensures
        all_pools().no_duplicates(),
        blocks().no_duplicates(),
{
}

/// The labels one step away along one field, counted from the first.
pub fn immediate_neighbors(label: &UbqLabel, idx: usize) -> (list: Vec<UbqLabel>)
    ensures
        label_views(list@) == neighbors_along(label@, idx as int),
{
    let mut list: Vec<UbqLabel> = Vec::new();
    let ghost wanted = neighbors_along(label@, idx as int);
    let mut i: usize = 0;
    proof {
        lemma_domains();
    }
    if idx == 0 {
        let values = neighbors_str(label.preset.as_str(), &preset_values());
        while i < values.len()
            invariant
                i <= values@.len(),
                wanted.len() == values@.len(),
                forall|j: int|
                    0 <= j < values@.len() ==> wanted[j] == with_preset(
                        label@,
                        #[trigger] values@[j]@,
                    ),
                list@.len() == i,
                forall|j: int| 0 <= j < i ==> #[trigger] list@[j]@ == wanted[j],
            decreases values@.len() - i,
        {
            let mut next = label.copy();
            next.preset = values[i].clone();
            list.push(next);
            i = i + 1;
        }
    } else if idx == 1 {
        let values = neighbors_u8(label.pool, &all_pool_values());
        while i < values.len()
            invariant
                i <= values@.len(),
                wanted.len() == values@.len(),
                forall|j: int|
                    0 <= j < values@.len() ==> wanted[j] == with_pool(label@, #[trigger] values@[j]),
                list@.len() == i,
                forall|j: int| 0 <= j < i ==> #[trigger] list@[j]@ == wanted[j],
            decreases values@.len() - i,
        {
            let mut next = label.copy();
            next.pool = values[i];
            list.push(next);
            i = i + 1;
        }
    } else if idx == 2 {
        let values = neighbors_u16(label.block, &block_values());
        while i < values.len()
            invariant
                i <= values@.len(),
                wanted.len() == values@.len(),
                forall|j: int|
                    0 <= j < values@.len() ==> wanted[j] == with_block(
                        label@,
                        #[trigger] values@[j],
                    ),
                list@.len() == i,
                forall|j: int| 0 <= j < i ==> #[trigger] list@[j]@ == wanted[j],
            decreases values@.len() - i,
        {
            let mut next = label.copy();
            next.block = values[i];
            list.push(next);
            i = i + 1;
        }
    } else if idx == 3 {
        let values = neighbors_str(label.backoff.as_str(), &backoff_values());
        while i < values.len()
            invariant
                i <= values@.len(),
                wanted.len() == values@.len(),
                forall|j: int|
                    0 <= j < values@.len() ==> wanted[j] == with_backoff(
                        label@,
                        #[trigger] values@[j]@,
                    ),
                list@.len() == i,
                forall|j: int| 0 <= j < i ==> #[trigger] list@[j]@ == wanted[j],
            decreases values@.len() - i,
        {
            let mut next = label.copy();
            next.backoff = values[i].clone();
            list.push(next);
            i = i + 1;
        }
    }
    assert(label_views(list@) =~= wanted);
    list
}

/// The pooled presets with a given pool size.
pub open spec fn pooled_variants(label: LabelParts, pool: u8) -> Seq<LabelParts> {
    pooled_presets().map_values(|preset: Seq<char>| with_pool(with_preset(label, preset), pool))
}

/// The configuration without a pool.
pub open spec fn unpooled_variant(label: LabelParts) -> LabelParts {
    with_pool(with_preset(label, "no_pool"@), 0)
}

/// The labels that a configuration is compared with, before those that cannot
/// be built are left out: one step along each field; the other pooled presets
/// with the same pool size, for one without a pool with the smallest; and the
/// one without a pool.
pub open spec fn variants(label: LabelParts) -> Seq<LabelParts> {
    let pooled = pooled_presets().contains(label.preset);
    let unpooled = label.preset == "no_pool"@;
    let steps = neighbors_along(label, 0) + neighbors_along(label, 1) + neighbors_along(label, 2)
        + neighbors_along(label, 3);
    let siblings = if pooled {
        pooled_variants(label, label.pool)
    } else {
        Seq::empty()
    };
    let smallest = if unpooled {
        pooled_variants(label, 1)
    } else {
        Seq::empty()
    };
    let without = if unpooled || pooled {
        seq![unpooled_variant(label)]
    } else {
        Seq::empty()
    };
    steps + siblings + smallest + without
}

/// The entry label of a configuration.
pub open spec fn entry_label(label: LabelParts) -> Seq<char> {
    "ubq_"@ + label.written(","@)
}

/// The labels that must have been measured before `winner` counts as best.
pub open spec fn is_required(winner: Seq<char>, label: LabelParts, text: Seq<char>) -> bool {
    ||| text == winner
    ||| exists|i: int|
        0 <= i < variants(label).len() && is_valid(#[trigger] variants(label)[i]) && text
            == entry_label(variants(label)[i])
}

fn add_all(list: &mut Vec<UbqLabel>, more: Vec<UbqLabel>)
    ensures
        label_views(final(list)@) == label_views(old(list)@) + label_views(more@),
{
    let ghost first = label_views(list@);
    let ghost second = label_views(more@);
    let mut more = more;
    list.append(&mut more);
    assert(label_views(list@) =~= first + second);
}

fn add_pooled(list: &mut Vec<UbqLabel>, label: &UbqLabel, pool: u8)
    ensures
        label_views(final(list)@) == label_views(old(list)@) + pooled_variants(label@, pool),
{
    let ghost first = label_views(list@);
    let ghost wanted = pooled_variants(label@, pool);
    let names = pooled_preset_values();
    let mut i: usize = 0;
    assert(first + wanted.take(0) =~= first);
    while i < names.len()
        invariant
            texts(names@) == pooled_presets(),
            wanted == pooled_variants(label@, pool),
            i <= names@.len(),
            label_views(list@) == first + wanted.take(i as int),
        decreases names@.len() - i,
    {
        let ghost before = label_views(list@);
        assert(pooled_presets()[i as int] == names@[i as int]@);
        let mut next = label.copy();
        next.preset = names[i].clone();
        next.pool = pool;
        list.push(next);
        proof {
            assert(list@.last()@ == wanted[i as int]);
            assert(label_views(list@) =~= before.push(wanted[i as int]));
            assert(wanted.take(i + 1) =~= wanted.take(i as int).push(wanted[i as int]));
            assert(label_views(list@) =~= first + wanted.take(i + 1));
        }
        i = i + 1;
    }
    assert(wanted.take(i as int) =~= wanted);
}

fn variant_list(label: &UbqLabel) -> (list: Vec<UbqLabel>)
    ensures
        label_views(list@) == variants(label@),
{
    let mut list = immediate_neighbors(label, 0);
    add_all(&mut list, immediate_neighbors(label, 1));
    add_all(&mut list, immediate_neighbors(label, 2));
    add_all(&mut list, immediate_neighbors(label, 3));
    let ghost steps = label_views(list@);
    let pooled = order::holds(&pooled_preset_values(), label.preset.as_str());
    let unpooled = crate::text::same(label.preset.as_str(), "no_pool");
    if pooled {
        add_pooled(&mut list, label, label.pool);
    }
    if unpooled {
        add_pooled(&mut list, label, 1);
    }
    if unpooled || pooled {
        let ghost before = label_views(list@);
        let mut next = label.copy();
        next.preset = "no_pool".to_owned();
        next.pool = 0;
        list.push(next);
        assert(list@.last()@ == unpooled_variant(label@));
        assert(label_views(list@) =~= before.push(unpooled_variant(label@)));
    }
    assert(label_views(list@) =~= variants(label@));
    list
}

/// The best configuration among the entries, and in order the labels that must
/// have been measured before it counts as best.
pub fn strict_immediate_winner_ubq_labels(entries: &Entries) -> (found: Option<
    (String, Vec<String>),
>)
    requires
        entries.wf(),
    ensures
        match found {
            Some((winner, required)) => exists|i: int|
                #![trigger wins(*entries, i)]
                {
                    &&& wins(*entries, i)
                    &&& winner@ == entries.labels()[i]
                    &&& order::ascending(texts(required@))
                    &&& forall|t: Seq<char>| #[trigger]
                        texts(required@).contains(t) <==> is_required(
                            winner@,
                            configuration(winner@)->0,
                            t,
                        )
                },
            None => forall|j: int|
                0 <= j < entries.labels().len() ==> configuration(#[trigger] entries.labels()[j])
                    is None,
        },
{
    let ghost labels = entries.labels();
    let mut best: Option<(usize, UbqLabel)> = None;
    let mut i: usize = 0;
    while i < entries.labels.len()
        invariant
            entries.wf(),
            labels == entries.labels(),
            i <= labels.len(),
            match best {
                Some((at, label)) => {
                    &&& at < i
                    &&& configuration(labels[at as int]) == Some(label@)
                    &&& forall|j: int|
                        0 <= j < i && configuration(#[trigger] labels[j]) is Some ==> {
                            ||| entries.stats()[j].mean_ops_per_sec
                                < entries.stats()[at as int].mean_ops_per_sec
                            ||| entries.stats()[j].mean_ops_per_sec
                                == entries.stats()[at as int].mean_ops_per_sec && j <= at
                        }
                },
                None => forall|j: int| 0 <= j < i ==> configuration(#[trigger] labels[j]) is None,
            },
        decreases labels.len() - i,
    {
        assert(labels[i as int] == entries.labels@[i as int]@);
        match strip_prefix(entries.labels[i].as_str(), "ubq_") {
            Some(raw) => {
                match parse_ubq_label(raw.as_str(), true) {
                    Ok(label) => {
                        let better = match &best {
                            Some((at, _)) => entries.stats[*at].mean_ops_per_sec
                                <= entries.stats[i].mean_ops_per_sec,
                            None => true,
                        };
                        if better {
                            best = Some((i, label));
                        }
                    },
                    Err(_) => {},
                }
            },
            None => {},
        }
        i = i + 1;
    }
    match best {
        None => None,
        Some((at, label)) => {
            assert(wins(*entries, at as int));
            let winner = entries.labels[at].clone();
            assert(winner@ == labels[at as int]);
            let mut required: Vec<String> = Vec::new();
            required.push(winner.clone());
            assert(texts(required@)[0] == winner@);
            assert(texts(required@) =~= seq![winner@]);
            let list = variant_list(&label);
            let ghost all = variants(label@);
            let mut i: usize = 0;
            assert forall|t: Seq<char>| #[trigger] texts(required@).contains(t) <==> {
                ||| t == winner@
                ||| exists|k: int|
                    0 <= k < 0 && is_valid(#[trigger] all[k]) && t == entry_label(all[k])
            } by {}
            while i < list.len()
                invariant
                    label_views(list@) == all,
                    i <= list@.len(),
                    order::ascending(texts(required@)),
                    forall|t: Seq<char>| #[trigger]
                        texts(required@).contains(t) <==> {
                            ||| t == winner@
                            ||| exists|k: int|
                                0 <= k < i && is_valid(#[trigger] all[k]) && t == entry_label(
                                    all[k],
                                )
                        },
                decreases list@.len() - i,
            {
                assert(all[i as int] == list@[i as int]@);
                let ghost before = texts(required@);
                if is_valid_ubq_label(&list[i]) {
                    let mut text = "ubq_".to_owned();
                    let rest = list[i].text();
                    text.append(rest.as_str());
                    assert(text@ == entry_label(all[i as int]));
                    order::insert(&mut required, text);
                }
                i = i + 1;
            }
            Some((winner, required))
        },
    }
}

/// Whether everything that the best configuration is compared with has been
/// measured.
pub open spec fn complete(entries: Entries) -> bool {
    exists|i: int|
        #![trigger wins(entries, i)]
        {
            &&& wins(entries, i)
            &&& forall|t: Seq<char>|
                is_required(entries.labels()[i], configuration(entries.labels()[i])->0, t)
                    ==> #[trigger] entries.labels().contains(t)
        }
}

proof fn lemma_domain_texts()
    ensures
        presets().len() == 5,
        presets()[3] == "no_pool"@,
        forall|i: int, j: int|
            0 <= i < 5 && 0 <= j < 5 && i != j ==> #[trigger] presets()[i] != #[trigger] presets()[j],
        backoffs().len() == 2,
        backoffs()[0] != backoffs()[1],
        forall|preset: Seq<char>| #[trigger]
            pooled_presets().contains(preset) <==> presets().contains(preset) && preset
                != "no_pool"@,
{
    reveal_strlit("aggressive_prepare");
    reveal_strlit("balanced");
    reveal_strlit("pool_conservative");
    reveal_strlit("no_pool");
    reveal_strlit("consumer_pool_only");
    reveal_strlit("crossbeam");
    reveal_strlit("yield");
    assert("aggressive_prepare"@[0] != "consumer_pool_only"@[0]);
    assert("aggressive_prepare"@.len() == 18);
    assert("balanced"@.len() == 8);
    assert("pool_conservative"@.len() == 17);
    assert("no_pool"@.len() == 7);
    assert("consumer_pool_only"@.len() == 18);
    assert("crossbeam"@.len() == 9);
    assert("yield"@.len() == 5);
    let all = presets();
    let some = pooled_presets();
    assert(some[0] == all[0] && some[1] == all[1] && some[2] == all[2] && some[3] == all[4]);
    assert forall|preset: Seq<char>| #[trigger] some.contains(preset) <==> all.contains(preset)
        && preset != "no_pool"@ by {
        if some.contains(preset) {
            let i = some.index_of(preset);
            assert(all[if i < 3 {
                i
            } else {
                4
            }] == preset);
        }
        if all.contains(preset) && preset != "no_pool"@ {
            let i = all.index_of(preset);
            assert(i != 3);
            assert(some[if i < 3 {
                i
            } else {
                3
            }] == preset);
        }
    }
}

/// The values next to position `i` are those one place before and behind it.
proof fn lemma_adjacent<T>(domain: Seq<T>, i: int)
    requires
        0 <= i < domain.len(),
    ensures
        forall|j: int|
            0 <= j < domain.len() && (j == i + 1 || i == j + 1) ==> adjacent(
                domain,
                Some(i),
            ).contains(#[trigger] domain[j]),
        forall|k: int|
            0 <= k < adjacent(domain, Some(i)).len() ==> exists|j: int|
                0 <= j < domain.len() && (j == i + 1 || i == j + 1) && #[trigger] adjacent(
                    domain,
                    Some(i),
                )[k] == #[trigger] domain[j],
{
    let list = adjacent(domain, Some(i));
    if i > 0 {
        assert(list[0] == domain[i - 1]);
    }
    if i + 1 < domain.len() {
        assert(list[list.len() - 1] == domain[i + 1]);
    }
    assert forall|k: int| 0 <= k < list.len() implies exists|j: int|
        0 <= j < domain.len() && (j == i + 1 || i == j + 1) && #[trigger] list[k]
            == #[trigger] domain[j] by {
        if k == 0 && i > 0 {
            assert(list[k] == domain[i - 1]);
        } else {
            assert(list[k] == domain[i + 1]);
        }
    }
}

/// A label that a part of the variants holds is one of the variants.
proof fn lemma_variants_hold(label: LabelParts, next: LabelParts)
    ensures
        (exists|k: int| 0 <= k < variants(label).len() && #[trigger] variants(label)[k] == next) <==> {
            ||| neighbors_along(label, 0).contains(next)
            ||| neighbors_along(label, 1).contains(next)
            ||| neighbors_along(label, 2).contains(next)
            ||| neighbors_along(label, 3).contains(next)
            ||| pooled_presets().contains(label.preset) && pooled_variants(
                label,
                label.pool,
            ).contains(next)
            ||| label.preset == "no_pool"@ && pooled_variants(label, 1).contains(next)
            ||| (pooled_presets().contains(label.preset) || label.preset == "no_pool"@) && next
                == unpooled_variant(label)
        },
{
    let all = variants(label);
    let a = neighbors_along(label, 0);
    let b = neighbors_along(label, 1);
    let c = neighbors_along(label, 2);
    let d = neighbors_along(label, 3);
    let pooled = pooled_presets().contains(label.preset);
    let unpooled = label.preset == "no_pool"@;
    let e = if pooled {
        pooled_variants(label, label.pool)
    } else {
        Seq::empty()
    };
    let f = if unpooled {
        pooled_variants(label, 1)
    } else {
        Seq::empty()
    };
    let g = if unpooled || pooled {
        seq![unpooled_variant(label)]
    } else {
        Seq::empty()
    };
    assert(all == a + b + c + d + e + f + g);
    lemma_sum_holds(a, b, next);
    lemma_sum_holds(a + b, c, next);
    lemma_sum_holds(a + b + c, d, next);
    lemma_sum_holds(a + b + c + d, e, next);
    lemma_sum_holds(a + b + c + d + e, f, next);
    lemma_sum_holds(a + b + c + d + e + f, g, next);
    if g.len() > 0 {
        assert(g[0] == unpooled_variant(label));
    }
    if all.contains(next) {
        let k = all.index_of(next);
        assert(all[k] == next);
    }
}

proof fn lemma_sum_holds(a: Seq<LabelParts>, b: Seq<LabelParts>, x: LabelParts)
    ensures
        (a + b).contains(x) <==> a.contains(x) || b.contains(x),
{
    if a.contains(x) {
        let i = a.index_of(x);
        assert((a + b)[i] == x);
    }
    if b.contains(x) {
        let i = b.index_of(x);
        assert((a + b)[a.len() + i] == x);
    }
    if (a + b).contains(x) {
        let i = (a + b).index_of(x);
        if i < a.len() {
            assert(a[i] == x);
        } else {
            assert(b[i - a.len()] == x);
        }
    }
}

/// One step from a configuration, to the value listed directly before or behind
/// its own in one of its four fields, leads to a label that is required, if it
/// can be built. `i` and `j` are the places of the two values in the list.
pub proof fn law_every_step_from_the_winner_is_required(
    winner: Seq<char>,
    label: LabelParts,
    next: LabelParts,
    i: int,
    j: int,
)
    requires
        is_valid(next),
        j == i + 1 || i == j + 1,
        0 <= i,
        0 <= j,
        ({
            let names = seq![
                "aggressive_prepare"@,
                "balanced"@,
                "pool_conservative"@,
                "no_pool"@,
                "consumer_pool_only"@,
            ];
            let sizes = seq![0u8, 1, 2, 4, 8, 16, 32, 64];
            let lengths = seq![31u16, 63, 127, 255, 511, 1023, 2047, 4095];
            let waits = seq!["crossbeam"@, "yield"@];
            ||| {
                &&& i < 5 && j < 5
                &&& label.preset == names[i] && next.preset == names[j]
                &&& next.pool == label.pool && next.block == label.block
                &&& next.backoff == label.backoff
            }
            ||| {
                &&& i < 8 && j < 8
                &&& label.pool == sizes[i] && next.pool == sizes[j]
                &&& next.preset == label.preset && next.block == label.block
                &&& next.backoff == label.backoff
            }
            ||| {
                &&& i < 8 && j < 8
                &&& label.block == lengths[i] && next.block == lengths[j]
                &&& next.preset == label.preset && next.pool == label.pool
                &&& next.backoff == label.backoff
            }
            ||| {
                &&& i < 2 && j < 2
                &&& label.backoff == waits[i] && next.backoff == waits[j]
                &&& next.preset == label.preset && next.pool == label.pool
                &&& next.block == label.block
            }
        }),
    ensures
        is_required(winner, label, "ubq_"@ + next.written(","@)),
{
    lemma_domain_texts();
    lemma_domains();
    let names = seq![
        "aggressive_prepare"@,
        "balanced"@,
        "pool_conservative"@,
        "no_pool"@,
        "consumer_pool_only"@,
    ];
    let sizes = seq![0u8, 1, 2, 4, 8, 16, 32, 64];
    let lengths = seq![31u16, 63, 127, 255, 511, 1023, 2047, 4095];
    let waits = seq!["crossbeam"@, "yield"@];
    assert(names =~= presets());
    assert(sizes =~= all_pools());
    assert(lengths =~= blocks());
    assert(waits =~= backoffs());
    if next.preset != label.preset {
        order::lemma_first_position(presets(), label.preset, i);
        lemma_adjacent(presets(), i);
        let list = adjacent(presets(), Some(i));
        assert(list.contains(presets()[j]));
        let k = list.index_of(presets()[j]);
        assert(neighbors_along(label, 0)[k] == next);
        assert(neighbors_along(label, 0).contains(next));
    } else if next.pool != label.pool {
        assert(all_pools()[i] == label.pool);
        assert(position_of(all_pools(), label.pool) == Some(i));
        lemma_adjacent(all_pools(), i);
        let list = adjacent(all_pools(), Some(i));
        assert(list.contains(all_pools()[j]));
        let k = list.index_of(all_pools()[j]);
        assert(neighbors_along(label, 1)[k] == next);
        assert(neighbors_along(label, 1).contains(next));
    } else if next.block != label.block {
        assert(blocks()[i] == label.block);
        assert(position_of(blocks(), label.block) == Some(i));
        lemma_adjacent(blocks(), i);
        let list = adjacent(blocks(), Some(i));
        assert(list.contains(blocks()[j]));
        let k = list.index_of(blocks()[j]);
        assert(neighbors_along(label, 2)[k] == next);
        assert(neighbors_along(label, 2).contains(next));
    } else {
        assert(backoffs()[i] == label.backoff);
        assert(next.backoff != label.backoff);
        order::lemma_first_position(backoffs(), label.backoff, i);
        lemma_adjacent(backoffs(), i);
        let list = adjacent(backoffs(), Some(i));
        assert(list.contains(backoffs()[j]));
        let k = list.index_of(backoffs()[j]);
        assert(neighbors_along(label, 3)[k] == next);
        assert(neighbors_along(label, 3).contains(next));
    }
    lemma_variants_hold(label, next);
    assert(entry_label(next) == "ubq_"@ + next.written(","@));
}

/// The winner is required, and so are the presets that use a pool, with the pool
/// of the winner or with one block for a winner without a pool, and the label
/// without a pool, all with the block length and the backoff of the winner.
pub proof fn law_the_other_presets_are_required(
    winner: Seq<char>,
    label: LabelParts,
    next: LabelParts,
)
    requires
        is_valid(label),
        is_valid(next),
        next.block == label.block,
        next.backoff == label.backoff,
        next.preset != "no_pool"@ ==> next.pool == (if label.preset == "no_pool"@ {
            1
        } else {
            label.pool
        }),
    ensures
        is_required(winner, label, winner),
        is_required(winner, label, "ubq_"@ + next.written(","@)),
{
    lemma_domain_texts();
    if next.preset == "no_pool"@ {
        assert(next == unpooled_variant(label));
    } else {
        assert(pooled_presets().contains(next.preset));
        let k = pooled_presets().index_of(next.preset);
        assert(pooled_variants(label, next.pool)[k] == next);
        assert(pooled_variants(label, next.pool).contains(next));
    }
    lemma_variants_hold(label, next);
    assert(entry_label(next) == "ubq_"@ + next.written(","@));
}

/// Nothing else is required: a required label is the winner's, or one that can
/// be built and is one step away in one field, or uses a pool as large as the
/// winner's or of one block where the winner has none, or uses none.
#[verifier::rlimit(40)]
pub proof fn law_nothing_else_is_required(
    winner: Seq<char>,
    label: LabelParts,
    text: Seq<char>,
) -> (next: LabelParts)
    requires
        is_valid(label),
        is_required(winner, label, text),
        text != winner,
    ensures
        is_valid(next),
        text == "ubq_"@ + next.written(","@),
        ({
            let names = seq![
                "aggressive_prepare"@,
                "balanced"@,
                "pool_conservative"@,
                "no_pool"@,
                "consumer_pool_only"@,
            ];
            let sizes = seq![0u8, 1, 2, 4, 8, 16, 32, 64];
            let lengths = seq![31u16, 63, 127, 255, 511, 1023, 2047, 4095];
            let waits = seq!["crossbeam"@, "yield"@];
            ||| {
                &&& next.pool == label.pool && next.block == label.block
                &&& next.backoff == label.backoff
                &&& exists|i: int, j: int|
                    0 <= i < 5 && 0 <= j < 5 && (j == i + 1 || i == j + 1)
                        && #[trigger] names[i] == label.preset && #[trigger] names[j] == next.preset
            }
            ||| {
                &&& next.preset == label.preset && next.block == label.block
                &&& next.backoff == label.backoff
                &&& exists|i: int, j: int|
                    0 <= i < 8 && 0 <= j < 8 && (j == i + 1 || i == j + 1)
                        && #[trigger] sizes[i] == label.pool && #[trigger] sizes[j] == next.pool
            }
            ||| {
                &&& next.preset == label.preset && next.pool == label.pool
                &&& next.backoff == label.backoff
                &&& exists|i: int, j: int|
                    0 <= i < 8 && 0 <= j < 8 && (j == i + 1 || i == j + 1)
                        && #[trigger] lengths[i] == label.block && #[trigger] lengths[j]
                        == next.block
            }
            ||| {
                &&& next.preset == label.preset && next.pool == label.pool
                &&& next.block == label.block
                &&& exists|i: int, j: int|
                    0 <= i < 2 && 0 <= j < 2 && (j == i + 1 || i == j + 1)
                        && #[trigger] waits[i] == label.backoff && #[trigger] waits[j]
                        == next.backoff
            }
            ||| {
                &&& next.block == label.block && next.backoff == label.backoff
                &&& next.preset != "no_pool"@
                &&& next.pool == (if label.preset == "no_pool"@ {
                    1
                } else {
                    label.pool
                })
            }
            ||| {
                &&& next.block == label.block && next.backoff == label.backoff
                &&& next.preset == "no_pool"@ && next.pool == 0
            }
        }),
{
    lemma_domain_texts();
    lemma_domains();
    let names = seq![
        "aggressive_prepare"@,
        "balanced"@,
        "pool_conservative"@,
        "no_pool"@,
        "consumer_pool_only"@,
    ];
    let sizes = seq![0u8, 1, 2, 4, 8, 16, 32, 64];
    let lengths = seq![31u16, 63, 127, 255, 511, 1023, 2047, 4095];
    let waits = seq!["crossbeam"@, "yield"@];
    assert(names =~= presets());
    assert(sizes =~= all_pools());
    assert(lengths =~= blocks());
    assert(waits =~= backoffs());
    let at = choose|i: int|
        0 <= i < variants(label).len() && is_valid(#[trigger] variants(label)[i]) && text
            == entry_label(variants(label)[i]);
    let next = variants(label)[at];
    lemma_variants_hold(label, next);
    if neighbors_along(label, 0).contains(next) {
        let list = neighbors_along(label, 0);
        let i = presets().index_of(label.preset);
        order::lemma_first_position(presets(), label.preset, i);
        lemma_adjacent(presets(), i);
        let k = list.index_of(next);
        let values = adjacent(presets(), Some(i));
        assert(next == with_preset(label, values[k]));
        let j = choose|j: int|
            0 <= j < presets().len() && (j == i + 1 || i == j + 1) && values[k]
                == #[trigger] presets()[j];
        assert(names[i] == label.preset && names[j] == next.preset);
    } else if neighbors_along(label, 1).contains(next) {
        let list = neighbors_along(label, 1);
        let k = list.index_of(next);
        assert(position_of(all_pools(), label.pool) is Some);
        let i = all_pools().index_of(label.pool);
        lemma_adjacent(all_pools(), i);
        let values = adjacent(all_pools(), Some(i));
        assert(next == with_pool(label, values[k]));
        let j = choose|j: int|
            0 <= j < all_pools().len() && (j == i + 1 || i == j + 1) && values[k]
                == #[trigger] all_pools()[j];
        assert(sizes[i] == label.pool && sizes[j] == next.pool);
    } else if neighbors_along(label, 2).contains(next) {
        let list = neighbors_along(label, 2);
        let k = list.index_of(next);
        let i = blocks().index_of(label.block);
        lemma_adjacent(blocks(), i);
        let values = adjacent(blocks(), Some(i));
        assert(next == with_block(label, values[k]));
        let j = choose|j: int|
            0 <= j < blocks().len() && (j == i + 1 || i == j + 1) && values[k]
                == #[trigger] blocks()[j];
        assert(lengths[i] == label.block && lengths[j] == next.block);
    } else if neighbors_along(label, 3).contains(next) {
        let list = neighbors_along(label, 3);
        let i = backoffs().index_of(label.backoff);
        order::lemma_first_position(backoffs(), label.backoff, i);
        lemma_adjacent(backoffs(), i);
        let k = list.index_of(next);
        let values = adjacent(backoffs(), Some(i));
        assert(next == with_backoff(label, values[k]));
        let j = choose|j: int|
            0 <= j < backoffs().len() && (j == i + 1 || i == j + 1) && values[k]
                == #[trigger] backoffs()[j];
        assert(waits[i] == label.backoff && waits[j] == next.backoff);
    } else if next != unpooled_variant(label) {
        let pool = if label.preset == "no_pool"@ {
            1u8
        } else {
            label.pool
        };
        let list = pooled_variants(label, pool);
        let k = list.index_of(next);
        assert(next.preset == pooled_presets()[k]);
        assert(pooled_presets().contains(next.preset));
    }
    next
}

/// Only one entry can win.
pub proof fn law_one_winner(entries: Entries, i: int, j: int)
    requires
        wins(entries, i),
        wins(entries, j),
    ensures
        i == j,
{
    assert(configuration(entries.labels()[i]) is Some);
    assert(configuration(entries.labels()[j]) is Some);
}

pub fn has_complete_immediate_winner_variants(entries: &Entries) -> (complete: bool)
    requires
        entries.wf(),
    ensures
        complete == self::complete(*entries),
{
    match strict_immediate_winner_ubq_labels(entries) {
        None => {
            assert(!self::complete(*entries)) by {
                if self::complete(*entries) {
                    let i = choose|i: int| #[trigger] wins(*entries, i);
                    assert(configuration(entries.labels()[i]) is Some);
                }
            }
            false
        },
        Some((winner, required)) => {
            let ghost at = choose|i: int|
                #![trigger wins(*entries, i)]
                {
                    &&& wins(*entries, i)
                    &&& winner@ == entries.labels()[i]
                };
            let ghost all = texts(required@);
            let mut i: usize = 0;
            while i < required.len()
                invariant
                    all == texts(required@),
                    wins(*entries, at),
                    winner@ == entries.labels()[at],
                    forall|t: Seq<char>| #[trigger]
                        all.contains(t) <==> is_required(winner@, configuration(winner@)->0, t),
                    i <= required@.len(),
                    forall|k: int| 0 <= k < i ==> entries.labels().contains(#[trigger] all[k]),
                decreases required@.len() - i,
            {
                assert(all[i as int] == required@[i as int]@);
                assert(all.contains(all[i as int]));
                if !entries.contains_key(required[i].as_str()) {
                    assert(!self::complete(*entries)) by {
                        if self::complete(*entries) {
                            let other = choose|i: int|
                                #![trigger wins(*entries, i)]
                                {
                                    &&& wins(*entries, i)
                                    &&& forall|t: Seq<char>|
                                        is_required(
                                            entries.labels()[i],
                                            configuration(entries.labels()[i])->0,
                                            t,
                                        ) ==> #[trigger] entries.labels().contains(t)
                                };
                            law_one_winner(*entries, at, other);
                            assert(entries.labels().contains(all[i as int]));
                        }
                    }
                    return false;
                }
                i = i + 1;
            }
            assert(self::complete(*entries)) by {
                assert forall|t: Seq<char>|
                    is_required(
                        entries.labels()[at],
                        configuration(entries.labels()[at])->0,
                        t,
                    ) implies #[trigger] entries.labels().contains(t) by {
                    assert(all.contains(t));
                    let k = all.index_of(t);
                    assert(entries.labels().contains(all[k]));
                }
            }
            true
        },
    }
}

/// The winner is a configuration that no other one beats, and of several with
/// the same mean it is the last.
pub proof fn law_the_winner_is_the_fastest(entries: Entries, i: int, j: int)
    requires
        wins(entries, i),
        0 <= j < entries.labels().len(),
        configuration(entries.labels()[j]) is Some,
    ensures
        configuration(entries.labels()[i]) is Some,
        entries.stats()[j].mean_ops_per_sec <= entries.stats()[i].mean_ops_per_sec,
        entries.stats()[j].mean_ops_per_sec == entries.stats()[i].mean_ops_per_sec ==> j <= i,
{
}

/// Where a configuration has been measured there is a winner.
pub proof fn law_there_is_a_winner(entries: Entries, j: int) -> (i: int)
    requires
        0 <= j < entries.labels().len(),
        configuration(entries.labels()[j]) is Some,
    ensures
        wins(entries, i),
{
    lemma_best_so_far(entries, entries.labels().len() as int, j)
}

proof fn lemma_best_so_far(entries: Entries, n: int, j: int) -> (i: int)
    requires
        0 <= j < n <= entries.labels().len(),
        configuration(entries.labels()[j]) is Some,
    ensures
        0 <= i < n,
        configuration(entries.labels()[i]) is Some,
        forall|k: int|
            0 <= k < n && configuration(#[trigger] entries.labels()[k]) is Some ==> {
                ||| entries.stats()[k].mean_ops_per_sec < entries.stats()[i].mean_ops_per_sec
                ||| entries.stats()[k].mean_ops_per_sec == entries.stats()[i].mean_ops_per_sec && k
                    <= i
            },
    decreases n,
{
    let last = n - 1;
    let there = exists|k: int|
        0 <= k < last && configuration(#[trigger] entries.labels()[k]) is Some;
    if there {
        let k = choose|k: int|
            0 <= k < last && configuration(#[trigger] entries.labels()[k]) is Some;
        let best = lemma_best_so_far(entries, last, k);
        if configuration(entries.labels()[last]) is Some
            && entries.stats()[best].mean_ops_per_sec <= entries.stats()[last].mean_ops_per_sec {
            last
        } else {
            best
        }
    } else {
        last
    }
}

/// A scenario is complete exactly when its winner and all that the winner is
/// compared with have been measured: one missing label leaves it incomplete.
pub proof fn law_complete_means_all_required_are_measured(entries: Entries, i: int)
    requires
        wins(entries, i),
    ensures
        complete(entries) <==> forall|t: Seq<char>|
            is_required(entries.labels()[i], configuration(entries.labels()[i])->0, t)
                ==> #[trigger] entries.labels().contains(t),
{
    if complete(entries) {
        let j = choose|j: int|
            #![trigger wins(entries, j)]
            {
                &&& wins(entries, j)
                &&& forall|t: Seq<char>|
                    is_required(entries.labels()[j], configuration(entries.labels()[j])->0, t)
                        ==> #[trigger] entries.labels().contains(t)
            };
        law_one_winner(entries, i, j);
    }
}

/// The label of an entry names the configuration that it was made of.
pub proof fn law_an_entry_names_its_configuration(label: LabelParts)
    requires
        is_valid(label),
    ensures
        configuration("ubq_"@ + label.written(","@)) == Some(label),
{
    crate::tooling::search::law_a_label_is_read_back(label);
    let text = label.written(","@);
    let entry = "ubq_"@ + text;
    assert(entry.take("ubq_"@.len() as int) =~= "ubq_"@);
    assert(entry.skip("ubq_"@.len() as int) =~= text);
}

} // verus!
