//! Queue configurations, scenarios and the search for the best of them.
use vstd::prelude::*;

use crate::order;
use crate::text::{
    all_digits, decimal, decimal_text, find, fold, folded, lemma_find, parse_unsigned, same,
    split, split_on, texts, trim, trimmed, unsigned,
};
pub use crate::tooling::catalogue::total_valid_ubq_label_count;
pub use crate::tooling::fleet::{format_cmd, normalize_machine, shell_quote, validate_forwarded_args};
pub use crate::tooling::runs::format_missing_key;
pub use crate::tooling::scenarios::parse_scenarios;
pub use crate::tooling::winners::{
    has_complete_immediate_winner_variants, strict_immediate_winner_ubq_labels, Stats,
};

verus! {

/// One configuration of the queue.
#[derive(Clone, Debug, PartialEq, Eq, PartialOrd, Ord)]
pub struct UbqLabel {
    pub preset: String,
    pub pool: u8,
    pub block: u16,
    pub backoff: String,
}

/// The contents of a label.
pub struct LabelParts {
    pub preset: Seq<char>,
    pub pool: u8,
    pub block: u16,
    pub backoff: Seq<char>,
}

impl View for UbqLabel {
    type V = LabelParts;

    open spec fn view(&self) -> LabelParts {
        LabelParts {
            preset: self.preset@,
            pool: self.pool,
            block: self.block,
            backoff: self.backoff@,
        }
    }
}

impl LabelParts {
    /// The four fields with `between` between them.
    pub open spec fn written(&self, between: Seq<char>) -> Seq<char> {
        self.preset + between + decimal(self.pool as nat) + between + decimal(self.block as nat)
            + between + self.backoff
    }
}

impl UbqLabel {
    /// The label with commas between its fields.
    pub fn text(&self) -> (text: String)
        ensures
            text@ == self@.written(","@),
    {
        self.written(",")
    }

    /// The label with underscores, for file names.
    pub fn safe(&self) -> (text: String)
        ensures
            text@ == self@.written("_"@),
    {
        self.written("_")
    }

    fn written(&self, between: &str) -> (text: String)
        ensures
            text@ == self@.written(between@),
    {
        let pool = decimal_text(self.pool as u128);
        let block = decimal_text(self.block as u128);
        let mut text = self.preset.clone();
        text.append(between);
        text.append(pool.as_str());
        text.append(between);
        text.append(block.as_str());
        text.append(between);
        text.append(self.backoff.as_str());
        text
    }

    pub(crate) fn copy(&self) -> (label: UbqLabel)
        ensures
            label@ == self@,
    {
        UbqLabel {
            preset: self.preset.clone(),
            pool: self.pool,
            block: self.block,
            backoff: self.backoff.clone(),
        }
    }
}

/// The presets, from the most eager to the most sparing.
pub open spec fn presets() -> Seq<Seq<char>> {
    seq![
        "aggressive_prepare"@,
        "balanced"@,
        "pool_conservative"@,
        "no_pool"@,
        "consumer_pool_only"@,
    ]
}

/// The presets that use a pool.
pub open spec fn pooled_presets() -> Seq<Seq<char>> {
    seq![
        "aggressive_prepare"@,
        "balanced"@,
        "pool_conservative"@,
        "consumer_pool_only"@,
    ]
}

/// Pool sizes of the presets that use a pool.
pub open spec fn pools() -> Seq<u8> {
    seq![1u8, 2, 4, 8, 16, 32, 64]
}

/// Pool sizes including none.
pub open spec fn all_pools() -> Seq<u8> {
    seq![0u8, 1, 2, 4, 8, 16, 32, 64]
}

/// Block lengths.
pub open spec fn blocks() -> Seq<u16> {
    seq![31u16, 63, 127, 255, 511, 1023, 2047, 4095]
}

pub open spec fn backoffs() -> Seq<Seq<char>> {
    seq!["crossbeam"@, "yield"@]
}

pub(crate) fn preset_values() -> (list: Vec<String>)
    ensures
        texts(list@) == presets(),
{
    let mut list: Vec<String> = Vec::new();
    list.push("aggressive_prepare".to_owned());
    list.push("balanced".to_owned());
    list.push("pool_conservative".to_owned());
    list.push("no_pool".to_owned());
    list.push("consumer_pool_only".to_owned());
    assert(texts(list@) =~= presets());
    list
}

pub(crate) fn pooled_preset_values() -> (list: Vec<String>)
    ensures
        texts(list@) == pooled_presets(),
{
    let mut list: Vec<String> = Vec::new();
    list.push("aggressive_prepare".to_owned());
    list.push("balanced".to_owned());
    list.push("pool_conservative".to_owned());
    list.push("consumer_pool_only".to_owned());
    assert(texts(list@) =~= pooled_presets());
    list
}

pub(crate) fn pool_values() -> (list: Vec<u8>)
    ensures
        list@ == pools(),
{
    vec![1, 2, 4, 8, 16, 32, 64]
}

pub(crate) fn all_pool_values() -> (list: Vec<u8>)
    ensures
        list@ == all_pools(),
{
    vec![0, 1, 2, 4, 8, 16, 32, 64]
}

pub(crate) fn block_values() -> (list: Vec<u16>)
    ensures
        list@ == blocks(),
{
    vec![31, 63, 127, 255, 511, 1023, 2047, 4095]
}

pub(crate) fn backoff_values() -> (list: Vec<String>)
    ensures
        texts(list@) == backoffs(),
{
    let mut list: Vec<String> = Vec::new();
    list.push("crossbeam".to_owned());
    list.push("yield".to_owned());
    assert(texts(list@) =~= backoffs());
    list
}

pub(crate) fn has_u8(list: &Vec<u8>, value: u8) -> (held: bool)
    ensures
        held == list@.contains(value),
{
    let mut i: usize = 0;
    while i < list.len()
        invariant
            i <= list@.len(),
            forall|j: int| 0 <= j < i ==> list@[j] != value,
        decreases list@.len() - i,
    {
        if list[i] == value {
            return true;
        }
        i = i + 1;
    }
    false
}

pub(crate) fn has_u16(list: &Vec<u16>, value: u16) -> (held: bool)
    ensures
        held == list@.contains(value),
{
    let mut i: usize = 0;
    while i < list.len()
        invariant
            i <= list@.len(),
            forall|j: int| 0 <= j < i ==> list@[j] != value,
        decreases list@.len() - i,
    {
        if list[i] == value {
            return true;
        }
        i = i + 1;
    }
    false
}

/// A configuration that can be built: known fields, and a pool exactly where
/// the preset uses one.
pub open spec fn is_valid(label: LabelParts) -> bool {
    &&& presets().contains(label.preset)
    &&& blocks().contains(label.block)
    &&& backoffs().contains(label.backoff)
    &&& if label.preset == "no_pool"@ {
        label.pool == 0
    } else {
        pools().contains(label.pool)
    }
}

pub fn is_valid_ubq_label(label: &UbqLabel) -> (valid: bool)
    ensures
        valid == is_valid(label@),
{
    if !order::holds(&preset_values(), label.preset.as_str()) {
        return false;
    }
    if !has_u16(&block_values(), label.block) {
        return false;
    }
    if !order::holds(&backoff_values(), label.backoff.as_str()) {
        return false;
    }
    if same(label.preset.as_str(), "no_pool") {
        return label.pool == 0;
    }
    has_u8(&pool_values(), label.pool)
}

/// The strings that hold more than white space.
pub open spec fn nonblank(list: Seq<Seq<char>>) -> Seq<Seq<char>>
    decreases list.len(),
{
    if list.len() == 0 {
        Seq::empty()
    } else {
        let rest = nonblank(list.drop_last());
        if trimmed(list.last()).len() == 0 {
            rest
        } else {
            rest.push(list.last())
        }
    }
}

/// The fields of a label: what is between the commas of the folded text, blank
/// fields left out.
pub open spec fn label_fields(token: Seq<char>) -> Seq<Seq<char>> {
    nonblank(split(folded(token), ','))
}

/// The label that a token stands for, known configuration or not.
pub open spec fn label_of(token: Seq<char>) -> Option<LabelParts> {
    let fields = label_fields(token);
    if fields.len() != 4 {
        None
    } else {
        match (unsigned(fields[1], u8::MAX as nat), unsigned(fields[2], u16::MAX as nat)) {
            (Some(pool), Some(block)) => Some(
                LabelParts {
                    preset: fields[0],
                    pool: pool as u8,
                    block: block as u16,
                    backoff: fields[3],
                },
            ),
            _ => None,
        }
    }
}

/// The label that a token is accepted as.
pub open spec fn accepted_label(token: Seq<char>, require_valid: bool) -> Option<LabelParts> {
    match label_of(token) {
        Some(label) => if !require_valid || is_valid(label) {
            Some(label)
        } else {
            None
        },
        None => None,
    }
}

fn label_error(token: &str) -> (message: String)
    ensures
        message@ == "invalid UBQ label '"@ + token@ + "'"@,
{
    let mut message = "invalid UBQ label '".to_owned();
    message.append(token);
    message.append("'");
    message
}

/// The strings that hold more than white space.
fn keep_nonblank(list: &Vec<String>) -> (kept: Vec<String>)
    ensures
        texts(kept@) == nonblank(texts(list@)),
{
    let ghost all = texts(list@);
    let mut kept: Vec<String> = Vec::new();
    let mut i: usize = 0;
    assert(all.take(0) =~= Seq::<Seq<char>>::empty());
    assert(texts(kept@) =~= Seq::<Seq<char>>::empty());
    while i < list.len()
        invariant
            all == texts(list@),
            i <= list@.len(),
            texts(kept@) == nonblank(all.take(i as int)),
        decreases list@.len() - i,
    {
        proof {
            assert(all.take(i + 1).drop_last() =~= all.take(i as int));
            assert(all.take(i + 1).last() == list@[i as int]@);
        }
        let core = trim(list[i].as_str());
        if crate::text::chars_of(core.as_str()).len() > 0 {
            let ghost before = texts(kept@);
            kept.push(list[i].clone());
            assert(texts(kept@) =~= before.push(list@[i as int]@));
        }
        i = i + 1;
    }
    assert(all.take(i as int) =~= all);
    kept
}

/// Reads a label.
pub fn parse_ubq_label(token: &str, require_valid: bool) -> (result: Result<UbqLabel, String>)
    ensures
        match result {
            Ok(label) => accepted_label(token@, require_valid) == Some(label@),
            Err(message) => accepted_label(token@, require_valid) is None && message@
                == "invalid UBQ label '"@ + token@ + "'"@,
        },
{
    let text = fold(token);
    let fields = keep_nonblank(&split_on(text.as_str(), ','));
    let ghost list = label_fields(token@);
    if fields.len() != 4 {
        return Err(label_error(token));
    }
    assert(list[0] == fields@[0]@ && list[1] == fields@[1]@ && list[2] == fields@[2]@ && list[3]
        == fields@[3]@);
    let pool: u8 = match parse_unsigned(fields[1].as_str(), 255) {
        Some(pool) => pool as u8,
        None => return Err(label_error(token)),
    };
    let block: u16 = match parse_unsigned(fields[2].as_str(), 65535) {
        Some(block) => block as u16,
        None => return Err(label_error(token)),
    };
    let label = UbqLabel {
        preset: fields[0].clone(),
        pool,
        block,
        backoff: fields[3].clone(),
    };
    if require_valid && !is_valid_ubq_label(&label) {
        return Err(label_error(token));
    }
    Ok(label)
}

/// A label in its standard notation, if the token is one.
pub fn normalize_ubq_label(token: &str, require_valid: bool) -> (text: Option<String>)
    ensures
        match (text, accepted_label(token@, require_valid)) {
            (Some(text), Some(label)) => text@ == label.written(","@),
            (None, None) => true,
            _ => false,
        },
{
    match parse_ubq_label(token, require_valid) {
        Ok(label) => Some(label.text()),
        Err(_) => None,
    }
}

/// A position as one byte, the largest if there is none.
pub open spec fn rank(position: Option<int>) -> u8 {
    match position {
        Some(i) => i as u8,
        None => 255,
    }
}

/// What labels are sorted by: the fields of a label, and behind all labels the
/// names of everything else.
pub fn bench_label_sort_key(label: &str) -> (key: (u8, u8, u16, u8, String))
    ensures
        match label_of(label@) {
            Some(parts) => {
                &&& key.0 == rank(order::first_position(presets(), parts.preset))
                &&& key.1 == parts.pool
                &&& key.2 == parts.block
                &&& key.3 == rank(order::first_position(backoffs(), parts.backoff))
                &&& key.4@ == parts.backoff
            },
            None => {
                &&& key.0 == 255
                &&& key.1 == 255
                &&& key.2 == u16::MAX
                &&& key.3 == 255
                &&& key.4@ == label@
            },
        },
{
    match parse_ubq_label(label, false) {
        Ok(parsed) => {
            let preset: u8 = match order::position_in(&preset_values(), parsed.preset.as_str()) {
                Some(i) => i as u8,
                None => 255,
            };
            let backoff: u8 = match order::position_in(&backoff_values(), parsed.backoff.as_str()) {
                Some(i) => i as u8,
                None => 255,
            };
            (preset, parsed.pool, parsed.block, backoff, parsed.backoff)
        },
        Err(_) => (255, 255, u16::MAX, 255, label.to_owned()),
    }
}

/// A scenario in standard notation, with the old names replaced.
pub open spec fn scenario_name(name: Seq<char>) -> Seq<char> {
    let key = folded(name);
    if key == "spsc"@ {
        "1p1c"@
    } else if key == "mpsc"@ {
        "4p1c"@
    } else if key == "spmc"@ {
        "1p4c"@
    } else if key == "mpmc"@ {
        "4p4c"@
    } else {
        key
    }
}

pub fn normalize_scenario(name: &str) -> (scenario: String)
    ensures
        scenario@ == scenario_name(name@),
{
    let key = fold(name);
    if same(key.as_str(), "spsc") {
        "1p1c".to_owned()
    } else if same(key.as_str(), "mpsc") {
        "4p1c".to_owned()
    } else if same(key.as_str(), "spmc") {
        "1p4c".to_owned()
    } else if same(key.as_str(), "mpmc") {
        "4p4c".to_owned()
    } else {
        key
    }
}

/// Every string trimmed, blank ones left out.
pub open spec fn trimmed_items(list: Seq<Seq<char>>) -> Seq<Seq<char>> {
    nonblank(list).map_values(|item: Seq<char>| trimmed(item))
}

/// The items of a comma-separated list.
pub fn parse_csv_list(raw: &str) -> (items: Vec<String>)
    ensures
        texts(items@) == trimmed_items(split(raw@, ',')),
{
    let parts = keep_nonblank(&split_on(raw, ','));
    let ghost list = nonblank(split(raw@, ','));
    let mut items: Vec<String> = Vec::new();
    let mut i: usize = 0;
    while i < parts.len()
        invariant
            texts(parts@) == list,
            i <= parts@.len(),
            items@.len() == i,
            forall|j: int| 0 <= j < i ==> #[trigger] items@[j]@ == trimmed(list[j]),
        decreases parts@.len() - i,
    {
        assert(list[i as int] == parts@[i as int]@);
        items.push(trim(parts[i].as_str()));
        i = i + 1;
    }
    assert(texts(items@) =~= trimmed_items(split(raw@, ',')));
    items
}

/// Producer and consumer counts of a scenario such as `4p1c`.
pub open spec fn scenario_threads(scenario: Seq<char>) -> Option<(nat, nat)> {
    let name = scenario_name(scenario);
    let at = find(name, 'p');
    if at >= name.len() || name.len() == 0 || name.last() != 'c' {
        None
    } else {
        let left = name.take(at);
        let right = name.subrange(at + 1, name.len() - 1);
        if !all_digits(left) || !all_digits(right) {
            None
        } else {
            match (unsigned(left, usize::MAX as nat), unsigned(right, usize::MAX as nat)) {
                (Some(producers), Some(consumers)) => if producers == 0 || consumers == 0 {
                    None
                } else {
                    Some((producers, consumers))
                },
                _ => None,
            }
        }
    }
}

fn only_digits(chars: &Vec<char>, from: usize, to: usize) -> (digits: bool)
    requires
        from <= to <= chars@.len(),
    ensures
        digits == all_digits(chars@.subrange(from as int, to as int)),
{
    let ghost part = chars@.subrange(from as int, to as int);
    let mut i: usize = from;
    while i < to
        invariant
            from <= i <= to <= chars@.len(),
            part == chars@.subrange(from as int, to as int),
            forall|j: int| 0 <= j < i - from ==> crate::text::is_digit(#[trigger] part[j]),
        decreases to - i,
    {
        assert(part[i - from] == chars@[i as int]);
        if !crate::text::digit(chars[i]) {
            return false;
        }
        i = i + 1;
    }
    true
}

pub fn parse_scenario_threads(scenario: &str) -> (threads: Option<(usize, usize)>)
    ensures
        match threads {
            Some((producers, consumers)) => scenario_threads(scenario@) == Some(
                (producers as nat, consumers as nat),
            ),
            None => scenario_threads(scenario@) is None,
        },
{
    let name = normalize_scenario(scenario);
    let chars = crate::text::chars_of(name.as_str());
    proof {
        lemma_find(name@, 'p');
    }
    let len: usize = chars.len();
    let mut at: usize = 0;
    while at < len && chars[at] != 'p'
        invariant
            chars@ == name@,
            len == chars@.len(),
            at <= len,
            forall|j: int| 0 <= j < at ==> chars@[j] != 'p',
        decreases len - at,
    {
        at = at + 1;
    }
    proof {
        if find(name@, 'p') < at {
            assert(chars@[find(name@, 'p')] != 'p');
        }
        if at < find(name@, 'p') {
            assert(name@[at as int] != 'p');
        }
    }
    if at >= len || chars[len - 1] != 'c' {
        return None;
    }
    let last: usize = len - 1;
    if at + 1 > last {
        // The name ends with the letter that was searched for.
        assert(name@.last() == 'c');
        assert(name@[at as int] == 'p');
        return None;
    }
    if !only_digits(&chars, 0, at) || !only_digits(&chars, at + 1, last) {
        assert(name@.take(at as int) =~= chars@.subrange(0, at as int));
        return None;
    }
    let left = crate::text::string_of(&chars, 0, at);
    let right = crate::text::string_of(&chars, at + 1, last);
    assert(name@.take(at as int) =~= left@);
    let producers: usize = match parse_unsigned(left.as_str(), usize::MAX as u128) {
        Some(count) => count as usize,
        None => return None,
    };
    let consumers: usize = match parse_unsigned(right.as_str(), usize::MAX as u128) {
        Some(count) => count as usize,
        None => return None,
    };
    if producers == 0 || consumers == 0 {
        return None;
    }
    Some((producers, consumers))
}

/// What scenarios are sorted by: the thread counts, and behind all those that
/// have them the names of the others.
pub open spec fn scenario_key(name: Seq<char>) -> (int, int, int, Seq<char>) {
    let scenario = scenario_name(name);
    match scenario_threads(scenario) {
        Some((producers, consumers)) => (0, producers as int, consumers as int, scenario),
        None => (1, usize::MAX as int, usize::MAX as int, scenario),
    }
}

pub fn scenario_sort_key(name: &str) -> (key: (u8, usize, usize, String))
    ensures
        scenario_key(name@) == (key.0 as int, key.1 as int, key.2 as int, key.3@),
{
    let scenario = normalize_scenario(name);
    match parse_scenario_threads(scenario.as_str()) {
        Some((producers, consumers)) => (0, producers, consumers, scenario),
        None => (1, usize::MAX, usize::MAX, scenario),
    }
}

/// Small letters, digits and bars alone.
spec fn is_plain(s: Seq<char>) -> bool {
    &&& s.len() > 0
    &&& forall|i: int|
        0 <= i < s.len() ==> ('a' <= #[trigger] s[i] <= 'z') || ('0' <= s[i] <= '9') || s[i] == '_'
}

proof fn lemma_plain_fields(label: LabelParts)
    requires
        is_valid(label),
    ensures
        is_plain(label.preset),
        is_plain(decimal(label.pool as nat)),
        is_plain(decimal(label.block as nat)),
        is_plain(label.backoff),
{
    reveal_strlit("aggressive_prepare");
    reveal_strlit("balanced");
    reveal_strlit("pool_conservative");
    reveal_strlit("no_pool");
    reveal_strlit("consumer_pool_only");
    reveal_strlit("crossbeam");
    reveal_strlit("yield");
    let i = presets().index_of(label.preset);
    assert(presets()[i] == label.preset);
    assert(is_plain("aggressive_prepare"@));
    assert(is_plain("balanced"@));
    assert(is_plain("pool_conservative"@));
    assert(is_plain("no_pool"@));
    assert(is_plain("consumer_pool_only"@));
    let j = backoffs().index_of(label.backoff);
    assert(backoffs()[j] == label.backoff);
    assert(is_plain("crossbeam"@));
    assert(is_plain("yield"@));
    crate::text::lemma_decimal(label.pool as nat);
    crate::text::lemma_decimal(label.block as nat);
    assert forall|n: nat, k: int|
        0 <= k < decimal(n).len() && all_digits(decimal(n)) implies '0' <= #[trigger] decimal(n)[k]
        <= '9' by {
        assert(crate::text::is_digit(decimal(n)[k]));
    }
}

proof fn lemma_plain_is_kept(s: Seq<char>)
    requires
        is_plain(s),
    ensures
        trimmed(s) == s,
        !s.contains(','),
{
    crate::text::lemma_plain_text(s);
    if s.contains(',') {
        let k = s.index_of(',');
        assert(s[k] == ',');
    }
}

/// Strings that are not blank all stay.
proof fn lemma_nonblank_all(list: Seq<Seq<char>>)
    requires
        forall|i: int| 0 <= i < list.len() ==> trimmed(#[trigger] list[i]).len() > 0,
    ensures
        nonblank(list) == list,
    decreases list.len(),
{
    if list.len() > 0 {
        lemma_nonblank_all(list.drop_last());
    }
    assert(nonblank(list) =~= list);
}

/// What is left of a list are its strings with more than white space, in their
/// order.
pub proof fn law_blank_strings_are_left_out(list: Seq<Seq<char>>)
    ensures
        nonblank(list) == list.filter(|s: Seq<char>| trimmed(s).len() > 0),
    decreases list.len(),
{
    reveal(Seq::filter);
    if list.len() > 0 {
        law_blank_strings_are_left_out(list.drop_last());
    }
}

/// A configuration that can be built is read back from its notation.
pub proof fn law_a_label_is_read_back(label: LabelParts)
    requires
        is_valid(label),
    ensures
        label_of(label.written(","@)) == Some(label),
        accepted_label(label.written(","@), true) == Some(label),
        accepted_label(label.written(","@), false) == Some(label),
{
    let pool = decimal(label.pool as nat);
    let block = decimal(label.block as nat);
    let parts = seq![label.preset, pool, block, label.backoff];
    let text = label.written(","@);
    reveal_strlit(",");
    assert(","@ =~= seq![',']);
    lemma_plain_fields(label);
    lemma_plain_is_kept(label.preset);
    lemma_plain_is_kept(pool);
    lemma_plain_is_kept(block);
    lemma_plain_is_kept(label.backoff);
    reveal_with_fuel(crate::text::joined, 5);
    assert(parts.drop_last() =~= seq![label.preset, pool, block]);
    assert(parts.drop_last().drop_last() =~= seq![label.preset, pool]);
    assert(parts.drop_last().drop_last().drop_last() =~= seq![label.preset]);
    assert(crate::text::joined(parts, seq![',']) =~= text);
    crate::text::law_joined_parts_split_again(parts, ',');
    let a = label.preset.len() as int;
    let b = a + 1 + pool.len();
    let c = b + 1 + block.len();
    assert forall|i: int| 0 <= i < text.len() implies !('A' <= #[trigger] text[i] <= 'Z') by {
        if i < a {
            assert(text[i] == label.preset[i]);
        } else if a < i < b {
            assert(text[i] == pool[i - a - 1]);
        } else if b < i < c {
            assert(text[i] == block[i - b - 1]);
        } else if c < i {
            assert(text[i] == label.backoff[i - c - 1]);
        }
    }
    assert(text[0] == label.preset[0]);
    assert(text.last() == label.backoff.last());
    crate::text::lemma_plain_text(text);
    lemma_nonblank_all(parts);
    assert(label_fields(text) == parts);
    crate::text::law_decimal_round_trip(label.pool as nat, u8::MAX as nat);
    crate::text::law_decimal_round_trip(label.block as nat, u16::MAX as nat);
}

/// The configurations that can be built: one of the five presets, a block length
/// and a backoff of those listed, and a pool of a listed size, or none for the
/// preset without one.
pub proof fn law_the_configurations(label: LabelParts)
    ensures
        is_valid(label) <==> {
            &&& seq![
                "aggressive_prepare"@,
                "balanced"@,
                "pool_conservative"@,
                "no_pool"@,
                "consumer_pool_only"@,
            ].contains(label.preset)
            &&& seq![31u16, 63, 127, 255, 511, 1023, 2047, 4095].contains(label.block)
            &&& seq!["crossbeam"@, "yield"@].contains(label.backoff)
            &&& label.preset == "no_pool"@ ==> label.pool == 0
            &&& label.preset != "no_pool"@ ==> seq![1u8, 2, 4, 8, 16, 32, 64].contains(label.pool)
        },
{
}

/// The items of a comma-separated list are read back: those that hold no comma
/// and neither begin nor end with white space, as they were and in their order.
pub proof fn law_list_items_are_read_back(items: Seq<Seq<char>>)
    requires
        items.len() > 0,
        forall|i: int|
            0 <= i < items.len() ==> {
                &&& (#[trigger] items[i]).len() > 0
                &&& trimmed(items[i]) == items[i]
                &&& !items[i].contains(',')
            },
    ensures
        trimmed_items(split(crate::text::joined(items, seq![',']), ',')) == items,
{
    crate::text::law_joined_parts_split_again(items, ',');
    lemma_nonblank_all(items);
    assert(trimmed_items(items) =~= items);
}

/// Every item of a list is a part of it, trimmed, and has something left.
pub proof fn law_list_items_are_trimmed_parts(raw: Seq<char>, i: int)
    requires
        0 <= i < trimmed_items(split(raw, ',')).len(),
    ensures
        trimmed_items(split(raw, ','))[i].len() > 0,
        exists|k: int|
            0 <= k < split(raw, ',').len() && trimmed_items(split(raw, ','))[i] == trimmed(
                #[trigger] split(raw, ',')[k],
            ),
{
    let parts = split(raw, ',');
    let pred = |s: Seq<char>| trimmed(s).len() > 0;
    law_blank_strings_are_left_out(parts);
    broadcast use vstd::seq_lib::group_filter_ensures;
    let part = nonblank(parts)[i];
    assert(pred(part));
    lemma_nonblank_from(parts, i);
}

proof fn lemma_nonblank_from(list: Seq<Seq<char>>, i: int)
    requires
        0 <= i < nonblank(list).len(),
    ensures
        exists|k: int| 0 <= k < list.len() && nonblank(list)[i] == #[trigger] list[k],
    decreases list.len(),
{
    let rest = list.drop_last();
    if i < nonblank(rest).len() {
        lemma_nonblank_from(rest, i);
        let k = choose|k: int| 0 <= k < rest.len() && nonblank(rest)[i] == #[trigger] rest[k];
        assert(list[k] == rest[k]);
        assert(nonblank(list)[i] == nonblank(rest)[i]);
    } else {
        assert(nonblank(list)[i] == list[list.len() - 1]);
    }
}

/// The name of a scenario is its text trimmed and in lower case, but for the four
/// old names, which stand for one or four threads on each side.
pub proof fn law_scenario_names(name: Seq<char>, other: Seq<char>)
    ensures
        folded(name) == folded(other) ==> scenario_name(name) == scenario_name(other),
        folded(name) == "spsc"@ ==> scenario_name(name) == "1p1c"@,
        folded(name) == "mpsc"@ ==> scenario_name(name) == "4p1c"@,
        folded(name) == "spmc"@ ==> scenario_name(name) == "1p4c"@,
        folded(name) == "mpmc"@ ==> scenario_name(name) == "4p4c"@,
        !seq!["spsc"@, "mpsc"@, "spmc"@, "mpmc"@].contains(folded(name)) ==> scenario_name(name)
            == folded(name),
{
    reveal_strlit("spsc");
    reveal_strlit("mpsc");
    reveal_strlit("spmc");
    reveal_strlit("mpmc");
    let old_names = seq!["spsc"@, "mpsc"@, "spmc"@, "mpmc"@];
    assert(old_names[0] == "spsc"@ && old_names[1] == "mpsc"@ && old_names[2] == "spmc"@
        && old_names[3] == "mpmc"@);
    assert("spsc"@[0] != "mpsc"@[0] && "spsc"@[2] != "spmc"@[2] && "mpsc"@[2] != "mpmc"@[2]);
    assert("spmc"@[0] != "mpmc"@[0] && "spsc"@[2] != "mpmc"@[2] && "mpsc"@[2] != "spmc"@[2]);
}

/// The thread counts of a scenario are read back from its notation: the number of
/// producers, `p`, the number of consumers, `c`.
pub proof fn law_thread_counts_are_read_back(producers: nat, consumers: nat)
    requires
        0 < producers <= usize::MAX,
        0 < consumers <= usize::MAX,
    ensures
        scenario_threads(decimal(producers) + seq!['p'] + decimal(consumers) + seq!['c']) == Some(
            (producers, consumers),
        ),
        scenario_name(decimal(producers) + seq!['p'] + decimal(consumers) + seq!['c']) == decimal(
            producers,
        ) + seq!['p'] + decimal(consumers) + seq!['c'],
{
    let left = decimal(producers);
    let right = decimal(consumers);
    let name = left + seq!['p'] + right + seq!['c'];
    let at = left.len() as int;
    crate::text::lemma_decimal(producers);
    crate::text::lemma_decimal(consumers);
    assert forall|i: int| 0 <= i < name.len() implies !('A' <= #[trigger] name[i] <= 'Z') by {
        if i < at {
            assert(crate::text::is_digit(left[i]));
        } else if at < i < at + 1 + right.len() {
            assert(crate::text::is_digit(right[i - at - 1]));
        }
    }
    assert(crate::text::is_digit(left[0]));
    assert(name[0] == left[0]);
    assert(name.last() == 'c');
    crate::text::lemma_plain_text(name);
    reveal_strlit("spsc");
    reveal_strlit("mpsc");
    reveal_strlit("spmc");
    reveal_strlit("mpmc");
    assert(name[0] != "spsc"@[0] && name[0] != "mpsc"@[0] && name[0] != "spmc"@[0] && name[0]
        != "mpmc"@[0]);
    assert(scenario_name(name) == name);
    lemma_find(name, 'p');
    assert(name[at] == 'p');
    assert(find(name, 'p') == at) by {
        let k = find(name, 'p');
        if k < at {
            assert(name[k] == left[k]);
            assert(crate::text::is_digit(left[k]));
        }
    }
    assert(name.take(at) =~= left);
    assert(name.subrange(at + 1, name.len() - 1) =~= right);
    crate::text::law_decimal_round_trip(producers, usize::MAX as nat);
    crate::text::law_decimal_round_trip(consumers, usize::MAX as nat);
}

/// Only a name of that form has thread counts, and neither count is zero.
pub proof fn law_thread_counts_need_the_form(scenario: Seq<char>)
    requires
        scenario_threads(scenario) is Some,
    ensures
        (scenario_threads(scenario)->0).0 > 0,
        (scenario_threads(scenario)->0).1 > 0,
        exists|left: Seq<char>, right: Seq<char>|
            #![trigger left + seq!['p'] + right + seq!['c']]
            {
                &&& scenario_name(scenario) == left + seq!['p'] + right + seq!['c']
                &&& left.len() > 0 && all_digits(left)
                &&& right.len() > 0 && all_digits(right)
                &&& crate::text::digits_value(left) == (scenario_threads(scenario)->0).0
                &&& crate::text::digits_value(right) == (scenario_threads(scenario)->0).1
            },
{
    let name = scenario_name(scenario);
    let at = find(name, 'p');
    lemma_find(name, 'p');
    let left = name.take(at);
    let right = name.subrange(at + 1, name.len() - 1);
    if at == name.len() - 1 {
        assert(name[at] == 'p');
    }
    assert(name =~= left + seq!['p'] + right + seq!['c']);
    if left.len() > 0 {
        assert(crate::text::is_digit(left[0]));
    }
    if right.len() > 0 {
        assert(crate::text::is_digit(right[0]));
    }
    assert(crate::text::unsigned_digits(left) == left);
    assert(crate::text::unsigned_digits(right) == right);
}

} // verus!
