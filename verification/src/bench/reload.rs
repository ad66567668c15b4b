//! When a failed exchange of the low word asks for a look at the whole head.
use vstd::prelude::*;

use crate::bench::blocks::updater_counts;
use crate::bench::numbers::{law_last_is_largest, rising, sorted_distinct};
use crate::bench::trial::detected_limit;
use crate::bench::updates::wrapped;
use crate::text::{decimal, decimal_text, trim, trimmed};

verus! {

/// One more than the largest index: the token has the sixteen bits above.
pub const INDEX_FIELD: u64 = 0x1_0000_0000_0000;

/// What is done after a failed exchange.
#[derive(Clone, Copy, Debug, PartialEq, Eq, Structural)]
pub enum ReloadStrategy {
    AlwaysWide,
    TokenGated,
}

impl ReloadStrategy {
    pub fn name(self) -> (name: &'static str)
        ensures
            name@ == (match self {
                ReloadStrategy::AlwaysWide => "always-wide"@,
                ReloadStrategy::TokenGated => "token-gated"@,
            }),
    {
        match self {
            ReloadStrategy::AlwaysWide => "always-wide",
            ReloadStrategy::TokenGated => "token-gated",
        }
    }
}

/// The token of a low word.
pub fn token(low: u64) -> (token: u16)
    ensures
        token == low / INDEX_FIELD,
{
    (low / INDEX_FIELD) as u16
}

/// The index of a low word.
pub fn head_index(low: u64) -> (index: u64)
    ensures
        index == low % INDEX_FIELD,
{
    low % INDEX_FIELD
}

/// What a thread remembers of the head.
#[derive(Clone, Copy, Debug, PartialEq, Eq, Structural)]
pub struct HeadToken {
    pub token: u16,
    pub pointer: u64,
}

/// What a thread counts.
#[derive(Clone, Copy, Debug, PartialEq, Eq, Structural)]
pub struct WorkerStats {
    pub reservations: u64,
    pub items: u128,
    pub cas_failures: u64,
    pub wide_loads: u64,
    pub token_hits: u64,
    pub token_misses: u64,
    pub checksum: u64,
}

/// A word with its bits moved up by `places`, those that fall out coming back
/// at the other end.
pub open spec fn turned(word: u64, places: u64) -> u64 {
    if places == 0 {
        word
    } else {
        (word << places) | (word >> ((64 - places) as u64))
    }
}

fn turn(word: u64, places: u64) -> (result: u64)
    requires
        places < 64,
    ensures
        result == turned(word, places),
{
    if places == 0 {
        word
    } else {
        (word << places) | (word >> (64 - places))
    }
}

/// The low word of a head.
pub open spec fn low_word(full: u128) -> u64 {
    (full % 0x1_0000_0000_0000_0000) as u64
}

/// The pointer of a head.
pub open spec fn high_word(full: u128) -> u64 {
    (full / 0x1_0000_0000_0000_0000) as u64
}

/// What follows a failed exchange.
#[derive(Clone, Copy, Debug, PartialEq, Eq, Structural)]
pub enum Retry {
    /// Try again with the word that was found.
    Seen,
    /// Look at the whole head first.
    Reload,
}

/// What follows a failed exchange that found a word with some token.
pub open spec fn retry_of(strategy: ReloadStrategy, cached: u16, found: int) -> Retry {
    if strategy == ReloadStrategy::TokenGated && found == cached {
        Retry::Seen
    } else {
        Retry::Reload
    }
}

impl WorkerStats {
    pub open spec fn zero() -> WorkerStats {
        WorkerStats {
            reservations: 0,
            items: 0,
            cas_failures: 0,
            wide_loads: 0,
            token_hits: 0,
            token_misses: 0,
            checksum: 0,
        }
    }

    pub fn new() -> (stats: WorkerStats)
        ensures
            stats == WorkerStats::zero(),
    {
        WorkerStats {
            reservations: 0,
            items: 0,
            cas_failures: 0,
            wide_loads: 0,
            token_hits: 0,
            token_misses: 0,
            checksum: 0,
        }
    }

    /// The counts after a load of the whole head. The checksum keeps both of
    /// its halves.
    pub open spec fn after_load(self, full: u128) -> WorkerStats {
        WorkerStats {
            wide_loads: wrapped(self.wide_loads + 1) as u64,
            checksum: wrapped(turned(self.checksum, 7) + (high_word(full) ^ low_word(full))) as u64,
            ..self
        }
    }

    /// Takes a whole head apart and counts the load.
    pub fn load_full(&mut self, full: u128) -> (head: (u64, HeadToken))
        ensures
            *final(self) == old(self).after_load(full),
            head.0 == low_word(full),
            head.1.token == head.0 / INDEX_FIELD,
            head.1.pointer == high_word(full),
    {
        let low: u64 = (full % 0x1_0000_0000_0000_0000) as u64;
        let pointer: u64 = (full / 0x1_0000_0000_0000_0000) as u64;
        self.wide_loads = self.wide_loads.wrapping_add(1);
        self.checksum = turn(self.checksum, 7).wrapping_add(pointer ^ low);
        (low, HeadToken { token: token(low), pointer })
    }

    /// The counts after a reservation at `index` under `pointer`.
    pub open spec fn after_success(self, batch_size: u64, pointer: u64, index: u64) -> WorkerStats {
        WorkerStats {
            reservations: wrapped(self.reservations + 1) as u64,
            items: ((self.items + batch_size) % (u128::MAX + 1)) as u128,
            checksum: self.checksum ^ turned(pointer, index % 64),
            ..self
        }
    }

    /// Counts a reservation.
    pub fn reserved(&mut self, batch_size: u64, pointer: u64, index: u64)
        ensures
            *final(self) == old(self).after_success(batch_size, pointer, index),
    {
        self.reservations = self.reservations.wrapping_add(1);
        self.items = self.items.wrapping_add(batch_size as u128);
        self.checksum = self.checksum ^ turn(pointer, index % 64);
    }

    pub open spec fn after_failure(
        self,
        strategy: ReloadStrategy,
        cached: u16,
        found: int,
    ) -> WorkerStats {
        let failed = WorkerStats {
            cas_failures: wrapped(self.cas_failures + 1) as u64,
            ..self
        };
        if strategy == ReloadStrategy::AlwaysWide {
            failed
        } else if found == cached {
            WorkerStats { token_hits: wrapped(self.token_hits + 1) as u64, ..failed }
        } else {
            WorkerStats { token_misses: wrapped(self.token_misses + 1) as u64, ..failed }
        }
    }

    /// An exchange failed and found another word.
    pub fn failed(&mut self, strategy: ReloadStrategy, cache: HeadToken, actual: u64) -> (retry:
        Retry)
        ensures
            *final(self) == old(self).after_failure(
                strategy,
                cache.token,
                (actual / INDEX_FIELD) as int,
            ),
            retry == retry_of(strategy, cache.token, (actual / INDEX_FIELD) as int),
    {
        self.cas_failures = self.cas_failures.wrapping_add(1);
        match strategy {
            ReloadStrategy::AlwaysWide => Retry::Reload,
            ReloadStrategy::TokenGated => {
                if token(actual) == cache.token {
                    self.token_hits = self.token_hits.wrapping_add(1);
                    Retry::Seen
                } else {
                    self.token_misses = self.token_misses.wrapping_add(1);
                    Retry::Reload
                }
            },
        }
    }

    /// The counts go together while `open` reservations are under way: every
    /// look at the whole head belongs to a reservation, or to a failure after
    /// which it is wanted; and with tokens every failure is a hit or a miss.
    pub open spec fn balanced(self, strategy: ReloadStrategy, open: int) -> bool {
        match strategy {
            ReloadStrategy::AlwaysWide => {
                &&& self.wide_loads == wrapped(self.reservations + self.cas_failures + open)
                &&& self.token_hits == 0
                &&& self.token_misses == 0
            },
            ReloadStrategy::TokenGated => {
                &&& self.wide_loads == wrapped(self.reservations + self.token_misses + open)
                &&& self.cas_failures == wrapped(self.token_hits + self.token_misses)
            },
        }
    }
}

/// A reservation begins with a look at the head, and ends with a success: both
/// keep the counts balanced.
pub proof fn law_reservation_keeps_balance(
    stats: WorkerStats,
    strategy: ReloadStrategy,
    full: u128,
    batch_size: u64,
    pointer: u64,
    index: u64,
)
    ensures
        WorkerStats::zero().balanced(strategy, 0),
        stats.balanced(strategy, 0) ==> stats.after_load(full).balanced(strategy, 1),
        stats.balanced(strategy, 1) ==> stats.after_success(batch_size, pointer, index).balanced(
            strategy,
            0,
        ),
{
    let loaded = stats.after_load(full);
    let done = stats.after_success(batch_size, pointer, index);
    lemma_load(stats.wide_loads as int, stats.reservations as int, stats.cas_failures as int);
    lemma_load(stats.wide_loads as int, stats.reservations as int, stats.token_misses as int);
    assert(loaded.wide_loads == wrapped(stats.wide_loads + 1));
    assert(done.reservations == wrapped(stats.reservations + 1));
}

/// A load and a reservation, counted on both sides.
proof fn lemma_load(loads: int, a: int, b: int)
    ensures
        loads == wrapped(a + b) ==> wrapped(loads + 1) == wrapped(a + b + 1),
        loads == wrapped(a + b + 1) ==> loads == wrapped(wrapped(a + 1) + b),
{
}

/// A failure keeps the counts balanced, once what it asks for has been done.
pub proof fn law_failure_keeps_balance(
    stats: WorkerStats,
    strategy: ReloadStrategy,
    cached: u16,
    found: int,
    full: u128,
)
    requires
        stats.balanced(strategy, 1),
    ensures
        ({
            let failed = stats.after_failure(strategy, cached, found);
            match retry_of(strategy, cached, found) {
                Retry::Seen => failed.balanced(strategy, 1),
                Retry::Reload => failed.after_load(full).balanced(strategy, 1),
            }
        }),
{
    lemma_carry(
        stats.wide_loads as int,
        stats.reservations as int,
        stats.cas_failures as int,
    );
    lemma_carry(
        stats.wide_loads as int,
        stats.reservations as int,
        stats.token_misses as int,
    );
    lemma_split(
        stats.cas_failures as int,
        stats.token_hits as int,
        stats.token_misses as int,
    );
}

proof fn lemma_carry(loads: int, a: int, b: int)
    ensures
        loads == wrapped(a + b + 1) ==> wrapped(loads + 1) == wrapped(a + wrapped(b + 1) + 1),
{
}

proof fn lemma_split(failures: int, hits: int, misses: int)
    ensures
        failures == wrapped(hits + misses) ==> wrapped(failures + 1) == wrapped(
            wrapped(hits + 1) + misses,
        ),
        failures == wrapped(hits + misses) ==> wrapped(failures + 1) == wrapped(
            hits + wrapped(misses + 1),
        ),
{
}

/// While the token does not change, no failure misses it: then a look at the
/// head is taken once for each reservation.
pub proof fn law_steady_token_saves_loads(stats: WorkerStats)
    requires
        stats.balanced(ReloadStrategy::TokenGated, 0),
        stats.token_misses == 0,
    ensures
        stats.wide_loads == stats.reservations,
        stats.token_hits == stats.cas_failures,
{
}

/// How many reservations a thread makes between two looks at the clock.
pub const RELOAD_CHUNK: usize = 256;

/// A head whose low word was raised by `amount`.
pub open spec fn raised(full: u128, amount: int) -> u128 {
    (full + amount) as u128
}

/// One attempt to reserve, from what was seen of the head. Where the head is
/// still the same the reservation is made; else the result is what the next
/// attempt starts from.
pub fn attempt_reservation(
    head: &mut u128,
    strategy: ReloadStrategy,
    batch_size: u64,
    current: u64,
    cache: HeadToken,
    stats: &mut WorkerStats,
) -> (next: Option<(u64, HeadToken)>)
    requires
        current % INDEX_FIELD + batch_size < INDEX_FIELD,
    ensures
        ({
            let found = low_word(*old(head));
            let found_token = (found / INDEX_FIELD) as int;
            if found == current {
                &&& next is None
                &&& *final(head) == raised(*old(head), batch_size as int)
                &&& *final(stats) == old(stats).after_success(
                    batch_size,
                    cache.pointer,
                    current % INDEX_FIELD,
                )
            } else {
                &&& *final(head) == *old(head)
                &&& next is Some
                &&& (next->0).0 == found
                &&& match retry_of(strategy, cache.token, found_token) {
                    Retry::Seen => (next->0).1 == cache && *final(stats)
                        == old(stats).after_failure(strategy, cache.token, found_token),
                    Retry::Reload => (next->0).1 == (HeadToken {
                        token: found_token as u16,
                        pointer: high_word(*old(head)),
                    }) && *final(stats) == old(stats).after_failure(
                        strategy,
                        cache.token,
                        found_token,
                    ).after_load(*old(head)),
                }
            }
        }),
{
    let full: u128 = *head;
    let found: u64 = (full % 0x1_0000_0000_0000_0000) as u64;
    if found == current {
        *head = full + batch_size as u128;
        stats.reserved(batch_size, cache.pointer, head_index(current));
        return None;
    }
    match stats.failed(strategy, cache, found) {
        Retry::Seen => Some((found, cache)),
        Retry::Reload => Some(stats.load_full(full)),
    }
}

/// The counts after `n` reservations in a row that nothing disturbs.
pub open spec fn after_rounds(stats: WorkerStats, full: u128, batch_size: u64, n: nat) -> WorkerStats
    decreases n,
{
    if n == 0 {
        stats
    } else {
        let seen = raised(full, (n - 1) * batch_size);
        after_rounds(stats, full, batch_size, (n - 1) as nat).after_load(seen).after_success(
            batch_size,
            high_word(seen),
            low_word(seen) % INDEX_FIELD,
        )
    }
}

/// One chunk of reservations. Undisturbed, every first attempt succeeds.
pub fn run_chunk(
    head: &mut u128,
    strategy: ReloadStrategy,
    batch_size: u64,
    stats: &mut WorkerStats,
)
    requires
        low_word(*old(head)) % INDEX_FIELD + RELOAD_CHUNK * batch_size < INDEX_FIELD,
    ensures
        *final(head) == raised(*old(head), RELOAD_CHUNK * batch_size),
        *final(stats) == after_rounds(*old(stats), *old(head), batch_size, RELOAD_CHUNK as nat),
{
    let ghost start = *head;
    let ghost before = *stats;
    let mut i: usize = 0;
    while i < RELOAD_CHUNK
        invariant
            i <= RELOAD_CHUNK,
            low_word(start) % INDEX_FIELD + RELOAD_CHUNK * batch_size < INDEX_FIELD,
            *head == start + i * batch_size,
            *stats == after_rounds(before, start, batch_size, i as nat),
        decreases RELOAD_CHUNK - i,
    {
        assert(i * batch_size + batch_size <= RELOAD_CHUNK * batch_size) by (nonlinear_arith)
            requires
                i < RELOAD_CHUNK,
        ;
        assert((i + 1) * batch_size == i * batch_size + batch_size) by (nonlinear_arith);
        assert((i + 1 - 1) * batch_size == i * batch_size);
        proof {
            lemma_raised(start, i * batch_size);
        }
        let (current, cache) = stats.load_full(*head);
        let _next = attempt_reservation(head, strategy, batch_size, current, cache, stats);
        i = i + 1;
    }
}

/// Raising the low word inside its index keeps the token and the pointer.
pub proof fn lemma_raised(full: u128, amount: int)
    requires
        0 <= amount,
        low_word(full) % INDEX_FIELD + amount < INDEX_FIELD,
    ensures
        raised(full, amount) == full + amount,
        low_word(raised(full, amount)) == low_word(full) + amount,
        low_word(raised(full, amount)) % INDEX_FIELD == low_word(full) % INDEX_FIELD + amount,
        low_word(raised(full, amount)) / INDEX_FIELD == low_word(full) / INDEX_FIELD,
        high_word(raised(full, amount)) == high_word(full),
{
    let low = low_word(full) as int;
    let high = high_word(full) as int;
    assert(low < 0x1_0000_0000_0000_0000);
    assert(low == 0x1_0000_0000_0000 * (low / 0x1_0000_0000_0000) + low % 0x1_0000_0000_0000);
    assert(low + amount < 0x1_0000_0000_0000_0000);
    assert(full == 0x1_0000_0000_0000_0000 * high + low);
}

/// What the counts of all threads together are checked for.
pub open spec fn sample_fault(
    strategy: ReloadStrategy,
    sums: WorkerStats,
    final_low: u64,
) -> Option<Seq<char>> {
    if sums.reservations == 0 {
        Some("sample completed without a successful reservation"@)
    } else if final_low / INDEX_FIELD != 0 {
        Some("16-bit token changed during a steady-frontier sample"@)
    } else if strategy == ReloadStrategy::AlwaysWide && sums.wide_loads != wrapped(
        sums.reservations + sums.cas_failures,
    ) {
        Some(
            "always-wide load accounting mismatch: "@ + decimal(sums.wide_loads as nat) + " != "@
                + decimal(sums.reservations as nat) + " + "@ + decimal(sums.cas_failures as nat),
        )
    } else if strategy == ReloadStrategy::TokenGated && sums.wide_loads != sums.reservations {
        Some(
            "token-gated load accounting mismatch: "@ + decimal(sums.wide_loads as nat) + " != "@
                + decimal(sums.reservations as nat),
        )
    } else if strategy == ReloadStrategy::TokenGated && (sums.token_hits != sums.cas_failures
        || sums.token_misses != 0) {
        Some("steady token did not classify every failed CAS as a hit"@)
    } else {
        None
    }
}

pub fn check_sample(strategy: ReloadStrategy, sums: WorkerStats, final_low: u64) -> (result: Result<
    (),
    String,
>)
    ensures
        match result {
            Ok(_) => sample_fault(strategy, sums, final_low) is None,
            Err(message) => sample_fault(strategy, sums, final_low) == Some(message@),
        },
{
    if sums.reservations == 0 {
        return Err("sample completed without a successful reservation".to_owned());
    }
    if token(final_low) != 0 {
        return Err("16-bit token changed during a steady-frontier sample".to_owned());
    }
    let loads = decimal_text(sums.wide_loads as u128);
    let reservations = decimal_text(sums.reservations as u128);
    match strategy {
        ReloadStrategy::AlwaysWide => {
            if sums.wide_loads != sums.reservations.wrapping_add(sums.cas_failures) {
                let failures = decimal_text(sums.cas_failures as u128);
                let mut message = "always-wide load accounting mismatch: ".to_owned();
                message.append(loads.as_str());
                message.append(" != ");
                message.append(reservations.as_str());
                message.append(" + ");
                message.append(failures.as_str());
                return Err(message);
            }
        },
        ReloadStrategy::TokenGated => {
            if sums.wide_loads != sums.reservations {
                let mut message = "token-gated load accounting mismatch: ".to_owned();
                message.append(loads.as_str());
                message.append(" != ");
                message.append(reservations.as_str());
                return Err(message);
            }
            if sums.token_hits != sums.cas_failures || sums.token_misses != 0 {
                return Err("steady token did not classify every failed CAS as a hit".to_owned());
            }
        },
    }
    Ok(())
}

/// The sum of the counts of two threads; none if it does not fit.
pub fn add_stats(a: WorkerStats, b: WorkerStats) -> (sum: Option<WorkerStats>)
    ensures
        match sum {
            Some(sum) => {
                &&& sum.reservations == a.reservations + b.reservations
                &&& sum.items == a.items + b.items
                &&& sum.cas_failures == a.cas_failures + b.cas_failures
                &&& sum.wide_loads == a.wide_loads + b.wide_loads
                &&& sum.token_hits == a.token_hits + b.token_hits
                &&& sum.token_misses == a.token_misses + b.token_misses
                &&& sum.checksum == a.checksum ^ b.checksum
            },
            None => {
                ||| a.reservations + b.reservations > u64::MAX
                ||| a.items + b.items > u128::MAX
                ||| a.cas_failures + b.cas_failures > u64::MAX
                ||| a.wide_loads + b.wide_loads > u64::MAX
                ||| a.token_hits + b.token_hits > u64::MAX
                ||| a.token_misses + b.token_misses > u64::MAX
            },
        },
{
    if b.reservations > u64::MAX - a.reservations || b.items > u128::MAX - a.items
        || b.cas_failures > u64::MAX - a.cas_failures || b.wide_loads > u64::MAX - a.wide_loads
        || b.token_hits > u64::MAX - a.token_hits || b.token_misses > u64::MAX - a.token_misses {
        return None;
    }
    Some(
        WorkerStats {
            reservations: a.reservations + b.reservations,
            items: a.items + b.items,
            cas_failures: a.cas_failures + b.cas_failures,
            wide_loads: a.wide_loads + b.wide_loads,
            token_hits: a.token_hits + b.token_hits,
            token_misses: a.token_misses + b.token_misses,
            checksum: a.checksum ^ b.checksum,
        },
    )
}

/// What stands in the way of a list of batch sizes.
pub open spec fn batch_refusal(values: Seq<u64>) -> Option<Seq<char>> {
    if values.len() == 0 {
        Some("--batch-sizes must contain at least one size"@)
    } else if values.contains(0) {
        Some("batch sizes must be greater than zero"@)
    } else if exists|i: int| 0 <= i < values.len() && #[trigger] values[i] >= INDEX_FIELD {
        Some("batch sizes must fit in the 48-bit index"@)
    } else {
        None
    }
}

/// The batch sizes in order, each once.
pub fn normalize_batch_sizes(values: &[u64]) -> (result: Result<Vec<u64>, String>)
    ensures
        match result {
            Ok(sizes) => {
                &&& batch_refusal(values@) is None
                &&& rising(sizes@)
                &&& forall|v: u64| #[trigger] sizes@.contains(v) <==> values@.contains(v)
            },
            Err(message) => batch_refusal(values@) == Some(message@),
        },
{
    let sizes = sorted_distinct(values);
    if sizes.len() == 0 {
        assert(values@.len() == 0) by {
            if values@.len() > 0 {
                assert(values@.contains(values@[0]));
                assert(sizes@.contains(values@[0]));
            }
        }
        return Err("--batch-sizes must contain at least one size".to_owned());
    }
    assert(values@.len() > 0) by {
        assert(sizes@.contains(sizes@[0]));
        assert(values@.contains(sizes@[0]));
    }
    if sizes[0] == 0 {
        assert(sizes@.contains(0));
        return Err("batch sizes must be greater than zero".to_owned());
    }
    assert(!values@.contains(0)) by {
        if values@.contains(0) {
            assert(sizes@.contains(0));
            let k = sizes@.index_of(0);
            assert(sizes@[k] == 0);
            if k > 0 {
                assert(sizes@[0] < sizes@[k]);
            }
        }
    }
    if sizes[sizes.len() - 1] >= INDEX_FIELD {
        proof {
            let last = sizes@.last();
            assert(sizes@.contains(last));
            assert(values@.contains(last));
            let k = values@.index_of(last);
            assert(values@[k] >= INDEX_FIELD);
        }
        return Err("batch sizes must fit in the 48-bit index".to_owned());
    }
    assert forall|i: int| 0 <= i < values@.len() implies #[trigger] values@[i] < INDEX_FIELD by {
        assert(values@.contains(values@[i]));
        assert(sizes@.contains(values@[i]));
        law_last_is_largest(sizes@, values@[i]);
    }
    Ok(sizes)
}

/// The thread counts that are measured: one, two, four and so on as far as the
/// limit goes.
pub fn thread_counts(limit: usize) -> (result: Result<Vec<usize>, String>)
    ensures
        match result {
            Ok(counts) => {
                &&& limit > 0
                &&& counts@.len() > 0
                &&& counts@[0] == 1
                &&& forall|i: int|
                    0 <= i < counts@.len() - 1 ==> #[trigger] counts@[i + 1] == 2 * counts@[i]
                &&& counts@.last() <= limit < 2 * counts@.last()
            },
            Err(message) => limit == 0 && message@
                == "effective thread limit must be greater than zero"@,
        },
{
    match updater_counts(limit) {
        Ok(counts) => Ok(counts),
        Err(_) => Err("effective thread limit must be greater than zero".to_owned()),
    }
}

/// The order of the two strategies, which alternates over repeats and batches.
pub fn strategy_order(repeat_index: usize, batch_position: usize) -> (order: (
    ReloadStrategy,
    ReloadStrategy,
))
    ensures
        order == (if (repeat_index + batch_position) % 2 == 0 {
            (ReloadStrategy::TokenGated, ReloadStrategy::AlwaysWide)
        } else {
            (ReloadStrategy::AlwaysWide, ReloadStrategy::TokenGated)
        }),
{
    if repeat_index % 2 == batch_position % 2 {
        (ReloadStrategy::TokenGated, ReloadStrategy::AlwaysWide)
    } else {
        (ReloadStrategy::AlwaysWide, ReloadStrategy::TokenGated)
    }
}

/// What the command line asks for.
pub struct ReloadArgs {
    pub machine_label: String,
    pub max_threads: Option<usize>,
    pub batch_sizes: Vec<u64>,
    pub duration_ms: u64,
    pub repeats: usize,
}

/// How many threads there will be.
pub open spec fn reload_limit(args: ReloadArgs, parallelism: int, cores: int) -> int {
    let detected = detected_limit(parallelism, cores);
    match args.max_threads {
        Some(most) => if most < detected {
            most as int
        } else {
            detected
        },
        None => detected,
    }
}

/// What stands in the way of measuring.
pub open spec fn reload_refusal(
    args: ReloadArgs,
    lock_free: bool,
    parallelism: Result<usize, String>,
    cores: int,
) -> Option<Seq<char>> {
    if trimmed(args.machine_label@).len() == 0 {
        Some("--machine-label must not be empty"@)
    } else if args.duration_ms == 0 || args.repeats == 0 {
        Some("--duration-ms and --repeats must be greater than zero"@)
    } else if args.max_threads == Some(0usize) {
        Some("--max-threads must be greater than zero"@)
    } else if !lock_free {
        Some(
            "AtomicU128 is not lock-free on this target; mixed-width measurements would include portable-atomic's fallback lock"@,
        )
    } else {
        match batch_refusal(args.batch_sizes@) {
            Some(message) => Some(message),
            None => match parallelism {
                Err(message) => Some(message@),
                Ok(parallelism) => if reload_limit(args, parallelism as int, cores) == 0 {
                    Some("effective thread limit must be greater than zero"@)
                } else {
                    None
                },
            },
        }
    }
}

/// Makes a plan of the settings and the machine, of which it may be unknown how
/// much runs at once: the batch sizes, the limit and the thread counts.
pub fn plan_reload(
    args: &ReloadArgs,
    lock_free: bool,
    available_parallelism: &Result<usize, String>,
    cores: usize,
) -> (result: Result<(Vec<u64>, usize, Vec<usize>), String>)
    ensures
        match result {
            Ok((sizes, limit, counts)) => {
                &&& reload_refusal(
                    *args,
                    lock_free,
                    *available_parallelism,
                    cores as int,
                ) is None
                &&& rising(sizes@)
                &&& forall|v: u64| #[trigger]
                    sizes@.contains(v) <==> args.batch_sizes@.contains(v)
                &&& available_parallelism is Ok
                &&& limit == reload_limit(
                    *args,
                    available_parallelism->Ok_0 as int,
                    cores as int,
                )
                &&& counts@.len() > 0
                &&& counts@[0] == 1
                &&& forall|i: int|
                    0 <= i < counts@.len() - 1 ==> #[trigger] counts@[i + 1] == 2 * counts@[i]
                &&& counts@.last() <= limit < 2 * counts@.last()
            },
            Err(message) => reload_refusal(
                *args,
                lock_free,
                *available_parallelism,
                cores as int,
            ) == Some(message@),
        },
{
    let label = trim(args.machine_label.as_str());
    if crate::text::chars_of(label.as_str()).len() == 0 {
        return Err("--machine-label must not be empty".to_owned());
    }
    if args.duration_ms == 0 || args.repeats == 0 {
        return Err("--duration-ms and --repeats must be greater than zero".to_owned());
    }
    if let Some(most) = args.max_threads {
        if most == 0 {
            return Err("--max-threads must be greater than zero".to_owned());
        }
    }
    if !lock_free {
        return Err(
            "AtomicU128 is not lock-free on this target; mixed-width measurements would include portable-atomic's fallback lock".to_owned(),
        );
    }
    let sizes = match normalize_batch_sizes(args.batch_sizes.as_slice()) {
        Ok(sizes) => sizes,
        Err(message) => {
            return Err(message);
        },
    };
    let available: usize = match available_parallelism {
        Ok(available) => *available,
        Err(message) => {
            return Err(message.clone());
        },
    };
    let detected: usize = if cores == 0 || available < cores {
        available
    } else {
        cores
    };
    let limit: usize = match args.max_threads {
        Some(most) => if most < detected {
            most
        } else {
            detected
        },
        None => detected,
    };
    match thread_counts(limit) {
        Ok(counts) => Ok((sizes, limit, counts)),
        Err(message) => Err(message),
    }
}

/// Turning a word on by the places that are left to turn gives it back.
pub proof fn law_turning_on_gives_the_word_back(word: u64, places: u64)
    requires
        0 < places < 64,
    ensures
        turned(turned(word, places), (64 - places) as u64) == word,
        turned(word, 0) == word,
{
    let rest = (64 - places) as u64;
    assert((64 - rest) as u64 == places);
    assert(0 < places < 64 && rest == 64 - places ==> ((((word << places) | (word >> rest)) << rest)
        | (((word << places) | (word >> rest)) >> places)) == word) by (bit_vector);
}

/// A failed exchange is tried again with the word that was found only where tokens
/// are kept and the token is the one that is known; and of such failures each is
/// counted as a hit or as a miss.
pub proof fn law_when_the_head_is_looked_at_again(
    strategy: ReloadStrategy,
    cached: u16,
    found: int,
    stats: WorkerStats,
)
    requires
        stats.cas_failures < u64::MAX,
        stats.token_hits < u64::MAX,
        stats.token_misses < u64::MAX,
    ensures
        retry_of(strategy, cached, found) == Retry::Seen <==> strategy
            == ReloadStrategy::TokenGated && found == cached,
        ({
            let after = stats.after_failure(strategy, cached, found);
            &&& after.cas_failures == stats.cas_failures + 1
            &&& after.reservations == stats.reservations && after.items == stats.items
            &&& after.wide_loads == stats.wide_loads && after.checksum == stats.checksum
            &&& strategy == ReloadStrategy::AlwaysWide ==> after.token_hits == stats.token_hits
                && after.token_misses == stats.token_misses
            &&& strategy == ReloadStrategy::TokenGated ==> after.token_hits + after.token_misses
                == stats.token_hits + stats.token_misses + 1
            &&& after.token_hits > stats.token_hits <==> strategy == ReloadStrategy::TokenGated
                && found == cached
        }),
{
}

/// A sample is sound exactly if something was reserved, the token never changed,
/// and the head was looked at as often as the strategy says: once for each
/// reservation and each failure, or with tokens once for each reservation, every
/// failure being a hit.
pub proof fn law_sound_samples(strategy: ReloadStrategy, sums: WorkerStats, final_low: u64)
    requires
        sums.reservations + sums.cas_failures <= u64::MAX,
    ensures
        sample_fault(strategy, sums, final_low) is None <==> {
            &&& sums.reservations > 0
            &&& final_low < 0x1_0000_0000_0000
            &&& strategy == ReloadStrategy::AlwaysWide ==> sums.wide_loads == sums.reservations
                + sums.cas_failures
            &&& strategy == ReloadStrategy::TokenGated ==> {
                &&& sums.wide_loads == sums.reservations
                &&& sums.token_hits == sums.cas_failures
                &&& sums.token_misses == 0
            }
        },
{
}

/// Batch sizes are taken exactly if there is one, and each is more than zero and
/// fits in forty-eight bits.
pub proof fn law_batch_sizes(values: Seq<u64>)
    ensures
        batch_refusal(values) is None <==> values.len() > 0 && forall|i: int|
            0 <= i < values.len() ==> 0 < #[trigger] values[i] < 0x1_0000_0000_0000,
{
    if values.contains(0) {
        let k = values.index_of(0);
        assert(values[k] == 0);
    } else {
        assert forall|i: int| 0 <= i < values.len() implies #[trigger] values[i] > 0 by {
            if values[i] == 0 {
                assert(values.contains(0));
            }
        }
    }
}

/// There are as many threads as run at once, unless fewer cores are known or fewer
/// were asked for: the least of these numbers.
pub proof fn law_the_least_limit_counts(args: ReloadArgs, parallelism: int, cores: int)
    requires
        0 <= parallelism,
        0 <= cores,
    ensures
        ({
            let limit = reload_limit(args, parallelism, cores);
            &&& limit <= parallelism
            &&& cores > 0 ==> limit <= cores
            &&& args.max_threads is Some ==> limit <= args.max_threads->0
            &&& limit == parallelism || (cores > 0 && limit == cores) || args.max_threads == Some(
                limit as usize,
            )
        }),
{
}

} // verus!
