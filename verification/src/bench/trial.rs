//! The trials of the counter benchmark: which there are, and what is checked
//! of each.
use vstd::prelude::*;

use crate::bench::blocks::{
    block_order, case_order, cases, increasing, is_power_of_two, normalize_block_sizes,
    updater_counts, BenchmarkCase, BlockConfig, UpdateMethod,
};
use crate::bench::hex::{hex_text, padded_hex};
use crate::bench::updates::UpdateStats;
use crate::text::{decimal, decimal_text, push_char};

verus! {

/// What a thread brings back.
#[derive(Clone, Copy, Debug, PartialEq, Eq, Structural)]
pub struct ThreadOutcome {
    pub stats: UpdateStats,
    pub elapsed_ns: u64,
    pub pinned: bool,
}

/// Sums over all threads.
pub struct Totals {
    pub operations: int,
    pub cas_failures: int,
    pub boundary_stores: int,
    pub boundary_waits: int,
    pub invalid_faa_reservations: int,
    pub wide_loads: int,
    pub wide_stores: int,
    pub elapsed_ns: int,
    pub pinned: int,
}

/// The sums over all threads, the longest time, and how many were pinned.
pub open spec fn totals(outcomes: Seq<ThreadOutcome>) -> Totals
    decreases outcomes.len(),
{
    if outcomes.len() == 0 {
        Totals {
            operations: 0,
            cas_failures: 0,
            boundary_stores: 0,
            boundary_waits: 0,
            invalid_faa_reservations: 0,
            wide_loads: 0,
            wide_stores: 0,
            elapsed_ns: 0,
            pinned: 0,
        }
    } else {
        let rest = totals(outcomes.drop_last());
        let last = outcomes.last();
        Totals {
            operations: rest.operations + last.stats.operations,
            cas_failures: rest.cas_failures + last.stats.cas_failures,
            boundary_stores: rest.boundary_stores + last.stats.boundary_stores,
            boundary_waits: rest.boundary_waits + last.stats.boundary_waits,
            invalid_faa_reservations: rest.invalid_faa_reservations
                + last.stats.invalid_faa_reservations,
            wide_loads: rest.wide_loads + last.stats.wide_loads,
            wide_stores: rest.wide_stores + last.stats.wide_stores,
            elapsed_ns: if last.elapsed_ns > rest.elapsed_ns {
                last.elapsed_ns as int
            } else {
                rest.elapsed_ns
            },
            pinned: rest.pinned + (if last.pinned {
                1int
            } else {
                0int
            }),
        }
    }
}

/// The sums fit their words.
pub open spec fn sums_fit(outcomes: Seq<ThreadOutcome>) -> bool {
    let sums = totals(outcomes);
    &&& sums.operations <= u64::MAX
    &&& sums.cas_failures <= u64::MAX
    &&& sums.boundary_stores <= u64::MAX
    &&& sums.boundary_waits <= u64::MAX
    &&& sums.invalid_faa_reservations <= u64::MAX
    &&& sums.wide_loads <= u64::MAX
    &&& sums.wide_stores <= u64::MAX
}

proof fn lemma_totals_grow(outcomes: Seq<ThreadOutcome>, n: int)
    requires
        0 <= n <= outcomes.len(),
    ensures
        ({
            let few = totals(outcomes.take(n));
            let all = totals(outcomes);
            &&& 0 <= few.operations <= all.operations
            &&& 0 <= few.cas_failures <= all.cas_failures
            &&& 0 <= few.boundary_stores <= all.boundary_stores
            &&& 0 <= few.boundary_waits <= all.boundary_waits
            &&& 0 <= few.invalid_faa_reservations <= all.invalid_faa_reservations
            &&& 0 <= few.wide_loads <= all.wide_loads
            &&& 0 <= few.wide_stores <= all.wide_stores
            &&& 0 <= few.pinned <= n
        }),
    decreases outcomes.len(),
{
    if outcomes.len() > 0 {
        if n == outcomes.len() {
            lemma_totals_grow(outcomes.drop_last(), n - 1);
            assert(outcomes.drop_last().take(n - 1) =~= outcomes.drop_last());
            assert(outcomes.take(n) =~= outcomes);
        } else {
            lemma_totals_grow(outcomes.drop_last(), n);
            assert(outcomes.drop_last().take(n) =~= outcomes.take(n));
        }
    } else {
        assert(outcomes.take(n) =~= outcomes);
    }
}

/// The sums over all threads, the longest time, and how many were pinned.
pub fn sum_outcomes(outcomes: &Vec<ThreadOutcome>) -> (sums: (UpdateStats, u64, usize))
    requires
        sums_fit(outcomes@),
    ensures
        sums.0.operations == totals(outcomes@).operations,
        sums.0.cas_failures == totals(outcomes@).cas_failures,
        sums.0.boundary_stores == totals(outcomes@).boundary_stores,
        sums.0.boundary_waits == totals(outcomes@).boundary_waits,
        sums.0.invalid_faa_reservations == totals(outcomes@).invalid_faa_reservations,
        sums.0.wide_loads == totals(outcomes@).wide_loads,
        sums.0.wide_stores == totals(outcomes@).wide_stores,
        sums.1 == totals(outcomes@).elapsed_ns,
        sums.2 == totals(outcomes@).pinned,
{
    let mut stats = UpdateStats::new();
    let mut elapsed_ns: u64 = 0;
    let mut pinned: usize = 0;
    let mut i: usize = 0;
    assert(outcomes@.take(0) =~= Seq::<ThreadOutcome>::empty());
    while i < outcomes.len()
        invariant
            sums_fit(outcomes@),
            i <= outcomes@.len(),
            stats.operations == totals(outcomes@.take(i as int)).operations,
            stats.cas_failures == totals(outcomes@.take(i as int)).cas_failures,
            stats.boundary_stores == totals(outcomes@.take(i as int)).boundary_stores,
            stats.boundary_waits == totals(outcomes@.take(i as int)).boundary_waits,
            stats.invalid_faa_reservations == totals(
                outcomes@.take(i as int),
            ).invalid_faa_reservations,
            stats.wide_loads == totals(outcomes@.take(i as int)).wide_loads,
            stats.wide_stores == totals(outcomes@.take(i as int)).wide_stores,
            elapsed_ns == totals(outcomes@.take(i as int)).elapsed_ns,
            pinned == totals(outcomes@.take(i as int)).pinned,
            pinned <= i,
        decreases outcomes@.len() - i,
    {
        proof {
            lemma_totals_grow(outcomes@, i + 1);
            assert(outcomes@.take(i + 1).drop_last() =~= outcomes@.take(i as int));
            assert(outcomes@.take(i + 1).last() == outcomes@[i as int]);
        }
        let outcome = outcomes[i];
        stats.operations = stats.operations + outcome.stats.operations;
        stats.cas_failures = stats.cas_failures + outcome.stats.cas_failures;
        stats.boundary_stores = stats.boundary_stores + outcome.stats.boundary_stores;
        stats.boundary_waits = stats.boundary_waits + outcome.stats.boundary_waits;
        stats.invalid_faa_reservations = stats.invalid_faa_reservations
            + outcome.stats.invalid_faa_reservations;
        stats.wide_loads = stats.wide_loads + outcome.stats.wide_loads;
        stats.wide_stores = stats.wide_stores + outcome.stats.wide_stores;
        if outcome.elapsed_ns > elapsed_ns {
            elapsed_ns = outcome.elapsed_ns;
        }
        if outcome.pinned {
            pinned = pinned + 1;
        }
        i = i + 1;
    }
    assert(outcomes@.take(i as int) =~= outcomes@);
    (stats, elapsed_ns, pinned)
}

/// Where a trial ended: the generation and index, and the pointer where there
/// is one.
#[derive(Clone, Copy, Debug, PartialEq, Eq, Structural)]
pub struct TrialEnd {
    pub generation: u32,
    pub index: u32,
    pub pointer: Option<u64>,
}

/// The front of a message about a trial.
pub open spec fn trial_name(block: BlockConfig, case: BenchmarkCase) -> Seq<char> {
    "block "@ + decimal(block.block_size as nat) + "/"@ + case.layout.title() + "/"@
        + case.method.title() + " validation failed: "@
}

/// A number in hexadecimal notation behind its prefix.
pub open spec fn shown_hex(n: int) -> Seq<char> {
    "0x"@ + padded_hex(n as nat, 0)
}

/// The word that so many operations should leave.
pub open spec fn expected_word(case: BenchmarkCase, block: BlockConfig, operations: int) -> int {
    if case.method == UpdateMethod::SegQueue {
        block.position_after(operations)
    } else {
        block.low_after(operations)
    }
}

/// What is wrong with the end of a trial, the first of: the expected word does
/// not exist, the word or the number of opened blocks is not the expected one;
/// with a pointer the same of the pointer and the wide stores; without one a
/// wide access; and for a lap counter that its laps do not fit.
pub open spec fn trial_fault(
    case: BenchmarkCase,
    block: BlockConfig,
    stats: UpdateStats,
    low: u64,
    full: Option<u128>,
) -> Option<Seq<char>> {
    let operations = stats.operations as int;
    let blocks = operations / block.block_size as int;
    let word = expected_word(case, block, operations);
    if case.method == UpdateMethod::SegQueue && word > u64::MAX {
        Some("SegQueue-style position overflowed u64"@)
    } else if case.method != UpdateMethod::SegQueue && blocks > u32::MAX {
        Some("32-bit generation counter wrapped during one sample"@)
    } else if low != word || stats.boundary_stores != blocks {
        Some(
            trial_name(block, case) + "final low "@ + shown_hex(low as int) + " (expected "@
                + shown_hex(word) + "), boundary stores "@ + decimal(stats.boundary_stores as nat)
                + " (expected "@ + decimal(blocks as nat) + ")"@,
        )
    } else {
        let fault = match full {
            Some(value) => {
                let pointer = value / 0x1_0000_0000_0000_0000;
                if block.pointer_after(operations) > u64::MAX {
                    Some("synthetic block pointer overflowed u64"@)
                } else if pointer != block.pointer_after(operations) || stats.wide_stores
                    != stats.boundary_stores {
                    Some(
                        trial_name(block, case) + "pointer "@ + shown_hex(pointer as int)
                            + " (expected "@ + shown_hex(block.pointer_after(operations))
                            + "), wide stores "@ + decimal(stats.wide_stores as nat)
                            + " (expected "@ + decimal(stats.boundary_stores as nat) + ")"@,
                    )
                } else {
                    None
                }
            },
            None => if stats.wide_loads != 0 || stats.wide_stores != 0 {
                Some("U64 layout unexpectedly recorded wide atomic accesses"@)
            } else {
                None
            },
        };
        match fault {
            Some(message) => Some(message),
            None => if case.method == UpdateMethod::SegQueue && blocks > u32::MAX {
                Some("SegQueue-style lap counter did not fit in u32"@)
            } else {
                None
            },
        }
    }
}

fn trial_title(block: BlockConfig, case: BenchmarkCase) -> (text: String)
    ensures
        text@ == trial_name(block, case),
{
    let size = decimal_text(block.block_size as u128);
    let mut text = "block ".to_owned();
    text.append(size.as_str());
    text.append("/");
    text.append(case.layout.name());
    text.append("/");
    text.append(case.method.name());
    text.append(" validation failed: ");
    text
}

/// "..., NAME 0xA (expected 0xB)" and a count in the same form.
fn mismatch(
    block: BlockConfig,
    case: BenchmarkCase,
    name: &str,
    found: u64,
    expected: u64,
    counted: &str,
    count: u64,
    due: u64,
) -> (message: String)
    ensures
        message@ == trial_name(block, case) + name@ + shown_hex(found as int) + " (expected "@
            + shown_hex(expected as int) + "), "@ + counted@ + decimal(count as nat)
            + " (expected "@ + decimal(due as nat) + ")"@,
{
    let a = hex_text(found as u128, 0);
    let b = hex_text(expected as u128, 0);
    let c = decimal_text(count as u128);
    let d = decimal_text(due as u128);
    let mut message = trial_title(block, case);
    message.append(name);
    message.append(a.as_str());
    message.append(" (expected ");
    message.append(b.as_str());
    message.append("), ");
    message.append(counted);
    message.append(c.as_str());
    message.append(" (expected ");
    message.append(d.as_str());
    message.append(")");
    message
}

/// Checks the end of a trial.
pub fn check_trial(
    case: BenchmarkCase,
    block: BlockConfig,
    stats: UpdateStats,
    final_low_value: u64,
    final_full_value: Option<u128>,
) -> (result: Result<TrialEnd, String>)
    requires
        block.wf(),
    ensures
        match result {
            Ok(end) => {
                let operations = stats.operations as int;
                let size = block.block_size as int;
                &&& trial_fault(case, block, stats, final_low_value, final_full_value) is None
                &&& end.generation == operations / size
                &&& end.index == operations % size
                &&& end.pointer == (match final_full_value {
                    Some(full) => Some((full / 0x1_0000_0000_0000_0000) as u64),
                    None => None,
                })
            },
            Err(message) => trial_fault(case, block, stats, final_low_value, final_full_value)
                == Some(message@),
        },
{
    let operations: u64 = stats.operations;
    let size: u64 = block.block_size as u64;
    let lap = match case.method {
        UpdateMethod::SegQueue => true,
        _ => false,
    };
    let expected = if lap {
        block.expected_segqueue_position(operations)
    } else {
        block.expected_low(operations)
    };
    let expected_low: u64 = match expected {
        Ok(low) => low,
        Err(message) => {
            return Err(message);
        },
    };
    let blocks: u64 = operations / size;
    let index: u64 = operations % size;
    proof {
        vstd::arithmetic::div_mod::lemma_mod_bound(operations as int, size as int);
        reveal_strlit("), boundary stores ");
        reveal_strlit("), ");
        reveal_strlit("boundary stores ");
        reveal_strlit("), wide stores ");
        reveal_strlit("wide stores ");
        assert("), boundary stores "@ =~= "), "@ + "boundary stores "@);
        assert("), wide stores "@ =~= "), "@ + "wide stores "@);
    }
    if final_low_value != expected_low || stats.boundary_stores != blocks {
        let message = mismatch(
            block,
            case,
            "final low ",
            final_low_value,
            expected_low,
            "boundary stores ",
            stats.boundary_stores,
            blocks,
        );
        assert(message@ =~= trial_fault(
            case,
            block,
            stats,
            final_low_value,
            final_full_value,
        )->0);
        return Err(message);
    }
    let mut pointer: Option<u64> = None;
    match final_full_value {
        Some(full) => {
            let found: u64 = (full / 0x1_0000_0000_0000_0000) as u64;
            let expected_pointer: u64 = match block.expected_pointer(operations) {
                Ok(expected_pointer) => expected_pointer,
                Err(message) => {
                    return Err(message);
                },
            };
            if found != expected_pointer || stats.wide_stores != stats.boundary_stores {
                let message = mismatch(
                    block,
                    case,
                    "pointer ",
                    found,
                    expected_pointer,
                    "wide stores ",
                    stats.wide_stores,
                    stats.boundary_stores,
                );
                assert(message@ =~= trial_fault(
                    case,
                    block,
                    stats,
                    final_low_value,
                    final_full_value,
                )->0);
                return Err(message);
            }
            pointer = Some(found);
        },
        None => {
            if stats.wide_loads != 0 || stats.wide_stores != 0 {
                return Err("U64 layout unexpectedly recorded wide atomic accesses".to_owned());
            }
        },
    }
    if lap {
        if blocks > u32::MAX as u64 {
            return Err("SegQueue-style lap counter did not fit in u32".to_owned());
        }
        return Ok(TrialEnd { generation: blocks as u32, index: index as u32, pointer });
    }
    Ok(
        TrialEnd {
            generation: block.generation(final_low_value),
            index: block.index(final_low_value),
            pointer,
        },
    )
}

/// The whole counter in hexadecimal notation, all digits.
pub fn full_value_text(full: u128) -> (text: String)
    ensures
        text@ == "0x"@ + padded_hex(full as nat, 32),
{
    hex_text(full, 32)
}

/// What the command line asks for.
pub struct UpdateArgs {
    pub machine_label: String,
    pub max_updaters: Option<usize>,
    pub block_sizes: Vec<u32>,
    pub alignment: u64,
    pub duration_ms: u64,
    pub repeats: usize,
}

/// What is going to be measured.
pub struct UpdatePlan {
    pub block_sizes: Vec<u32>,
    pub blocks: Vec<BlockConfig>,
    pub effective_thread_limit: usize,
    pub counts: Vec<usize>,
}

/// How many threads there can be: as many as run at once, and not more than
/// there are cores to pin them to, if any are known.
pub open spec fn detected_limit(parallelism: int, cores: int) -> int {
    if cores == 0 || parallelism < cores {
        parallelism
    } else {
        cores
    }
}

/// How many threads there will be.
pub open spec fn thread_limit(args: UpdateArgs, parallelism: int, cores: int) -> int {
    let detected = detected_limit(parallelism, cores);
    match args.max_updaters {
        Some(most) => if most < detected {
            most as int
        } else {
            detected
        },
        None => detected,
    }
}

/// The largest of some sizes.
pub open spec fn is_largest(sizes: Seq<u32>, size: u32) -> bool {
    sizes.contains(size) && forall|i: int| 0 <= i < sizes.len() ==> sizes[i] <= size
}

/// What stands in the way of measuring: each setting in turn, then the
/// machine, then that indices could run out of their field.
pub open spec fn update_refusal(
    args: UpdateArgs,
    lock_free: bool,
    parallelism: Result<usize, String>,
    cores: int,
) -> Option<Seq<char>> {
    if crate::text::trimmed(args.machine_label@).len() == 0 {
        Some("--machine-label must not be empty"@)
    } else if args.duration_ms == 0 {
        Some("--duration-ms must be greater than zero"@)
    } else if args.repeats == 0 {
        Some("--repeats must be greater than zero"@)
    } else if args.max_updaters == Some(0usize) {
        Some("--max-updaters must be greater than zero"@)
    } else if args.block_sizes@.len() == 0 {
        Some("--block-sizes must contain at least one size"@)
    } else if args.block_sizes@.contains(0) {
        Some("block sizes must be greater than zero"@)
    } else if !is_power_of_two(args.alignment as nat) {
        Some("--alignment must be a nonzero power of two"@)
    } else if !lock_free {
        Some(
            "AtomicU128 is not lock-free on this target; the mixed-width hardware experiment cannot safely bypass portable-atomic's fallback lock"@,
        )
    } else {
        match parallelism {
            Err(message) => Some(message@),
            Ok(parallelism) => if thread_limit(args, parallelism as int, cores) == 0 {
                Some("effective updater limit must be greater than zero"@)
            } else if exists|size: u32|
                #![trigger is_largest(args.block_sizes@, size)]
                is_largest(args.block_sizes@, size) && size + thread_limit(
                    args,
                    parallelism as int,
                    cores,
                ) > u32::MAX {
                Some(
                    "largest block plus possible in-flight FAA overshoot exceeds the u32 index field"@,
                )
            } else {
                None
            },
        }
    }
}

/// Makes a plan of the settings and the machine, of which it may be unknown how
/// much runs at once.
pub fn plan_updates(
    args: &UpdateArgs,
    lock_free: bool,
    available_parallelism: &Result<usize, String>,
    cores: usize,
) -> (result: Result<UpdatePlan, String>)
    ensures
        match result {
            Ok(plan) => {
                let limit = thread_limit(
                    *args,
                    available_parallelism->Ok_0 as int,
                    cores as int,
                );
                &&& available_parallelism is Ok
                &&& update_refusal(
                    *args,
                    lock_free,
                    *available_parallelism,
                    cores as int,
                ) is None
                &&& increasing(plan.block_sizes@)
                &&& forall|v: u32| #[trigger]
                    plan.block_sizes@.contains(v) <==> args.block_sizes@.contains(v)
                &&& plan.blocks@.len() == plan.block_sizes@.len()
                &&& plan.blocks@.len() > 0
                &&& forall|i: int|
                    0 <= i < plan.blocks@.len() ==> (#[trigger] plan.blocks@[i]).wf()
                        && plan.blocks@[i].block_size == plan.block_sizes@[i]
                        && plan.blocks@[i].alignment == args.alignment
                &&& plan.effective_thread_limit == limit
                &&& plan.counts@.len() > 0
                &&& plan.counts@[0] == 1
                &&& forall|i: int|
                    0 <= i < plan.counts@.len() - 1 ==> #[trigger] plan.counts@[i + 1] == 2
                        * plan.counts@[i]
                &&& plan.counts@.last() <= limit < 2 * plan.counts@.last()
            },
            Err(message) => update_refusal(
                *args,
                lock_free,
                *available_parallelism,
                cores as int,
            ) == Some(message@),
        },
{
    let label = crate::text::trim(args.machine_label.as_str());
    if crate::text::chars_of(label.as_str()).len() == 0 {
        return Err("--machine-label must not be empty".to_owned());
    }
    if args.duration_ms == 0 {
        return Err("--duration-ms must be greater than zero".to_owned());
    }
    if args.repeats == 0 {
        return Err("--repeats must be greater than zero".to_owned());
    }
    if let Some(most) = args.max_updaters {
        if most == 0 {
            return Err("--max-updaters must be greater than zero".to_owned());
        }
    }
    let block_sizes = match normalize_block_sizes(args.block_sizes.as_slice()) {
        Ok(sizes) => sizes,
        Err(message) => {
            return Err(message);
        },
    };
    assert(block_sizes@.len() > 0) by {
        assert(args.block_sizes@.contains(args.block_sizes@[0]));
        assert(block_sizes@.contains(args.block_sizes@[0]));
    }
    let mut blocks: Vec<BlockConfig> = Vec::new();
    let mut i: usize = 0;
    while i < block_sizes.len()
        invariant
            i <= block_sizes@.len(),
            block_sizes@.len() > 0,
            !args.block_sizes@.contains(0),
            forall|v: u32| #[trigger]
                block_sizes@.contains(v) <==> args.block_sizes@.contains(v),
            blocks@.len() == i,
            i > 0 ==> is_power_of_two(args.alignment as nat),
            forall|j: int|
                0 <= j < i ==> (#[trigger] blocks@[j]).wf() && blocks@[j].block_size
                    == block_sizes@[j] && blocks@[j].alignment == args.alignment,
            update_refusal(
                *args,
                lock_free,
                *available_parallelism,
                cores as int,
            ) == (if is_power_of_two(args.alignment as nat) {
                update_refusal(
                    *args,
                    lock_free,
                    *available_parallelism,
                    cores as int,
                )
            } else {
                Some("--alignment must be a nonzero power of two"@)
            }),
        decreases block_sizes@.len() - i,
    {
        assert(block_sizes@.contains(block_sizes@[i as int]));
        match BlockConfig::new(block_sizes[i], args.alignment) {
            Ok(block) => {
                blocks.push(block);
            },
            Err(message) => {
                return Err(message);
            },
        }
        i = i + 1;
    }
    if !lock_free {
        return Err(
            "AtomicU128 is not lock-free on this target; the mixed-width hardware experiment cannot safely bypass portable-atomic's fallback lock".to_owned(),
        );
    }
    let available: usize = match available_parallelism {
        Ok(available) => *available,
        Err(message) => {
            return Err(message.clone());
        },
    };
    let detected: usize = if cores == 0 || available < cores {
        available
    } else {
        cores
    };
    let limit: usize = match args.max_updaters {
        Some(most) => if most < detected {
            most
        } else {
            detected
        },
        None => detected,
    };
    let counts = match updater_counts(limit) {
        Ok(counts) => counts,
        Err(message) => {
            return Err(message);
        },
    };
    let largest: u32 = block_sizes[block_sizes.len() - 1];
    proof {
        let sizes = args.block_sizes@;
        assert(block_sizes@.contains(largest));
        assert forall|i: int| 0 <= i < sizes.len() implies sizes[i] <= largest by {
            assert(sizes.contains(sizes[i]));
            assert(block_sizes@.contains(sizes[i]));
            let k = block_sizes@.index_of(sizes[i]);
            if k < block_sizes@.len() - 1 {
                assert(block_sizes@[k] < block_sizes@[block_sizes@.len() - 1]);
            }
        }
        assert(is_largest(sizes, largest));
        assert forall|size: u32| #[trigger] is_largest(sizes, size) implies size == largest by {
            let k = sizes.index_of(size);
            assert(sizes[k] <= largest);
            let m = sizes.index_of(largest);
            assert(sizes[m] <= size);
        }
    }
    if limit as u128 + largest as u128 > u32::MAX as u128 {
        return Err(
            "largest block plus possible in-flight FAA overshoot exceeds the u32 index field".to_owned(),
        );
    }
    Ok(UpdatePlan { block_sizes, blocks, effective_thread_limit: limit, counts })
}

/// One trial.
#[derive(Clone, Copy, Debug, PartialEq, Eq, Structural)]
pub struct Trial {
    pub updaters: usize,
    pub repeat_index: usize,
    pub block: BlockConfig,
    pub case: BenchmarkCase,
}

/// Where the schedule is: the thread count, the repeat, the block and the case,
/// each by its number.
#[derive(Clone, Copy, Debug, PartialEq, Eq, Structural)]
pub struct Place {
    pub count: usize,
    pub repeat: usize,
    pub block: usize,
    pub case: usize,
}

/// The trials in order: for each thread count each repeat, in it each block,
/// and for each block each case. Every repeat starts with another block, and
/// every block with another case.
pub struct Schedule {
    counts: Vec<usize>,
    repeats: usize,
    blocks: Vec<BlockConfig>,
    at: Place,
}

/// The trial at a place.
pub open spec fn trial_at(counts: Seq<usize>, blocks: Seq<BlockConfig>, at: Place) -> Trial {
    Trial {
        updaters: counts[at.count as int],
        repeat_index: (at.repeat + 1) as usize,
        block: blocks[(at.block + at.repeat) % blocks.len() as int],
        case: cases()[(at.case + at.repeat + at.block) % 7],
    }
}

/// The place behind a place.
pub open spec fn place_after(at: Place, repeats: int, blocks: int) -> Place {
    if at.case + 1 < 7 {
        Place { case: (at.case + 1) as usize, ..at }
    } else if at.block + 1 < blocks {
        Place { case: 0, block: (at.block + 1) as usize, ..at }
    } else if at.repeat + 1 < repeats {
        Place { case: 0, block: 0, repeat: (at.repeat + 1) as usize, ..at }
    } else {
        Place { case: 0, block: 0, repeat: 0, count: (at.count + 1) as usize }
    }
}

impl Schedule {
    pub closed spec fn counts(&self) -> Seq<usize> {
        self.counts@
    }

    pub closed spec fn repeats(&self) -> int {
        self.repeats as int
    }

    pub closed spec fn blocks(&self) -> Seq<BlockConfig> {
        self.blocks@
    }

    pub closed spec fn at(&self) -> Place {
        self.at
    }

    pub open spec fn wf(&self) -> bool {
        &&& self.repeats() > 0
        &&& self.blocks().len() > 0
        &&& self.at().count <= self.counts().len()
        &&& self.at().repeat < self.repeats()
        &&& self.at().block < self.blocks().len()
        &&& self.at().case < 7
    }

    pub fn new(counts: Vec<usize>, repeats: usize, blocks: Vec<BlockConfig>) -> (schedule: Schedule)
        requires
            repeats > 0,
            blocks@.len() > 0,
        ensures
            schedule.wf(),
            schedule.counts() == counts@,
            schedule.repeats() == repeats,
            schedule.blocks() == blocks@,
            schedule.at() == (Place { count: 0, repeat: 0, block: 0, case: 0 }),
    {
        Schedule {
            counts,
            repeats,
            blocks,
            at: Place { count: 0, repeat: 0, block: 0, case: 0 },
        }
    }

    /// The next trial, if there is one.
    pub fn next(&mut self) -> (trial: Option<Trial>)
        requires
            old(self).wf(),
        ensures
            final(self).wf(),
            final(self).counts() == old(self).counts(),
            final(self).repeats() == old(self).repeats(),
            final(self).blocks() == old(self).blocks(),
            match trial {
                Some(trial) => {
                    &&& old(self).at().count < old(self).counts().len()
                    &&& trial == trial_at(old(self).counts(), old(self).blocks(), old(self).at())
                    &&& final(self).at() == place_after(
                        old(self).at(),
                        old(self).repeats(),
                        old(self).blocks().len() as int,
                    )
                },
                None => old(self).at().count == old(self).counts().len() && final(self).at()
                    == old(self).at(),
            },
    {
        let at = self.at;
        if at.count >= self.counts.len() {
            return None;
        }
        let trial = self.here();
        let len: usize = self.blocks.len();
        self.at = Self::behind(at, self.repeats, len);
        Some(trial)
    }

    /// The trial at the current place.
    fn here(&self) -> (trial: Trial)
        requires
            self.wf(),
            self.at().count < self.counts().len(),
        ensures
            trial == trial_at(self.counts(), self.blocks(), self.at()),
    {
        let at = self.at;
        let blocks = block_order(&self.blocks, at.repeat + 1);
        Trial {
            updaters: self.counts[at.count],
            repeat_index: at.repeat + 1,
            block: blocks[at.block],
            case: Self::case_at(at.repeat, at.block, at.case),
        }
    }

    /// The case of a repeat and a block.
    fn case_at(repeat: usize, block: usize, case: usize) -> (found: BenchmarkCase)
        requires
            case < 7,
        ensures
            found == cases()[(case + repeat + block) % 7],
    {
        let offset: usize = (repeat % 7 + block % 7) % 7;
        let cases_here = case_order(offset);
        proof {
            lemma_sevens(case as int, repeat as int, block as int);
            lemma_seven_cases();
        }
        cases_here[case]
    }

    /// The place behind a place.
    fn behind(at: Place, repeats: usize, blocks: usize) -> (next: Place)
        requires
            at.count < usize::MAX,
            at.repeat < repeats,
            at.block < blocks,
            at.case < 7,
        ensures
            next == place_after(at, repeats as int, blocks as int),
    {
        if at.case < 6 {
            Place { case: at.case + 1, ..at }
        } else if at.block < blocks - 1 {
            Place { case: 0, block: at.block + 1, ..at }
        } else if at.repeat < repeats - 1 {
            Place { case: 0, block: 0, repeat: at.repeat + 1, ..at }
        } else {
            Place { case: 0, block: 0, repeat: 0, count: at.count + 1 }
        }
    }
}

proof fn lemma_seven_cases()
    ensures
        cases().len() == 7,
{
}

proof fn lemma_sevens(a: int, b: int, c: int)
    ensures
        (a + (b % 7 + c % 7) % 7) % 7 == (a + b + c) % 7,
{
}

/// How many trials are left from a place on.
pub open spec fn trials_left(at: Place, counts: int, repeats: int, blocks: int) -> int {
    (((counts - at.count) * repeats - at.repeat) * blocks - at.block) * 7 - at.case
}

/// Every step through the schedule leaves one trial less, so that all of them
/// come up, each once.
pub proof fn law_schedule_counts_down(at: Place, counts: int, repeats: int, blocks: int)
    requires
        at.count < counts <= usize::MAX,
        at.repeat < repeats <= usize::MAX,
        at.block < blocks <= usize::MAX,
        at.case < 7,
    ensures
        trials_left(place_after(at, repeats, blocks), counts, repeats, blocks) == trials_left(
            at,
            counts,
            repeats,
            blocks,
        ) - 1,
        trials_left(at, counts, repeats, blocks) > 0,
{
    let c = counts - at.count;
    let x = c * repeats - at.repeat;
    assert((x - 1) * blocks == x * blocks - blocks) by (nonlinear_arith);
    assert((c - 1) * repeats == c * repeats - repeats) by (nonlinear_arith);
    assert(c * repeats >= repeats) by (nonlinear_arith)
        requires
            c >= 1,
            repeats > 0,
    ;
    assert(x * blocks >= blocks) by (nonlinear_arith)
        requires
            x >= 1,
            blocks > 0,
    ;
    let next = place_after(at, repeats, blocks);
    if at.case < 6 {
    } else if at.block + 1 < blocks {
    } else if at.repeat + 1 < repeats {
        assert((counts - next.count) * repeats - next.repeat == x - 1);
    } else {
        assert((counts - next.count) * repeats - next.repeat == x - 1);
    }
}

/// A character that a path component may hold.
pub open spec fn component_char(c: char) -> char {
    if 'a' <= c <= 'z' || 'A' <= c <= 'Z' || crate::text::is_digit(c) || c == '-' || c == '_' {
        c
    } else {
        '_'
    }
}

/// A label as a path component.
pub open spec fn component(value: Seq<char>) -> Seq<char> {
    if value.len() == 0 {
        "local"@
    } else {
        value.map_values(|c: char| component_char(c))
    }
}

pub fn sanitize_component(value: &str) -> (text: String)
    ensures
        text@ == component(value@),
{
    let chars = crate::text::chars_of(value);
    if chars.len() == 0 {
        return "local".to_owned();
    }
    let mut text = "".to_owned();
    proof {
        reveal_strlit("");
    }
    let mut i: usize = 0;
    while i < chars.len()
        invariant
            i <= chars@.len(),
            text@.len() == i,
            forall|j: int| 0 <= j < i ==> #[trigger] text@[j] == component_char(chars@[j]),
        decreases chars@.len() - i,
    {
        let c = chars[i];
        if ('a' <= c && c <= 'z') || ('A' <= c && c <= 'Z') || crate::text::digit(c) || c == '-'
            || c == '_' {
            push_char(&mut text, c);
        } else {
            push_char(&mut text, '_');
        }
        i = i + 1;
    }
    assert(text@ =~= component(value@));
    text
}

/// The name of a result file: the benchmark, when it ran, and the process.
pub fn result_file(bench: &str, timestamp: u128, process: u32) -> (name: String)
    ensures
        name@ == bench@ + "-"@ + decimal(timestamp as nat) + "-"@ + decimal(process as nat)
            + ".json"@,
{
    let mut name = bench.to_owned();
    name.append("-");
    name.append(decimal_text(timestamp).as_str());
    name.append("-");
    name.append(decimal_text(process as u128).as_str());
    name.append(".json");
    name
}

/// The counts of two groups of threads add up, and the time is the longer one.
pub proof fn law_totals_add_up(a: Seq<ThreadOutcome>, b: Seq<ThreadOutcome>, one: ThreadOutcome)
    ensures
        ({
            let x = totals(a);
            let y = totals(b);
            let all = totals(a + b);
            &&& all.operations == x.operations + y.operations
            &&& all.cas_failures == x.cas_failures + y.cas_failures
            &&& all.boundary_stores == x.boundary_stores + y.boundary_stores
            &&& all.boundary_waits == x.boundary_waits + y.boundary_waits
            &&& all.invalid_faa_reservations == x.invalid_faa_reservations
                + y.invalid_faa_reservations
            &&& all.wide_loads == x.wide_loads + y.wide_loads
            &&& all.wide_stores == x.wide_stores + y.wide_stores
            &&& all.pinned == x.pinned + y.pinned
            &&& all.elapsed_ns == (if x.elapsed_ns < y.elapsed_ns {
                y.elapsed_ns
            } else {
                x.elapsed_ns
            })
        }),
        ({
            let own = totals(seq![one]);
            &&& own.operations == one.stats.operations
            &&& own.cas_failures == one.stats.cas_failures
            &&& own.boundary_stores == one.stats.boundary_stores
            &&& own.boundary_waits == one.stats.boundary_waits
            &&& own.invalid_faa_reservations == one.stats.invalid_faa_reservations
            &&& own.wide_loads == one.stats.wide_loads
            &&& own.wide_stores == one.stats.wide_stores
            &&& own.elapsed_ns == one.elapsed_ns
            &&& own.pinned == (if one.pinned {
                1int
            } else {
                0int
            })
        }),
        totals(a).elapsed_ns >= 0,
    decreases b.len(),
{
    lemma_time_is_natural(a);
    assert(seq![one].drop_last() =~= Seq::<ThreadOutcome>::empty());
    assert(totals(seq![one].drop_last()).elapsed_ns == 0);
    if b.len() == 0 {
        assert(a + b =~= a);
    } else {
        law_totals_add_up(a, b.drop_last(), one);
        assert((a + b).drop_last() =~= a + b.drop_last());
        assert((a + b).last() == b.last());
    }
}

proof fn lemma_time_is_natural(a: Seq<ThreadOutcome>)
    ensures
        totals(a).elapsed_ns >= 0,
    decreases a.len(),
{
    if a.len() > 0 {
        lemma_time_is_natural(a.drop_last());
    }
}

/// A trial shows no fault exactly if its counts are those that its operations
/// leave: the word is the expected one, as many blocks were opened as were filled,
/// and with a pointer it moved as often and with as many wide stores, without one
/// nothing was read or written wide.
pub proof fn law_a_trial_without_faults(
    case: BenchmarkCase,
    block: BlockConfig,
    stats: UpdateStats,
    low: u64,
    full: Option<u128>,
)
    requires
        block.block_size > 0,
    ensures
        trial_fault(case, block, stats, low, full) is None <==> {
            let operations = stats.operations as int;
            let blocks = operations / block.block_size as int;
            &&& blocks <= u32::MAX
            &&& case.method == UpdateMethod::SegQueue ==> low == block.position_after(operations)
            &&& case.method != UpdateMethod::SegQueue ==> low == block.low_after(operations)
            &&& stats.boundary_stores == blocks
            &&& full is Some ==> {
                &&& full->0 / 0x1_0000_0000_0000_0000 == block.pointer_after(operations)
                &&& stats.wide_stores == blocks
            }
            &&& full is None ==> stats.wide_loads == 0 && stats.wide_stores == 0
        },
{
    if full is Some {
        let value = full->0;
        assert(value / 0x1_0000_0000_0000_0000 <= u64::MAX) by (nonlinear_arith)
            requires
                value <= u128::MAX,
        ;
    }
}

/// There are as many threads as run at once, unless fewer cores are known or fewer
/// were asked for: the least of these numbers.
pub proof fn law_the_least_limit_counts(args: UpdateArgs, parallelism: int, cores: int)
    requires
        0 <= parallelism,
        0 <= cores,
    ensures
        ({
            let limit = thread_limit(args, parallelism, cores);
            &&& limit <= parallelism
            &&& cores > 0 ==> limit <= cores
            &&& args.max_updaters is Some ==> limit <= args.max_updaters->0
            &&& limit == parallelism || (cores > 0 && limit == cores) || args.max_updaters == Some(
                limit as usize,
            )
        }),
{
}

/// In one repeat every block size is measured with every combination, each once:
/// two places of a repeat with the same trial are the same place.
pub proof fn law_no_trial_comes_twice_in_a_repeat(
    counts: Seq<usize>,
    blocks: Seq<BlockConfig>,
    a: Place,
    b: Place,
)
    requires
        blocks.no_duplicates(),
        a.count == b.count,
        a.repeat == b.repeat,
        a.block < blocks.len(),
        b.block < blocks.len(),
        a.case < 7,
        b.case < 7,
        trial_at(counts, blocks, a) == trial_at(counts, blocks, b),
    ensures
        a == b,
{
    let n = blocks.len() as int;
    let x = a.block + a.repeat;
    let y = b.block + b.repeat;
    vstd::arithmetic::div_mod::lemma_mod_bound(x, n);
    vstd::arithmetic::div_mod::lemma_mod_bound(y, n);
    assert(x % n == y % n);
    lemma_same_remainder(x, y, n);
    crate::bench::blocks::law_the_combinations(cases()[0]);
    let p = a.case + a.repeat + a.block;
    let q = b.case + b.repeat + b.block;
    assert(cases()[p % 7] == cases()[q % 7]);
    assert(p % 7 == q % 7);
    lemma_same_remainder(p, q, 7);
}

proof fn lemma_same_remainder(x: int, y: int, n: int)
    requires
        n > 0,
        x % n == y % n,
        -n < x - y < n,
    ensures
        x == y,
{
    vstd::arithmetic::div_mod::lemma_fundamental_div_mod(x, n);
    vstd::arithmetic::div_mod::lemma_fundamental_div_mod(y, n);
    let p = x / n;
    let q = y / n;
    assert(x - y == n * (p - q)) by (nonlinear_arith)
        requires
            x == n * p + x % n,
            y == n * q + y % n,
            x % n == y % n,
    ;
    assert(p == q) by (nonlinear_arith)
        requires
            n > 0,
            -n < n * (p - q) < n,
    ;
}

/// A path component keeps the letters, digits, hyphens and bars of a label at
/// their places, and has a bar at every other place.
pub proof fn law_component_place_by_place(value: Seq<char>, i: int)
    requires
        0 <= i < value.len(),
    ensures
        component(value).len() == value.len(),
        component(value)[i] == (if ('a' <= value[i] <= 'z') || ('A' <= value[i] <= 'Z') || ('0'
            <= value[i] <= '9') || value[i] == '-' || value[i] == '_' {
            value[i]
        } else {
            '_'
        }),
        component(Seq::empty()) == "local"@,
{
}

} // verus!
