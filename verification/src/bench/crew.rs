//! Threads that advance one counter together, in any order of their accesses.
use vstd::arithmetic::div_mod::{
    lemma_fundamental_div_mod, lemma_fundamental_div_mod_converse,
};
use vstd::prelude::*;

use crate::bench::blocks::{
    cases, BenchmarkCase, BlockConfig, CounterLayout, UpdateMethod, FIELD,
};
use crate::bench::trial::{expected_word, totals, trial_fault, ThreadOutcome};
use crate::bench::updater::{Phase, Updater};
use crate::bench::updates::{lemma_step, wrapped, UpdateStats};
use crate::tally::{
    lemma_sum_covers, lemma_sum_is_natural, lemma_sum_of_zeros, lemma_sum_update, sum,
};

verus! {

/// The shared head and the threads that advance it.
#[verifier::ext_equal]
pub struct Crew {
    pub word: u64,
    pub pointer: u64,
    pub threads: Seq<Updater>,
}

impl Updater {
    /// The thread has taken a place that it has not counted yet.
    pub open spec fn holds(self) -> bool {
        match self.phase {
            Phase::Storing { current } => true,
            Phase::Confirming { reserved } => !self.is_full(reserved),
            _ => false,
        }
    }

    /// The thread has taken the last place of a block that it has not followed
    /// up yet.
    pub open spec fn publishes(self) -> bool {
        match self.phase {
            Phase::Storing { current } => true,
            Phase::Confirming { reserved } => self.is_last(reserved),
            _ => false,
        }
    }

    /// The places that the thread has taken.
    pub open spec fn places(self) -> int {
        self.stats.operations + (if self.holds() {
            1int
        } else {
            0int
        })
    }
}

impl Crew {
    /// The places that have been taken.
    pub open spec fn taken(self) -> int {
        sum(self.threads.map_values(|thread: Updater| thread.places()))
    }

    /// The blocks that have been opened.
    pub open spec fn opened(self) -> int {
        sum(self.threads.map_values(|thread: Updater| thread.stats.boundary_stores as int))
    }

    /// The crew after an access by a thread.
    pub open spec fn with(self, word: u64, pointer: u64, t: int, thread: Updater) -> Crew {
        Crew { word, pointer, threads: self.threads.update(t, thread) }
    }

    /// A thread makes one access to the head, or a pause. An exchange of the
    /// word that stands there may still fail.
    pub open spec fn moves(self, t: int, after: Crew) -> bool {
        let thread = self.threads[t];
        &&& 0 <= t < self.threads.len()
        &&& match thread.phase {
            Phase::Starting => if thread.case.layout == CounterLayout::U64 {
                after == self.with(self.word, self.pointer, t, thread.with_word(self.word))
            } else {
                after == self.with(
                    self.word,
                    self.pointer,
                    t,
                    thread.with_whole(self.pointer, self.word),
                )
            },
            Phase::Idle => after == self.with(self.word, self.pointer, t, thread.begun()),
            Phase::Looking => after == self.with(
                self.word,
                self.pointer,
                t,
                thread.with_word(self.word),
            ),
            Phase::Checking { failed } => after == self.with(
                self.word,
                self.pointer,
                t,
                thread.with_whole(self.pointer, self.word),
            ),
            Phase::Confirming { reserved } => after == self.with(
                self.word,
                self.pointer,
                t,
                thread.with_whole(self.pointer, self.word),
            ),
            Phase::Exchanging { current } => {
                ||| self.word == current && after == self.with(
                    thread.word_behind(current),
                    self.pointer,
                    t,
                    thread.with_exchange(current),
                )
                ||| after == self.with(
                    self.word,
                    self.pointer,
                    t,
                    thread.with_failure(self.word),
                )
            },
            Phase::Adding => after == self.with(
                wrapped(self.word + 1) as u64,
                self.pointer,
                t,
                thread.with_addition(self.word),
            ),
            Phase::Spinning { current } => after == self.with(
                self.word,
                self.pointer,
                t,
                thread.with_pause(),
            ),
            Phase::Snoozing => after == self.with(
                self.word,
                self.pointer,
                t,
                thread.with_pause(),
            ),
            Phase::Storing { current } => after == self.with(
                thread.next_block(current),
                if thread.has_pointer() {
                    thread.next_pointer()
                } else {
                    self.pointer
                },
                t,
                thread.with_store(thread.next_block(current)),
            ),
        }
    }

    /// Some thread is about to open a block.
    pub open spec fn is_publishing(self) -> bool {
        exists|t: int| 0 <= t < self.threads.len() && (#[trigger] self.threads[t]).publishes()
    }

    /// What holds of every thread by itself.
    pub open spec fn thread_in_step(self, case: BenchmarkCase, block: BlockConfig, t: int) -> bool {
        let thread = self.threads[t];
        &&& thread.case == case
        &&& thread.block == block
        &&& thread.has_pointer() ==> {
            &&& thread.stats.wide_stores == thread.stats.boundary_stores
            &&& thread.phase != Phase::Starting ==> thread.cache.pointer == pointer_of(
                block,
                thread.cache.generation as int,
            )
        }
        &&& case.layout == CounterLayout::U64 ==> thread.stats.wide_loads == 0
            && thread.stats.wide_stores == 0
        &&& match thread.phase {
            Phase::Checking { failed } => thread.has_pointer(),
            Phase::Exchanging { current } => {
                &&& !thread.is_full(current)
                &&& thread.has_pointer() ==> thread.cache.generation == current / FIELD
            },
            Phase::Spinning { current } => thread.has_pointer() ==> thread.cache.generation
                == current / FIELD,
            Phase::Adding => case.method == UpdateMethod::Faa,
            Phase::Confirming { reserved } => {
                &&& thread.has_pointer()
                &&& case.method == UpdateMethod::Faa
                &&& thread.is_last(reserved) ==> reserved / FIELD == self.word / FIELD
            },
            Phase::Storing { current } => {
                &&& thread.is_last(current)
                &&& thread.in_laps() ==> self.word == thread.word_behind(current)
                &&& !thread.in_laps() ==> current / FIELD == self.word / FIELD
                &&& thread.has_pointer() ==> thread.cache.generation == current / FIELD
            },
            _ => true,
        }
    }

    /// The word is the one that the places taken so far leave. Where a thread
    /// is about to open a block, it shows the end of the block before.
    pub open spec fn word_in_step(self, case: BenchmarkCase, block: BlockConfig) -> bool {
        let taken = self.taken();
        let size = block.block_size as int;
        if self.is_publishing() {
            &&& taken > 0
            &&& taken % size == 0
            &&& self.opened() == taken / size - 1
            &&& if case.method == UpdateMethod::SegQueue {
                self.word == block.position_after(taken) - 2
            } else {
                self.word / FIELD == taken / size - 1 && self.word % FIELD >= size
            }
        } else {
            &&& self.opened() == taken / size
            &&& self.word == expected_word(case, block, taken)
        }
    }

    /// The threads and the head are in step.
    pub open spec fn in_step(self, case: BenchmarkCase, block: BlockConfig) -> bool {
        &&& block.wf()
        &&& forall|t: int|
            0 <= t < self.threads.len() ==> #[trigger] self.thread_in_step(case, block, t)
        &&& forall|s: int, t: int|
            0 <= s < self.threads.len() && 0 <= t < self.threads.len() && (
            #[trigger] self.threads[s]).publishes() && (#[trigger] self.threads[t]).publishes()
                ==> s == t
        &&& self.word_in_step(case, block)
        &&& case.layout == CounterLayout::MixedU128U64 && case.method != UpdateMethod::SegQueue
            ==> self.pointer == pointer_of(block, (self.word / FIELD) as int)
    }

    /// The numbers of a trial do not overflow with one more place.
    pub open spec fn has_room(self, case: BenchmarkCase, block: BlockConfig) -> bool {
        &&& self.taken() < u64::MAX
        &&& if case.method == UpdateMethod::SegQueue {
            block.position_after(self.taken() + 1) <= u64::MAX
        } else {
            (self.taken() + 1) / block.block_size as int <= u32::MAX
        }
    }
}

/// The pointer of the block of a generation.
pub open spec fn pointer_of(block: BlockConfig, generation: int) -> int {
    wrapped((generation + 1) * block.alignment)
}

/// How an access by a thread changes what the threads have counted.
proof fn lemma_counts(before: Crew, word: u64, pointer: u64, t: int, thread: Updater)
    requires
        0 <= t < before.threads.len(),
    ensures
        ({
            let after = before.with(word, pointer, t, thread);
            let old_thread = before.threads[t];
            &&& after.taken() == before.taken() - old_thread.places() + thread.places()
            &&& after.opened() == before.opened() - old_thread.stats.boundary_stores
                + thread.stats.boundary_stores
            &&& 0 <= old_thread.places() <= before.taken()
            &&& 0 <= old_thread.stats.boundary_stores <= before.opened()
        }),
{
    let after = before.with(word, pointer, t, thread);
    let places = before.threads.map_values(|u: Updater| u.places());
    let stores = before.threads.map_values(|u: Updater| u.stats.boundary_stores as int);
    lemma_sum_update(places, t, thread.places());
    lemma_sum_update(stores, t, thread.stats.boundary_stores as int);
    assert(after.threads.map_values(|u: Updater| u.places()) =~= places.update(
        t,
        thread.places(),
    ));
    assert(after.threads.map_values(|u: Updater| u.stats.boundary_stores as int)
        =~= stores.update(t, thread.stats.boundary_stores as int));
    lemma_sum_covers(places, t);
    lemma_sum_covers(stores, t);
}

/// A move that leaves the head and the thread's counts as they are keeps the
/// crew in step.
proof fn lemma_head_unchanged(
    before: Crew,
    case: BenchmarkCase,
    block: BlockConfig,
    t: int,
    thread: Updater,
)
    requires
        before.in_step(case, block),
        0 <= t < before.threads.len(),
        thread.places() == before.threads[t].places(),
        thread.stats.boundary_stores == before.threads[t].stats.boundary_stores,
        thread.publishes() == before.threads[t].publishes(),
        before.with(before.word, before.pointer, t, thread).thread_in_step(case, block, t),
    ensures
        before.with(before.word, before.pointer, t, thread).in_step(case, block),
{
    let after = before.with(before.word, before.pointer, t, thread);
    lemma_counts(before, before.word, before.pointer, t, thread);
    assert forall|s: int| 0 <= s < after.threads.len() implies #[trigger] after.thread_in_step(
        case,
        block,
        s,
    ) by {
        assert(before.thread_in_step(case, block, s));
    }
    assert(forall|s: int|
        0 <= s < after.threads.len() ==> (#[trigger] after.threads[s]).publishes()
            == before.threads[s].publishes());
    if before.is_publishing() {
        let s = choose|s: int|
            0 <= s < before.threads.len() && (#[trigger] before.threads[s]).publishes();
        assert(after.threads[s].publishes());
    }
    if after.is_publishing() {
        let s = choose|s: int|
            0 <= s < after.threads.len() && (#[trigger] after.threads[s]).publishes();
        assert(before.threads[s].publishes());
    }
}

/// A thread that takes the place that the word shows keeps the crew in step.
proof fn lemma_take(
    before: Crew,
    case: BenchmarkCase,
    block: BlockConfig,
    t: int,
    thread: Updater,
)
    requires
        before.in_step(case, block),
        before.has_room(case, block),
        0 <= t < before.threads.len(),
        !before.threads[t].publishes(),
        !before.threads[t].holds(),
        !before.threads[t].is_full(before.word),
        thread.places() == before.threads[t].places() + 1,
        thread.stats.boundary_stores == before.threads[t].stats.boundary_stores,
        thread.publishes() == before.threads[t].is_last(before.word),
        before.with(
            before.threads[t].word_behind(before.word),
            before.pointer,
            t,
            thread,
        ).thread_in_step(case, block, t),
    ensures
        before.with(
            before.threads[t].word_behind(before.word),
            before.pointer,
            t,
            thread,
        ).in_step(case, block),
{
    let word = before.threads[t].word_behind(before.word);
    let after = before.with(word, before.pointer, t, thread);
    let n = before.taken();
    let d = block.block_size as int;
    assert(before.thread_in_step(case, block, t));
    lemma_counts(before, word, before.pointer, t, thread);
    lemma_step(n, d);
    if case.method == UpdateMethod::SegQueue {
        lemma_lap(block, n);
    }
    assert(!before.is_publishing()) by {
        if before.is_publishing() && case.method == UpdateMethod::SegQueue {
            lemma_lap_end(block, n);
        }
    }
    assert forall|s: int| 0 <= s < after.threads.len() implies #[trigger] after.thread_in_step(
        case,
        block,
        s,
    ) by {
        assert(before.thread_in_step(case, block, s));
        if s != t {
            assert(!before.threads[s].publishes());
        }
    }
    assert forall|s: int| 0 <= s < after.threads.len() && s != t implies !(
    #[trigger] after.threads[s]).publishes() by {
        assert(!before.threads[s].publishes());
    }
    if thread.publishes() {
        assert(after.threads[t].publishes());
        assert(after.is_publishing());
    } else {
        assert(!after.threads[t].publishes());
        assert(!after.is_publishing());
    }
}

/// A lap counter between two updates shows the place that is due.
proof fn lemma_lap(block: BlockConfig, n: int)
    requires
        block.wf(),
        n >= 0,
    ensures
        ({
            let d = block.block_size as int;
            let position = block.position_after(n);
            &&& position >= 0
            &&& position % 2 == 0
            &&& (position / 2) % (d + 1) == n % d
            &&& block.position_after(n + 1) == position + (if n % d + 1 == d {
                4int
            } else {
                2int
            })
        }),
{
    let d = block.block_size as int;
    lemma_step(n, d);
    let q = n / d;
    let r = n % d;
    assert(q * (d + 1) >= 0) by (nonlinear_arith)
        requires
            q >= 0,
            d > 0,
    ;
    lemma_fundamental_div_mod_converse(q * (d + 1) + r, d + 1, q, r);
    assert((q + 1) * (d + 1) == q * (d + 1) + (d + 1)) by (nonlinear_arith);
}

/// A lap counter at the end of a lap shows the place that stays unused.
proof fn lemma_lap_end(block: BlockConfig, n: int)
    requires
        block.wf(),
        n > 0,
        n % block.block_size as int == 0,
    ensures
        ({
            let d = block.block_size as int;
            let word = block.position_after(n) - 2;
            &&& word >= 0
            &&& (word / 2) % (d + 1) == d
        }),
{
    let d = block.block_size as int;
    lemma_step(n, d);
    lemma_fundamental_div_mod(n, d);
    let q = n / d;
    assert(q >= 1) by (nonlinear_arith)
        requires
            n == d * q + n % d,
            n % d == 0,
            n > 0,
            d > 0,
    ;
    assert(q * (d + 1) == (q - 1) * (d + 1) + (d + 1)) by (nonlinear_arith);
    assert((q - 1) * (d + 1) >= 0) by (nonlinear_arith)
        requires
            q >= 1,
            d > 0,
    ;
    lemma_fundamental_div_mod_converse((q - 1) * (d + 1) + d, d + 1, q - 1, d);
}

/// A thread that adds to the word of a block that is used up keeps the crew in
/// step.
proof fn lemma_late_addition(
    before: Crew,
    case: BenchmarkCase,
    block: BlockConfig,
    t: int,
    thread: Updater,
)
    requires
        before.in_step(case, block),
        before.has_room(case, block),
        before.word % FIELD < u32::MAX,
        case.method == UpdateMethod::Faa,
        0 <= t < before.threads.len(),
        !before.threads[t].publishes(),
        before.threads[t].is_full(before.word),
        thread.places() == before.threads[t].places(),
        thread.stats.boundary_stores == before.threads[t].stats.boundary_stores,
        !thread.publishes(),
        before.with(
            wrapped(before.word + 1) as u64,
            before.pointer,
            t,
            thread,
        ).thread_in_step(case, block, t),
    ensures
        before.with(wrapped(before.word + 1) as u64, before.pointer, t, thread).in_step(
            case,
            block,
        ),
{
    let word = wrapped(before.word + 1) as u64;
    let after = before.with(word, before.pointer, t, thread);
    assert(before.thread_in_step(case, block, t));
    lemma_counts(before, word, before.pointer, t, thread);
    lemma_step(before.taken(), block.block_size as int);
    assert(word / FIELD == before.word / FIELD);
    assert(word % FIELD == before.word % FIELD + 1);
    assert(before.is_publishing());
    assert forall|s: int| 0 <= s < after.threads.len() implies #[trigger] after.thread_in_step(
        case,
        block,
        s,
    ) by {
        assert(before.thread_in_step(case, block, s));
    }
    let s = choose|s: int|
        0 <= s < before.threads.len() && (#[trigger] before.threads[s]).publishes();
    assert(after.threads[s].publishes());
    assert(after.is_publishing());
    assert(forall|s: int|
        0 <= s < after.threads.len() ==> (#[trigger] after.threads[s]).publishes()
            == before.threads[s].publishes());
}

/// The pointer behind that of a generation.
proof fn lemma_next_pointer(block: BlockConfig, generation: int)
    requires
        generation >= 0,
    ensures
        wrapped(pointer_of(block, generation) + block.alignment) == pointer_of(
            block,
            generation + 1,
        ),
        0 <= pointer_of(block, generation) <= u64::MAX,
{
    let a = block.alignment as int;
    assert((generation + 1 + 1) * a == (generation + 1) * a + a) by (nonlinear_arith);
}

/// The block that a thread is about to open starts with the word that is due.
proof fn lemma_due(before: Crew, case: BenchmarkCase, block: BlockConfig, t: int)
    requires
        before.in_step(case, block),
        before.has_room(case, block),
        0 <= t < before.threads.len(),
        before.threads[t].phase is Storing,
    ensures
        ({
            let thread = before.threads[t];
            let current = thread.phase->Storing_current;
            let next = thread.next_block(current);
            let size = block.block_size as int;
            &&& before.thread_in_step(case, block, t)
            &&& before.is_publishing()
            &&& before.taken() % size == 0
            &&& before.opened() == before.taken() / size - 1
            &&& before.opened() < u64::MAX
            &&& next == expected_word(case, block, before.taken())
            &&& case.method != UpdateMethod::SegQueue ==> next / FIELD == current / FIELD + 1
        }),
{
    let thread = before.threads[t];
    let current = thread.phase->Storing_current;
    let n = before.taken();
    let d = block.block_size as int;
    assert(before.thread_in_step(case, block, t));
    assert(thread.publishes());
    assert(before.is_publishing());
    lemma_step(n, d);
    lemma_fundamental_div_mod(n, d);
    let q = n / d;
    assert(q <= n) by (nonlinear_arith)
        requires
            n == d * q + n % d,
            n % d >= 0,
            d > 0,
            q >= 0,
    ;
    if case.method == UpdateMethod::SegQueue {
        lemma_lap(block, n);
        lemma_lap_end(block, n);
    } else {
        assert(current / FIELD + 1 == q);
        assert((n + 1) / d >= q);
    }
}

/// A thread that opens the block that is due keeps the crew in step.
#[verifier::spinoff_prover]
proof fn lemma_store(before: Crew, case: BenchmarkCase, block: BlockConfig, t: int, after: Crew)
    requires
        before.in_step(case, block),
        before.has_room(case, block),
        0 <= t < before.threads.len(),
        before.threads[t].phase is Storing,
        before.moves(t, after),
    ensures
        after.in_step(case, block),
{
    let thread = before.threads[t];
    let current = thread.phase->Storing_current;
    let next = thread.next_block(current);
    let stored = thread.with_store(next);
    lemma_due(before, case, block, t);
    lemma_counts(before, after.word, after.pointer, t, stored);
    assert(after.threads[t] == stored);
    lemma_next_pointer(block, (current / FIELD) as int);
    assert(stored.places() == thread.places());
    assert(stored.stats.boundary_stores == thread.stats.boundary_stores + 1);
    assert forall|s: int| 0 <= s < after.threads.len() implies !(
    #[trigger] after.threads[s]).publishes() by {
        if s != t {
            assert(before.threads[s] == after.threads[s]);
            assert(before.threads[t].publishes());
        }
    }
    assert(!after.is_publishing());
    assert forall|s: int| 0 <= s < after.threads.len() implies #[trigger] after.thread_in_step(
        case,
        block,
        s,
    ) by {
        assert(!after.threads[s].publishes());
        if s != t {
            assert(before.thread_in_step(case, block, s));
        }
    }
}

/// A thread that adds to the word keeps the crew in step.
proof fn lemma_addition(before: Crew, case: BenchmarkCase, block: BlockConfig, t: int, after: Crew)
    requires
        before.in_step(case, block),
        before.has_room(case, block),
        before.moves(t, after),
        before.threads[t].phase == Phase::Adding,
        before.word % FIELD < u32::MAX,
    ensures
        after.in_step(case, block),
{
    let thread = before.threads[t];
    let moved = thread.with_addition(before.word);
    assert(before.thread_in_step(case, block, t));
    lemma_counts(before, after.word, after.pointer, t, moved);
    assert(after.threads[t] == moved);
    if thread.is_full(before.word) {
        lemma_late_addition(before, case, block, t, moved);
    } else {
        lemma_take(before, case, block, t, moved);
    }
}

/// A thread that tries to exchange the word keeps the crew in step.
proof fn lemma_exchange(before: Crew, case: BenchmarkCase, block: BlockConfig, t: int, after: Crew)
    requires
        before.in_step(case, block),
        before.has_room(case, block),
        before.moves(t, after),
        before.threads[t].phase is Exchanging,
    ensures
        after.in_step(case, block),
{
    let thread = before.threads[t];
    let current = thread.phase->Exchanging_current;
    let moved = after.threads[t];
    assert(before.thread_in_step(case, block, t));
    lemma_counts(before, after.word, after.pointer, t, moved);
    if after == before.with(before.word, before.pointer, t, thread.with_failure(before.word)) {
        assert(moved == thread.with_failure(before.word));
        lemma_head_unchanged(before, case, block, t, moved);
    } else {
        assert(moved == thread.with_exchange(current));
        lemma_take(before, case, block, t, moved);
    }
}

/// A thread that looks at the whole head keeps the crew in step.
proof fn lemma_whole_look(
    before: Crew,
    case: BenchmarkCase,
    block: BlockConfig,
    t: int,
    after: Crew,
)
    requires
        before.in_step(case, block),
        before.has_room(case, block),
        before.moves(t, after),
        before.threads[t].phase is Checking || before.threads[t].phase is Confirming,
    ensures
        after.in_step(case, block),
{
    let thread = before.threads[t];
    let moved = thread.with_whole(before.pointer, before.word);
    assert(before.thread_in_step(case, block, t));
    lemma_counts(before, after.word, after.pointer, t, moved);
    assert(after.threads[t] == moved);
    lemma_head_unchanged(before, case, block, t, moved);
}

/// Whichever thread moves, the crew stays in step: no place is lost and none
/// is taken twice. An addition needs an index that can still count up.
pub proof fn law_a_move_keeps_step(
    before: Crew,
    case: BenchmarkCase,
    block: BlockConfig,
    t: int,
    after: Crew,
)
    requires
        before.in_step(case, block),
        before.has_room(case, block),
        before.threads[t].phase == Phase::Adding ==> before.word % FIELD < u32::MAX,
        before.moves(t, after),
    ensures
        after.in_step(case, block),
{
    match before.threads[t].phase {
        Phase::Storing { current } => lemma_store(before, case, block, t, after),
        Phase::Adding => lemma_addition(before, case, block, t, after),
        Phase::Exchanging { current } => lemma_exchange(before, case, block, t, after),
        Phase::Checking { failed } => lemma_whole_look(before, case, block, t, after),
        Phase::Confirming { reserved } => lemma_whole_look(before, case, block, t, after),
        _ => {
            assert(before.thread_in_step(case, block, t));
            lemma_head_unchanged(before, case, block, t, after.threads[t]);
        },
    }
}

/// New threads at a new counter are in step.
pub proof fn law_a_fresh_crew_is_in_step(crew: Crew, case: BenchmarkCase, block: BlockConfig)
    requires
        block.wf(),
        crew.word == 0,
        crew.pointer == block.alignment,
        forall|t: int|
            0 <= t < crew.threads.len() ==> {
                let thread = #[trigger] crew.threads[t];
                &&& thread.case == case
                &&& thread.block == block
                &&& thread.phase == Phase::Starting
                &&& thread.stats == UpdateStats::zero()
            },
    ensures
        crew.in_step(case, block),
        crew.taken() == 0,
{
    lemma_sum_of_zeros(crew.threads.map_values(|thread: Updater| thread.places()));
    lemma_sum_of_zeros(
        crew.threads.map_values(|thread: Updater| thread.stats.boundary_stores as int),
    );
    let d = block.block_size as int;
    lemma_fundamental_div_mod_converse(0, d, 0, 0);
    assert(0int * (d + 1) == 0) by (nonlinear_arith);
    assert((0int + 1) * block.alignment == block.alignment) by (nonlinear_arith);
    assert(!crew.is_publishing());
}

/// What the threads have counted, as the outcomes tell it.
proof fn lemma_totals(threads: Seq<Updater>, outcomes: Seq<ThreadOutcome>)
    requires
        outcomes.len() == threads.len(),
        forall|t: int| 0 <= t < threads.len() ==> #[trigger] outcomes[t].stats == threads[t].stats,
        forall|t: int| 0 <= t < threads.len() ==> !(#[trigger] threads[t]).holds(),
    ensures
        totals(outcomes).operations == sum(threads.map_values(|u: Updater| u.places())),
        totals(outcomes).boundary_stores == sum(
            threads.map_values(|u: Updater| u.stats.boundary_stores as int),
        ),
        (forall|t: int|
            0 <= t < threads.len() ==> (#[trigger] threads[t]).stats.wide_stores
                == threads[t].stats.boundary_stores) ==> totals(outcomes).wide_stores == totals(
            outcomes,
        ).boundary_stores,
        (forall|t: int|
            0 <= t < threads.len() ==> (#[trigger] threads[t]).stats.wide_stores == 0
                && threads[t].stats.wide_loads == 0) ==> totals(outcomes).wide_stores == 0
            && totals(outcomes).wide_loads == 0,
    decreases threads.len(),
{
    if threads.len() > 0 {
        let rest = threads.drop_last();
        let last = threads.len() - 1;
        assert(outcomes[last].stats == threads[last].stats);
        assert forall|t: int| 0 <= t < rest.len() implies #[trigger] outcomes.drop_last()[t].stats
            == rest[t].stats by {
            assert(outcomes[t].stats == threads[t].stats);
        }
        lemma_totals(rest, outcomes.drop_last());
        assert(threads.map_values(|u: Updater| u.places()).drop_last() =~= rest.map_values(
            |u: Updater| u.places(),
        ));
        assert(threads.map_values(
            |u: Updater| u.stats.boundary_stores as int,
        ).drop_last() =~= rest.map_values(|u: Updater| u.stats.boundary_stores as int));
        assert(forall|t: int| 0 <= t < rest.len() ==> rest[t] == #[trigger] threads[t]);
    }
}

/// When all threads rest, a trial shows no fault: however their accesses came
/// between each other, the word, the pointer and the counts are those that as
/// many updates of one thread would have left.
pub proof fn law_a_rested_crew_shows_no_fault(
    crew: Crew,
    case: BenchmarkCase,
    block: BlockConfig,
    outcomes: Seq<ThreadOutcome>,
    stats: UpdateStats,
    full: Option<u128>,
)
    requires
        crew.in_step(case, block),
        cases().contains(case),
        forall|t: int|
            0 <= t < crew.threads.len() ==> (#[trigger] crew.threads[t]).phase == Phase::Idle,
        outcomes.len() == crew.threads.len(),
        forall|t: int|
            0 <= t < outcomes.len() ==> #[trigger] outcomes[t].stats == crew.threads[t].stats,
        stats.operations == totals(outcomes).operations,
        stats.boundary_stores == totals(outcomes).boundary_stores,
        stats.wide_stores == totals(outcomes).wide_stores,
        stats.wide_loads == totals(outcomes).wide_loads,
        full == (if case.layout == CounterLayout::U64 {
            None
        } else {
            Some((crew.pointer * 0x1_0000_0000_0000_0000 + crew.word) as u128)
        }),
        crew.taken() / block.block_size as int <= u32::MAX,
        case.layout == CounterLayout::MixedU128U64 ==> block.pointer_after(crew.taken())
            <= u64::MAX,
    ensures
        trial_fault(case, block, stats, crew.word, full) is None,
{
    let n = crew.taken();
    let d = block.block_size as int;
    assert forall|t: int| 0 <= t < crew.threads.len() implies crew.thread_in_step(
        case,
        block,
        t,
    ) && !(#[trigger] crew.threads[t]).holds() && !crew.threads[t].publishes() by {
        assert(crew.thread_in_step(case, block, t));
    }
    assert(!crew.is_publishing());
    lemma_totals(crew.threads, outcomes);
    lemma_sum_is_natural(crew.threads.map_values(|u: Updater| u.places()));
    lemma_step(n, d);
    assert(case.method == UpdateMethod::SegQueue ==> case.layout == CounterLayout::U64);
    if case.layout == CounterLayout::MixedU128U64 {
        assert(crew.word / FIELD == n / d);
        let a = block.alignment as int;
        let q = n / d;
        assert((q + 1) * a >= 0) by (nonlinear_arith)
            requires
                q >= 0,
                a >= 0,
        ;
        assert(full->0 / 0x1_0000_0000_0000_0000 == crew.pointer);
    }
}

} // verus!
