//! Counters that run through blocks, and the ways to advance them.
use vstd::arithmetic::div_mod::{
    lemma_fundamental_div_mod, lemma_fundamental_div_mod_converse, lemma_mod_bound,
};
use vstd::prelude::*;

use crate::bench::blocks::{
    BlockConfig, CounterLayout, UpdateMethod, FIELD, SEGQUEUE_INDEX_STEP, UPDATE_CHUNK,
};

verus! {

/// A count in 64 bits.
pub open spec fn wrapped(n: int) -> int {
    n % 0x1_0000_0000_0000_0000
}

/// What a thread remembers of the head.
#[derive(Clone, Copy, Debug, PartialEq, Eq, Structural)]
pub struct CachedHead {
    pub generation: u32,
    pub pointer: u64,
}

/// What a thread counts.
#[derive(Clone, Copy, Debug, PartialEq, Eq, Structural)]
pub struct UpdateStats {
    pub operations: u64,
    pub cas_failures: u64,
    pub boundary_stores: u64,
    pub boundary_waits: u64,
    pub invalid_faa_reservations: u64,
    pub wide_loads: u64,
    pub wide_stores: u64,
}

impl CachedHead {
    pub fn new() -> (cache: CachedHead)
        ensures
            cache.generation == 0,
            cache.pointer == 0,
    {
        CachedHead { generation: 0, pointer: 0 }
    }
}

impl UpdateStats {
    pub fn new() -> (stats: UpdateStats)
        ensures
            stats == UpdateStats::zero(),
    {
        UpdateStats {
            operations: 0,
            cas_failures: 0,
            boundary_stores: 0,
            boundary_waits: 0,
            invalid_faa_reservations: 0,
            wide_loads: 0,
            wide_stores: 0,
        }
    }

    pub open spec fn zero() -> UpdateStats {
        UpdateStats {
            operations: 0,
            cas_failures: 0,
            boundary_stores: 0,
            boundary_waits: 0,
            invalid_faa_reservations: 0,
            wide_loads: 0,
            wide_stores: 0,
        }
    }
}

/// What can be done with a value of the counter that was seen.
#[derive(Clone, Copy, Debug, PartialEq, Eq, Structural)]
pub enum Attempt {
    /// The block is used up; whoever took its last place will open the next.
    Wait,
    /// There is a place; the one who takes the last opens the next block.
    Take { last: bool },
}

/// What can be done with a word that was seen.
pub fn attempt(block: BlockConfig, current: u64) -> (attempt: Attempt)
    ensures
        attempt == (if current % FIELD >= block.block_size {
            Attempt::Wait
        } else {
            Attempt::Take { last: current % FIELD + 1 == block.block_size }
        }),
{
    let index: u32 = block.index(current);
    if index >= block.block_size {
        Attempt::Wait
    } else {
        Attempt::Take { last: index + 1 == block.block_size }
    }
}

/// What can be done with a position that was seen.
pub fn segqueue_attempt(block: BlockConfig, tail: u64) -> (attempt: Attempt)
    ensures
        ({
            let offset = (tail / 2) % (block.block_size + 1) as u64;
            attempt == if offset == block.block_size {
                Attempt::Wait
            } else {
                Attempt::Take { last: offset + 1 == block.block_size }
            }
        }),
{
    let offset: u32 = block.segqueue_offset(tail);
    proof {
        lemma_mod_bound((tail / 2) as int, block.block_size + 1);
    }
    if offset == block.block_size {
        Attempt::Wait
    } else {
        Attempt::Take { last: offset + 1 == block.block_size }
    }
}

/// The shared counter.
pub struct Counter {
    layout: CounterLayout,
    low: u64,
    pointer: u64,
    done: Ghost<int>,
}

pub(crate) proof fn lemma_step(n: int, d: int)
    requires
        n >= 0,
        d > 0,
    ensures
        0 <= n % d < d,
        0 <= n / d,
        n % d + 1 == d ==> (n + 1) / d == n / d + 1 && (n + 1) % d == 0,
        n % d + 1 < d ==> (n + 1) / d == n / d && (n + 1) % d == n % d + 1,
{
    lemma_fundamental_div_mod(n, d);
    lemma_mod_bound(n, d);
    let q = n / d;
    let r = n % d;
    assert(0 <= q) by (nonlinear_arith)
        requires
            n >= 0,
            d > 0,
            q == n / d,
    ;
    assert(d * q == q * d) by (nonlinear_arith);
    if r + 1 == d {
        assert((q + 1) * d == q * d + d) by (nonlinear_arith);
        lemma_fundamental_div_mod_converse(n + 1, d, q + 1, 0);
    } else {
        lemma_fundamental_div_mod_converse(n + 1, d, q, r + 1);
    }
}

impl Counter {
    pub closed spec fn layout(&self) -> CounterLayout {
        self.layout
    }

    /// The word.
    pub closed spec fn low(&self) -> u64 {
        self.low
    }

    /// The pointer, zero where there is none.
    pub closed spec fn pointer(&self) -> u64 {
        self.pointer
    }

    /// How many updates the counter has seen.
    pub closed spec fn done(&self) -> int {
        self.done@
    }

    /// The counter stands where its updates have brought it: at an index of a
    /// block, with the pointer of that block.
    pub open spec fn in_blocks(&self, block: BlockConfig) -> bool {
        &&& block.wf()
        &&& self.done() >= 0
        &&& self.low() == (self.done() / block.block_size as int) % FIELD as int * FIELD
            + self.done() % block.block_size as int
        &&& self.layout() == CounterLayout::MixedU128U64 ==> self.pointer() == wrapped(
            block.pointer_after(self.done()),
        )
    }

    /// The counter stands where its updates have brought it: at an offset of a
    /// lap.
    pub open spec fn in_laps(&self, block: BlockConfig) -> bool {
        &&& block.wf()
        &&& self.done() >= 0
        &&& self.low() == block.position_after(self.done())
    }

    /// A thread remembers the head as it is.
    pub open spec fn remembered(&self, cache: CachedHead) -> bool {
        &&& cache.generation == self.low() / FIELD
        &&& self.layout() == CounterLayout::MixedU128U64 ==> cache.pointer == self.pointer()
    }

    pub fn new(layout: CounterLayout, block: BlockConfig) -> (counter: Counter)
        requires
            block.wf(),
        ensures
            counter.layout() == layout,
            counter.done() == 0,
            counter.in_blocks(block),
            counter.in_laps(block),
    {
        let pointer: u64 = match layout {
            CounterLayout::U64 => 0,
            CounterLayout::MixedU128U64 => block.alignment,
        };
        let counter = Counter { layout, low: 0, pointer, done: Ghost(0) };
        proof {
            let d = block.block_size as int;
            lemma_fundamental_div_mod_converse(0, d, 0, 0);
            assert(block.pointer_after(0) == block.alignment) by {
                assert((0int + 1) * block.alignment == block.alignment) by (nonlinear_arith);
            }
            assert(block.position_after(0) == 0) by {
                assert(0int * (block.block_size + 1) == 0) by (nonlinear_arith);
            }
        }
        counter
    }

    pub fn narrow_load(&self) -> (value: u64)
        ensures
            value == self.low(),
    {
        self.low
    }

    /// Takes note of the head.
    pub fn initialize(&self, block: BlockConfig, cache: &mut CachedHead, stats: &mut UpdateStats)
        ensures
            self.remembered(*final(cache)),
            self.layout() == CounterLayout::U64 ==> final(cache).pointer == old(cache).pointer
                && *final(stats) == *old(stats),
            self.layout() == CounterLayout::MixedU128U64 ==> *final(stats) == (UpdateStats {
                wide_loads: wrapped(old(stats).wide_loads + 1) as u64,
                ..*old(stats)
            }),
    {
        cache.generation = block.generation(self.low);
        match self.layout {
            CounterLayout::U64 => {},
            CounterLayout::MixedU128U64 => {
                cache.pointer = self.pointer;
                stats.wide_loads = stats.wide_loads.wrapping_add(1);
            },
        }
    }

    /// Brings what a thread remembers up to the generation of a word it saw.
    /// With a pointer that takes a look at the whole head, unless the
    /// generation is the one remembered.
    pub fn synchronize_generation(
        &self,
        observed: u64,
        block: BlockConfig,
        cache: &mut CachedHead,
        stats: &mut UpdateStats,
    ) -> (current: u64)
        ensures
            match self.layout() {
                CounterLayout::U64 => {
                    &&& current == observed
                    &&& *final(cache) == (CachedHead {
                        generation: (observed / FIELD) as u32,
                        ..*old(cache)
                    })
                    &&& *final(stats) == *old(stats)
                },
                CounterLayout::MixedU128U64 => if observed / FIELD == old(cache).generation {
                    &&& current == observed
                    &&& *final(cache) == *old(cache)
                    &&& *final(stats) == *old(stats)
                } else {
                    &&& current == self.low()
                    &&& self.remembered(*final(cache))
                    &&& *final(stats) == (UpdateStats {
                        wide_loads: wrapped(old(stats).wide_loads + 1) as u64,
                        ..*old(stats)
                    })
                },
            },
    {
        match self.layout {
            CounterLayout::U64 => {
                cache.generation = block.generation(observed);
                observed
            },
            CounterLayout::MixedU128U64 => {
                if block.generation(observed) == cache.generation {
                    return observed;
                }
                cache.generation = block.generation(self.low);
                cache.pointer = self.pointer;
                stats.wide_loads = stats.wide_loads.wrapping_add(1);
                self.low
            },
        }
    }

    /// Replaces the word if it is the one expected.
    pub fn compare_exchange(&mut self, current: u64, new: u64) -> (result: Result<u64, u64>)
        ensures
            final(self).layout() == old(self).layout(),
            final(self).pointer() == old(self).pointer(),
            final(self).done() == old(self).done(),
            match result {
                Ok(seen) => old(self).low() == current && seen == current && final(self).low()
                    == new,
                Err(seen) => old(self).low() != current && seen == old(self).low()
                    && final(self).low() == old(self).low(),
            },
    {
        if self.low == current {
            self.low = new;
            Ok(current)
        } else {
            Err(self.low)
        }
    }

    /// Adds to the word and tells what it was.
    pub fn fetch_add(&mut self, value: u64) -> (previous: u64)
        ensures
            previous == old(self).low(),
            final(self).low() == wrapped(old(self).low() + value),
            final(self).layout() == old(self).layout(),
            final(self).pointer() == old(self).pointer(),
            final(self).done() == old(self).done(),
    {
        let previous: u64 = self.low;
        self.low = previous.wrapping_add(value);
        previous
    }

    pub fn narrow_store(&mut self, value: u64)
        ensures
            final(self).low() == value,
            final(self).layout() == old(self).layout(),
            final(self).pointer() == old(self).pointer(),
            final(self).done() == old(self).done(),
    {
        self.low = value;
    }

    /// Opens the block behind the one that `current` is in.
    pub fn publish_next(
        &mut self,
        current: u64,
        block: BlockConfig,
        cache: &mut CachedHead,
        stats: &mut UpdateStats,
    )
        ensures
            final(self).layout() == old(self).layout(),
            final(self).done() == old(self).done(),
            final(self).low() == ((current / FIELD + 1) % FIELD as int) * FIELD,
            final(cache).generation == final(self).low() / FIELD,
            final(stats).boundary_stores == wrapped(old(stats).boundary_stores + 1),
            match old(self).layout() {
                CounterLayout::U64 => {
                    &&& final(self).pointer() == old(self).pointer()
                    &&& final(cache).pointer == old(cache).pointer
                    &&& final(stats).wide_stores == old(stats).wide_stores
                },
                CounterLayout::MixedU128U64 => {
                    &&& final(self).pointer() == wrapped(old(cache).pointer + block.alignment)
                    &&& final(cache).pointer == final(self).pointer()
                    &&& final(stats).wide_stores == wrapped(old(stats).wide_stores + 1)
                },
            },
            *final(stats) == (UpdateStats {
                boundary_stores: final(stats).boundary_stores,
                wide_stores: final(stats).wide_stores,
                ..*old(stats)
            }),
    {
        let next: u64 = block.next_low(current);
        self.low = next;
        match self.layout {
            CounterLayout::U64 => {},
            CounterLayout::MixedU128U64 => {
                let next_pointer: u64 = cache.pointer.wrapping_add(block.alignment);
                self.pointer = next_pointer;
                cache.pointer = next_pointer;
                stats.wide_stores = stats.wide_stores.wrapping_add(1);
            },
        }
        cache.generation = block.generation(next);
        stats.boundary_stores = stats.boundary_stores.wrapping_add(1);
    }

    /// The word, and the double word where there is a pointer.
    pub fn final_values(&self, block: BlockConfig) -> (values: (u64, Option<u128>))
        ensures
            values.0 == self.low(),
            values.1 == (match self.layout() {
                CounterLayout::U64 => None,
                CounterLayout::MixedU128U64 => Some(
                    (self.pointer() * 0x1_0000_0000_0000_0000 + self.low()) as u128,
                ),
            }),
    {
        match self.layout {
            CounterLayout::U64 => (self.low, None),
            CounterLayout::MixedU128U64 => (
                self.low,
                Some(block.pack_full(self.pointer, self.low)),
            ),
        }
    }

    proof fn lemma_index(&self, block: BlockConfig)
        requires
            self.in_blocks(block),
        ensures
            self.low() % FIELD == self.done() % block.block_size as int,
            self.low() / FIELD == (self.done() / block.block_size as int) % FIELD as int,
            self.low() % FIELD < block.block_size,
    {
        lemma_step(self.done(), block.block_size as int);
    }

    /// Takes the place that a word shows, and opens the next block behind the
    /// last place of one.
    fn take(
        &mut self,
        last: bool,
        block: BlockConfig,
        cache: &mut CachedHead,
        stats: &mut UpdateStats,
        Ghost(before): Ghost<Counter>,
    )
        requires
            before.in_blocks(block),
            before.remembered(*old(cache)),
            old(self).layout() == before.layout(),
            old(self).pointer() == before.pointer(),
            old(self).low() == before.low() + 1,
            last == (before.low() % FIELD + 1 == block.block_size),
            before.low() % FIELD < block.block_size,
        ensures
            final(self).in_blocks(block),
            final(self).remembered(*final(cache)),
            final(self).layout() == before.layout(),
            final(self).done() == before.done() + 1,
            *final(stats) == counted(
                *old(stats),
                before.layout(),
                1,
                final(self).done() / block.block_size as int - before.done()
                    / block.block_size as int,
            ),
    {
        let ghost n = before.done();
        proof {
            before.lemma_index(block);
            lemma_next(block, n, before.low() as int);
        }
        if last {
            let word: u64 = self.low - 1;
            self.publish_next(word, block, cache, stats);
        }
        stats.operations = stats.operations.wrapping_add(1);
        self.done = Ghost(n + 1);
    }

    /// Advances the counter by a chunk of updates that each exchange the word.
    pub fn run_cas_chunk(
        &mut self,
        method: UpdateMethod,
        block: BlockConfig,
        cache: &mut CachedHead,
        stats: &mut UpdateStats,
    )
        requires
            old(self).in_blocks(block),
            old(self).remembered(*old(cache)),
        ensures
            final(self).in_blocks(block),
            final(self).remembered(*final(cache)),
            final(self).layout() == old(self).layout(),
            final(self).done() == old(self).done() + UPDATE_CHUNK,
            *final(stats) == advanced(*old(stats), old(self), UPDATE_CHUNK as int, block),
    {
        let ghost start = *self;
        let ghost first = *stats;
        let mut i: usize = 0;
        while i < UPDATE_CHUNK
            invariant
                i <= UPDATE_CHUNK,
                start == *old(self),
                first == *old(stats),
                self.in_blocks(block),
                self.remembered(*cache),
                self.layout() == start.layout(),
                self.done() == start.done() + i,
                *stats == advanced(first, &start, i as int, block),
            decreases UPDATE_CHUNK - i,
        {
            let ghost before = *self;
            let ghost counted = *stats;
            proof {
                self.lemma_index(block);
            }
            let observed: u64 = self.narrow_load();
            let current: u64 = self.synchronize_generation(observed, block, cache, stats);
            assert(*stats == counted);
            if let Attempt::Take { last } = attempt(block, current) {
                let exchanged = self.compare_exchange(current, current.wrapping_add(1));
                assert(exchanged is Ok);
                self.take(last, block, cache, stats, Ghost(before));
                proof {
                    let d = block.block_size as int;
                    lemma_counted(
                        first,
                        start.layout(),
                        i as int,
                        before.done() / d - start.done() / d,
                        self.done() / d - before.done() / d,
                    );
                }
            }
            i = i + 1;
        }
    }

    /// Advances the counter by a chunk of updates that each add to the word.
    pub fn run_faa_chunk(
        &mut self,
        block: BlockConfig,
        cache: &mut CachedHead,
        stats: &mut UpdateStats,
    )
        requires
            old(self).in_blocks(block),
            old(self).remembered(*old(cache)),
        ensures
            final(self).in_blocks(block),
            final(self).remembered(*final(cache)),
            final(self).layout() == old(self).layout(),
            final(self).done() == old(self).done() + UPDATE_CHUNK,
            *final(stats) == advanced(*old(stats), old(self), UPDATE_CHUNK as int, block),
    {
        let ghost start = *self;
        let ghost first = *stats;
        let mut i: usize = 0;
        while i < UPDATE_CHUNK
            invariant
                i <= UPDATE_CHUNK,
                start == *old(self),
                first == *old(stats),
                self.in_blocks(block),
                self.remembered(*cache),
                self.layout() == start.layout(),
                self.done() == start.done() + i,
                *stats == advanced(first, &start, i as int, block),
            decreases UPDATE_CHUNK - i,
        {
            let ghost before = *self;
            let ghost counted = *stats;
            proof {
                self.lemma_index(block);
            }
            let observed: u64 = self.narrow_load();
            let current: u64 = self.synchronize_generation(observed, block, cache, stats);
            assert(*stats == counted);
            if let Attempt::Take { last: _ } = attempt(block, current) {
                let reserved: u64 = self.fetch_add(1);
                if let Attempt::Take { last } = attempt(block, reserved) {
                    self.take(last, block, cache, stats, Ghost(before));
                    proof {
                        let d = block.block_size as int;
                    lemma_counted(
                        first,
                        start.layout(),
                        i as int,
                        before.done() / d - start.done() / d,
                        self.done() / d - before.done() / d,
                    );
                    }
                }
            }
            i = i + 1;
        }
    }

    /// Advances the counter by a chunk of updates in the manner of a segmented
    /// queue: the place behind the last of a lap stays unused.
    pub fn run_segqueue_chunk(&mut self, block: BlockConfig, stats: &mut UpdateStats)
        requires
            old(self).in_laps(block),
            block.position_after(old(self).done() + UPDATE_CHUNK) <= u64::MAX,
        ensures
            final(self).in_laps(block),
            final(self).layout() == old(self).layout(),
            final(self).pointer() == old(self).pointer(),
            final(self).done() == old(self).done() + UPDATE_CHUNK,
            ({
                let crossed = final(self).done() / block.block_size as int - old(self).done()
                    / block.block_size as int;
                *final(stats) == (UpdateStats {
                    operations: wrapped(old(stats).operations + UPDATE_CHUNK) as u64,
                    boundary_stores: wrapped(old(stats).boundary_stores + crossed) as u64,
                    ..*old(stats)
                })
            }),
    {
        let ghost start = *self;
        let ghost first = *stats;
        let ghost d = block.block_size as int;
        let mut i: usize = 0;
        while i < UPDATE_CHUNK
            invariant
                i <= UPDATE_CHUNK,
                start == *old(self),
                first == *old(stats),
                d == block.block_size,
                start.done() >= 0,
                block.position_after(start.done() + UPDATE_CHUNK) <= u64::MAX,
                self.in_laps(block),
                self.layout() == start.layout(),
                self.pointer() == start.pointer(),
                self.done() == start.done() + i,
                *stats == (UpdateStats {
                    operations: wrapped(first.operations + i) as u64,
                    boundary_stores: wrapped(
                        first.boundary_stores + (self.done() / d - start.done() / d),
                    ) as u64,
                    ..first
                }),
            decreases UPDATE_CHUNK - i,
        {
            let ghost n = self.done();
            proof {
                lemma_step(n, d);
                lemma_offset(n, d);
                lemma_position_order(block, n + 1, start.done() + UPDATE_CHUNK);
            }
            let tail: u64 = self.narrow_load();
            if let Attempt::Take { last } = segqueue_attempt(block, tail) {
                proof {
                    let q = n / d;
                    if last {
                        assert((q + 1) * (d + 1) == q * (d + 1) + (d + 1)) by (nonlinear_arith);
                    }
                    assert(block.position_after(n + 1) == block.position_after(n) + (if last {
                        4int
                    } else {
                        2int
                    }));
                }
                let new_tail: u64 = tail.wrapping_add(SEGQUEUE_INDEX_STEP);
                let exchanged = self.compare_exchange(tail, new_tail);
                assert(exchanged is Ok);
                if last {
                    self.narrow_store(new_tail.wrapping_add(SEGQUEUE_INDEX_STEP));
                    stats.boundary_stores = stats.boundary_stores.wrapping_add(1);
                }
                stats.operations = stats.operations.wrapping_add(1);
                self.done = Ghost(n + 1);
            } else {
                assert(false);
            }
            i = i + 1;
        }
    }
}

/// What has been counted after more updates, some of which opened a block.
pub open spec fn counted(
    first: UpdateStats,
    layout: CounterLayout,
    updates: int,
    opened: int,
) -> UpdateStats {
    UpdateStats {
        operations: wrapped(first.operations + updates) as u64,
        boundary_stores: wrapped(first.boundary_stores + opened) as u64,
        wide_stores: (if layout == CounterLayout::U64 {
            first.wide_stores as int
        } else {
            wrapped(first.wide_stores + opened)
        }) as u64,
        ..first
    }
}

/// What has been counted after so many more updates: a block is opened for
/// every one that is filled.
pub open spec fn advanced(
    first: UpdateStats,
    start: &Counter,
    updates: int,
    block: BlockConfig,
) -> UpdateStats {
    let d = block.block_size as int;
    counted(
        first,
        start.layout(),
        updates,
        (start.done() + updates) / d - start.done() / d,
    )
}

proof fn lemma_wrapped(a: int, b: int)
    ensures
        wrapped(wrapped(a) + b) == wrapped(a + b),
        0 <= wrapped(a) <= u64::MAX,
{
}

#[verifier::spinoff_prover]
proof fn lemma_counted(
    first: UpdateStats,
    layout: CounterLayout,
    updates: int,
    opened: int,
    more: int,
)
    ensures
        counted(counted(first, layout, updates, opened), layout, 1, more) == counted(
            first,
            layout,
            updates + 1,
            opened + more,
        ),
{
    lemma_wrapped(first.operations + updates, 1);
    lemma_wrapped(first.boundary_stores + opened, more);
    lemma_wrapped(first.wide_stores + opened, more);
    lemma_wrapped(first.operations + updates + 1, 0);
    lemma_wrapped(first.boundary_stores + opened + more, 0);
    lemma_wrapped(first.wide_stores + opened + more, 0);
}

proof fn lemma_next(block: BlockConfig, n: int, low: int)
    requires
        block.wf(),
        n >= 0,
        low == (n / block.block_size as int) % FIELD as int * FIELD + n % block.block_size as int,
    ensures
        ({
            let d = block.block_size as int;
            let last = n % d + 1 == d;
            &&& (n + 1) / d - n / d == (if last {
                1int
            } else {
                0int
            })
            &&& if last {
                &&& ((low / FIELD as int + 1) % FIELD as int) * FIELD == ((n + 1) / d)
                    % FIELD as int * FIELD + (n + 1) % d
                &&& block.pointer_after(n + 1) == block.pointer_after(n) + block.alignment
            } else {
                &&& low + 1 == ((n + 1) / d) % FIELD as int * FIELD + (n + 1) % d
                &&& block.pointer_after(n + 1) == block.pointer_after(n)
            }
        }),
{
    let d = block.block_size as int;
    lemma_step(n, d);
    let q = n / d;
    let a = block.alignment as int;
    assert((q + 1 + 1) * a == (q + 1) * a + a) by (nonlinear_arith);
}

proof fn lemma_offset(n: int, d: int)
    requires
        n >= 0,
        d > 0,
    ensures
        (n / d * (d + 1) + n % d) % (d + 1) == n % d,
        n % d < d,
{
    lemma_step(n, d);
    lemma_fundamental_div_mod_converse(n / d * (d + 1) + n % d, d + 1, n / d, n % d);
}

proof fn lemma_position_order(block: BlockConfig, a: int, b: int)
    requires
        block.wf(),
        0 <= a <= b,
    ensures
        block.position_after(a) <= block.position_after(b),
    decreases b - a,
{
    if a < b {
        lemma_position_order(block, a, b - 1);
        let d = block.block_size as int;
        lemma_step(b - 1, d);
        let q = (b - 1) / d;
        assert((q + 1) * (d + 1) == q * (d + 1) + (d + 1)) by (nonlinear_arith);
    }
}

/// Where the generation has not wrapped, the word is the one expected after
/// the updates, and where the pointer has not overflowed, so is the pointer.
pub proof fn law_counter_meets_expectation(counter: &Counter, block: BlockConfig)
    requires
        counter.in_blocks(block),
        counter.done() / block.block_size as int <= u32::MAX,
    ensures
        counter.low() == block.low_after(counter.done()),
        counter.layout() == CounterLayout::MixedU128U64 && block.pointer_after(counter.done())
            <= u64::MAX ==> counter.pointer() == block.pointer_after(counter.done()),
{
    lemma_step(counter.done(), block.block_size as int);
    let q = counter.done() / block.block_size as int;
    assert((q + 1) * block.alignment >= 0) by (nonlinear_arith)
        requires
            q >= 0,
            block.alignment >= 0,
    ;
}

} // verus!
