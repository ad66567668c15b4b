//! One thread's side of the counter: which access to the shared head comes
//! next, and what is made of its result.
use vstd::arithmetic::div_mod::lemma_mod_bound;
use vstd::prelude::*;

use crate::bench::blocks::{
    BenchmarkCase, BlockConfig, CounterLayout, UpdateMethod, FIELD, SEGQUEUE_INDEX_STEP,
};
use crate::bench::updates::{
    attempt, segqueue_attempt, wrapped, Attempt, CachedHead, UpdateStats,
};

verus! {

/// Where a thread stands in an update.
#[derive(Clone, Copy, Debug, PartialEq, Eq, Structural)]
pub enum Phase {
    /// About to look at the head for the first time.
    Starting,
    /// Between two updates.
    Idle,
    /// About to look at the word.
    Looking,
    /// About to look at the whole head, as the word shows a generation that is
    /// not the one remembered; `failed` if a failed exchange showed it.
    Checking { failed: bool },
    /// About to exchange the word that it saw.
    Exchanging { current: u64 },
    /// About to spin behind a failed exchange.
    Spinning { current: u64 },
    /// About to snooze until the next block is open.
    Snoozing,
    /// About to add to the word.
    Adding,
    /// Has added to the word, and is about to look at the whole head.
    Confirming { reserved: u64 },
    /// Has taken the last place of a block, and is about to open the next.
    Storing { current: u64 },
}

/// What a thread does with the head.
#[derive(Clone, Copy, Debug, PartialEq, Eq, Structural)]
pub enum Act {
    LoadWord,
    LoadWhole,
    Exchange { current: u64, new: u64 },
    Add,
    StoreWord { value: u64 },
    StoreWhole { whole: u128 },
    Spin,
    Snooze,
    /// Nothing: the update is over.
    Rest,
}

/// A thread that advances the counter.
#[derive(Clone, Copy, Debug, PartialEq, Eq, Structural)]
pub struct Updater {
    pub case: BenchmarkCase,
    pub block: BlockConfig,
    pub phase: Phase,
    pub cache: CachedHead,
    pub stats: UpdateStats,
}

/// One more, in 64 bits.
pub open spec fn one_more(n: u64) -> u64 {
    wrapped(n + 1) as u64
}

impl Updater {
    /// The words are positions in laps, not generations and indices.
    pub open spec fn in_laps(self) -> bool {
        self.case.method == UpdateMethod::SegQueue
    }

    /// The head has a pointer that goes with the generation.
    pub open spec fn has_pointer(self) -> bool {
        self.case.layout == CounterLayout::MixedU128U64 && !self.in_laps()
    }

    /// The place in its block that a word shows.
    pub open spec fn place(self, word: u64) -> int {
        if self.in_laps() {
            (word as int / 2) % (self.block.block_size + 1)
        } else {
            word as int % FIELD as int
        }
    }

    /// A word shows a block that is used up.
    pub open spec fn is_full(self, word: u64) -> bool {
        self.place(word) >= self.block.block_size
    }

    /// A word shows the last place of a block.
    pub open spec fn is_last(self, word: u64) -> bool {
        self.place(word) + 1 == self.block.block_size
    }

    /// The word behind the one whose place is taken.
    pub open spec fn word_behind(self, word: u64) -> u64 {
        wrapped(
            word + (if self.in_laps() {
                SEGQUEUE_INDEX_STEP as int
            } else {
                1int
            }),
        ) as u64
    }

    /// The first word of the block behind the one that a word is the last of.
    pub open spec fn next_block(self, word: u64) -> u64 {
        if self.in_laps() {
            self.word_behind(self.word_behind(word))
        } else {
            (((word / FIELD + 1) % FIELD as int) * FIELD) as u64
        }
    }

    /// The pointer of the block behind the one remembered.
    pub open spec fn next_pointer(self) -> u64 {
        wrapped(self.cache.pointer + self.block.alignment) as u64
    }

    /// The thread remembers the generation of a word.
    pub open spec fn remembering(self, word: u64) -> Updater {
        Updater {
            cache: CachedHead { generation: (word / FIELD) as u32, ..self.cache },
            ..self
        }
    }

    /// The thread knows a word, and what it does about it.
    pub open spec fn knowing(self, word: u64) -> Updater {
        if self.is_full(word) {
            Updater {
                phase: Phase::Snoozing,
                stats: UpdateStats {
                    boundary_waits: one_more(self.stats.boundary_waits),
                    ..self.stats
                },
                ..self
            }
        } else if self.case.method == UpdateMethod::Faa {
            Updater { phase: Phase::Adding, ..self }
        } else {
            Updater { phase: Phase::Exchanging { current: word }, ..self }
        }
    }

    /// The thread knows the word that made an exchange fail.
    pub open spec fn having_failed(self, word: u64) -> Updater {
        let counted = Updater {
            stats: UpdateStats {
                cas_failures: one_more(self.stats.cas_failures),
                ..self.stats
            },
            ..self
        };
        if self.case.method == UpdateMethod::Cas {
            counted.knowing(word)
        } else {
            Updater { phase: Phase::Spinning { current: word }, ..counted }
        }
    }

    /// The thread has finished an update.
    pub open spec fn finished(self) -> Updater {
        Updater {
            phase: Phase::Idle,
            stats: UpdateStats { operations: one_more(self.stats.operations), ..self.stats },
            ..self
        }
    }

    /// The thread has taken the place that a word shows.
    pub open spec fn having_taken(self, word: u64) -> Updater {
        if self.is_last(word) {
            Updater { phase: Phase::Storing { current: word }, ..self }
        } else {
            self.finished()
        }
    }

    /// The thread has added to a word: it has taken its place, if there was one.
    pub open spec fn having_added(self, word: u64) -> Updater {
        if self.is_full(word) {
            Updater {
                phase: Phase::Snoozing,
                stats: UpdateStats {
                    invalid_faa_reservations: one_more(self.stats.invalid_faa_reservations),
                    ..self.stats
                },
                ..self
            }
        } else {
            self.having_taken(word)
        }
    }

    /// The thread has begun an update.
    pub open spec fn begun(self) -> Updater {
        Updater { phase: Phase::Looking, ..self }
    }

    /// The thread has loaded the word.
    pub open spec fn with_word(self, word: u64) -> Updater {
        if self.phase == Phase::Starting {
            Updater { phase: Phase::Idle, ..self.remembering(word) }
        } else if self.in_laps() {
            self.knowing(word)
        } else if self.case.layout == CounterLayout::U64 {
            self.remembering(word).knowing(word)
        } else if word / FIELD == self.cache.generation {
            self.knowing(word)
        } else {
            Updater { phase: Phase::Checking { failed: false }, ..self }
        }
    }

    /// The thread has loaded the whole head.
    pub open spec fn with_whole(self, pointer: u64, word: u64) -> Updater {
        let seen = Updater {
            cache: CachedHead { generation: (word / FIELD) as u32, pointer },
            stats: UpdateStats { wide_loads: one_more(self.stats.wide_loads), ..self.stats },
            ..self
        };
        match self.phase {
            Phase::Checking { failed } => if failed {
                seen.having_failed(word)
            } else {
                seen.knowing(word)
            },
            Phase::Confirming { reserved } => seen.having_added(reserved),
            _ => Updater { phase: Phase::Idle, ..seen },
        }
    }

    /// The exchange of a word has succeeded.
    pub open spec fn with_exchange(self, current: u64) -> Updater {
        self.having_taken(current)
    }

    /// The exchange of a word has failed.
    pub open spec fn with_failure(self, actual: u64) -> Updater {
        if self.in_laps() {
            self.having_failed(actual)
        } else if self.case.layout == CounterLayout::U64 {
            self.remembering(actual).having_failed(actual)
        } else if actual / FIELD == self.cache.generation {
            self.having_failed(actual)
        } else {
            Updater { phase: Phase::Checking { failed: true }, ..self }
        }
    }

    /// The thread has added one to the word, which was `reserved`.
    pub open spec fn with_addition(self, reserved: u64) -> Updater {
        if reserved / FIELD == self.cache.generation {
            self.having_added(reserved)
        } else if self.case.layout == CounterLayout::U64 {
            self.remembering(reserved).having_added(reserved)
        } else {
            Updater { phase: Phase::Confirming { reserved }, ..self }
        }
    }

    /// The thread has spun or snoozed.
    pub open spec fn with_pause(self) -> Updater {
        match self.phase {
            Phase::Spinning { current } => self.knowing(current),
            _ => Updater { phase: Phase::Looking, ..self },
        }
    }

    /// The thread has opened a block that starts with a word.
    pub open spec fn with_store(self, word: u64) -> Updater {
        let cache = if self.in_laps() {
            self.cache
        } else {
            CachedHead {
                generation: (word / FIELD) as u32,
                pointer: if self.has_pointer() {
                    self.next_pointer()
                } else {
                    self.cache.pointer
                },
            }
        };
        let stats = UpdateStats {
            boundary_stores: one_more(self.stats.boundary_stores),
            wide_stores: if self.has_pointer() {
                one_more(self.stats.wide_stores)
            } else {
                self.stats.wide_stores
            },
            ..self.stats
        };
        (Updater { cache, stats, ..self }).finished()
    }

    /// A thread before its first look at the head.
    pub fn new(case: BenchmarkCase, block: BlockConfig) -> (updater: Updater)
        ensures
            updater.case == case,
            updater.block == block,
            updater.phase == Phase::Starting,
            updater.cache == (CachedHead { generation: 0, pointer: 0 }),
            updater.stats == UpdateStats::zero(),
    {
        Updater {
            case,
            block,
            phase: Phase::Starting,
            cache: CachedHead::new(),
            stats: UpdateStats::new(),
        }
    }

    /// What the thread does next.
    pub fn act(&self) -> (act: Act)
        ensures
            act == (match self.phase {
                Phase::Starting => if self.case.layout == CounterLayout::U64 {
                    Act::LoadWord
                } else {
                    Act::LoadWhole
                },
                Phase::Idle => Act::Rest,
                Phase::Looking => Act::LoadWord,
                Phase::Checking { failed } => Act::LoadWhole,
                Phase::Exchanging { current } => Act::Exchange {
                    current,
                    new: self.word_behind(current),
                },
                Phase::Spinning { current } => Act::Spin,
                Phase::Snoozing => Act::Snooze,
                Phase::Adding => Act::Add,
                Phase::Confirming { reserved } => Act::LoadWhole,
                Phase::Storing { current } => if self.has_pointer() {
                    Act::StoreWhole {
                        whole: (self.next_pointer() * 0x1_0000_0000_0000_0000 + self.next_block(
                            current,
                        )) as u128,
                    }
                } else {
                    Act::StoreWord { value: self.next_block(current) }
                },
            }),
    {
        match self.phase {
            Phase::Starting => match self.case.layout {
                CounterLayout::U64 => Act::LoadWord,
                CounterLayout::MixedU128U64 => Act::LoadWhole,
            },
            Phase::Idle => Act::Rest,
            Phase::Looking => Act::LoadWord,
            Phase::Checking { failed: _ } => Act::LoadWhole,
            Phase::Exchanging { current } => Act::Exchange { current, new: self.behind(current) },
            Phase::Spinning { current: _ } => Act::Spin,
            Phase::Snoozing => Act::Snooze,
            Phase::Adding => Act::Add,
            Phase::Confirming { reserved: _ } => Act::LoadWhole,
            Phase::Storing { current } => match (self.case.layout, self.case.method) {
                (_, UpdateMethod::SegQueue) => Act::StoreWord {
                    value: self.behind(self.behind(current)),
                },
                (CounterLayout::U64, _) => Act::StoreWord { value: self.block.next_low(current) },
                (CounterLayout::MixedU128U64, _) => Act::StoreWhole {
                    whole: self.block.pack_full(
                        self.cache.pointer.wrapping_add(self.block.alignment),
                        self.block.next_low(current),
                    ),
                },
            },
        }
    }

    fn behind(&self, word: u64) -> (next: u64)
        ensures
            next == self.word_behind(word),
    {
        match self.case.method {
            UpdateMethod::SegQueue => word.wrapping_add(SEGQUEUE_INDEX_STEP),
            _ => word.wrapping_add(1),
        }
    }

    fn attempt(&self, word: u64) -> (attempt: Attempt)
        ensures
            attempt == (if self.is_full(word) {
                Attempt::Wait
            } else {
                Attempt::Take { last: self.is_last(word) }
            }),
    {
        proof {
            lemma_mod_bound(word as int / 2, self.block.block_size + 1);
        }
        match self.case.method {
            UpdateMethod::SegQueue => segqueue_attempt(self.block, word),
            _ => attempt(self.block, word),
        }
    }

    fn know(&mut self, word: u64)
        ensures
            *final(self) == old(self).knowing(word),
    {
        match self.attempt(word) {
            Attempt::Wait => {
                self.stats.boundary_waits = self.stats.boundary_waits.wrapping_add(1);
                self.phase = Phase::Snoozing;
            },
            Attempt::Take { last: _ } => {
                self.phase = match self.case.method {
                    UpdateMethod::Faa => Phase::Adding,
                    _ => Phase::Exchanging { current: word },
                };
            },
        }
    }

    fn fail(&mut self, word: u64)
        ensures
            *final(self) == old(self).having_failed(word),
    {
        self.stats.cas_failures = self.stats.cas_failures.wrapping_add(1);
        match self.case.method {
            UpdateMethod::Cas => self.know(word),
            _ => {
                self.phase = Phase::Spinning { current: word };
            },
        }
    }

    fn finish(&mut self)
        ensures
            *final(self) == old(self).finished(),
    {
        self.stats.operations = self.stats.operations.wrapping_add(1);
        self.phase = Phase::Idle;
    }

    fn take(&mut self, word: u64, last: bool)
        requires
            last == old(self).is_last(word),
        ensures
            *final(self) == old(self).having_taken(word),
    {
        if last {
            self.phase = Phase::Storing { current: word };
        } else {
            self.finish();
        }
    }

    fn add(&mut self, word: u64)
        ensures
            *final(self) == old(self).having_added(word),
    {
        match self.attempt(word) {
            Attempt::Wait => {
                self.stats.invalid_faa_reservations =
                self.stats.invalid_faa_reservations.wrapping_add(1);
                self.phase = Phase::Snoozing;
            },
            Attempt::Take { last } => self.take(word, last),
        }
    }

    /// Begins an update.
    pub fn begin(&mut self)
        requires
            old(self).phase == Phase::Idle,
        ensures
            *final(self) == old(self).begun(),
    {
        self.phase = Phase::Looking;
    }

    /// Takes note of the word that was loaded.
    pub fn loaded_word(&mut self, word: u64)
        requires
            old(self).phase == Phase::Starting || old(self).phase == Phase::Looking,
        ensures
            *final(self) == old(self).with_word(word),
    {
        if self.phase == Phase::Starting {
            self.cache.generation = self.block.generation(word);
            self.phase = Phase::Idle;
            return;
        }
        match (self.case.layout, self.case.method) {
            (_, UpdateMethod::SegQueue) => self.know(word),
            (CounterLayout::U64, _) => {
                self.cache.generation = self.block.generation(word);
                self.know(word);
            },
            (CounterLayout::MixedU128U64, _) => {
                if self.block.generation(word) == self.cache.generation {
                    self.know(word);
                } else {
                    self.phase = Phase::Checking { failed: false };
                }
            },
        }
    }

    /// Takes note of the whole head that was loaded.
    pub fn loaded_whole(&mut self, whole: u128)
        requires
            old(self).phase is Starting || old(self).phase is Checking
                || old(self).phase is Confirming,
        ensures
            *final(self) == old(self).with_whole(
                (whole / 0x1_0000_0000_0000_0000) as u64,
                (whole % 0x1_0000_0000_0000_0000) as u64,
            ),
    {
        let word: u64 = (whole % 0x1_0000_0000_0000_0000) as u64;
        self.cache.generation = self.block.generation(word);
        self.cache.pointer = (whole / 0x1_0000_0000_0000_0000) as u64;
        self.stats.wide_loads = self.stats.wide_loads.wrapping_add(1);
        match self.phase {
            Phase::Checking { failed } => {
                if failed {
                    self.fail(word);
                } else {
                    self.know(word);
                }
            },
            Phase::Confirming { reserved } => self.add(reserved),
            _ => {
                self.phase = Phase::Idle;
            },
        }
    }

    /// Takes note of how an exchange went.
    pub fn exchanged(&mut self, result: Result<u64, u64>)
        requires
            old(self).phase is Exchanging,
        ensures
            *final(self) == (match result {
                Ok(_) => old(self).with_exchange(old(self).phase->Exchanging_current),
                Err(actual) => old(self).with_failure(actual),
            }),
    {
        match (self.phase, result) {
            (Phase::Exchanging { current }, Ok(_)) => {
                let last = self.attempt(current) == (Attempt::Take { last: true });
                self.take(current, last);
            },
            (_, Ok(_)) => {},
            (_, Err(actual)) => match (self.case.layout, self.case.method) {
                (_, UpdateMethod::SegQueue) => self.fail(actual),
                (CounterLayout::U64, _) => {
                    self.cache.generation = self.block.generation(actual);
                    self.fail(actual);
                },
                (CounterLayout::MixedU128U64, _) => {
                    if self.block.generation(actual) == self.cache.generation {
                        self.fail(actual);
                    } else {
                        self.phase = Phase::Checking { failed: true };
                    }
                },
            },
        }
    }

    /// Takes note of the word that one was added to.
    pub fn added(&mut self, reserved: u64)
        requires
            old(self).phase == Phase::Adding,
        ensures
            *final(self) == old(self).with_addition(reserved),
    {
        if self.block.generation(reserved) == self.cache.generation {
            self.add(reserved);
        } else {
            match self.case.layout {
                CounterLayout::U64 => {
                    self.cache.generation = self.block.generation(reserved);
                    self.add(reserved);
                },
                CounterLayout::MixedU128U64 => {
                    self.phase = Phase::Confirming { reserved };
                },
            }
        }
    }

    /// Goes on behind a pause.
    pub fn paused(&mut self)
        requires
            old(self).phase is Spinning || old(self).phase is Snoozing,
        ensures
            *final(self) == old(self).with_pause(),
    {
        match self.phase {
            Phase::Spinning { current } => self.know(current),
            _ => {
                self.phase = Phase::Looking;
            },
        }
    }

    /// Goes on behind the store that has opened a block.
    pub fn stored(&mut self)
        requires
            old(self).phase is Storing,
        ensures
            *final(self) == old(self).with_store(
                old(self).next_block(old(self).phase->Storing_current),
            ),
    {
        if let Phase::Storing { current } = self.phase {
            match (self.case.layout, self.case.method) {
                (_, UpdateMethod::SegQueue) => {},
                (CounterLayout::U64, _) => {
                    self.cache.generation = self.block.generation(self.block.next_low(current));
                },
                (CounterLayout::MixedU128U64, _) => {
                    self.cache.generation = self.block.generation(self.block.next_low(current));
                    self.cache.pointer = self.cache.pointer.wrapping_add(self.block.alignment);
                    self.stats.wide_stores = self.stats.wide_stores.wrapping_add(1);
                },
            }
        }
        self.stats.boundary_stores = self.stats.boundary_stores.wrapping_add(1);
        self.finish();
    }
}

} // verus!
