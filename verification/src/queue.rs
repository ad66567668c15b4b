//! An unbounded queue for many producers and many consumers.
//!
//! A producer reserves a run of positions by moving the packed producer head,
//! attaches blocks where the run crosses a block's end, and then writes its
//! slots. Consumers reserve runs below the producer head in the same way and
//! read them. A position whose producer had no value for it is skipped.
//!
//! Any number of producers may hold reservations that they have not written
//! yet, and any number of consumers claims that they have not read yet; their
//! steps may come in any order. A consumer that comes to a position before its
//! producer has to wait. A block whose slots have all been read is kept for
//! reuse if no other block is, and given back otherwise.
use std::sync::Arc;
use vstd::prelude::*;

use crate::kfifo::head::{zero_head, Head, HeadCodec};
use crate::page::is_power_of_two;
use crate::position::{
    lemma_position_injective, lemma_position_next, lemma_position_nonnegative,
    lemma_position_order, lemma_position_sum, position, span,
};
use crate::slot::{Slot, SKIP, WRITTEN, ZERO};

verus! {

/// One page of slots.
pub struct MpmcBlock<T> {
    slots: Vec<Slot<T>>,
    consumed: usize,
    next: Option<usize>,
    /// Which slots have been read.
    done: Ghost<Seq<bool>>,
}

/// Number of `true` entries.
pub open spec fn count(flags: Seq<bool>) -> nat
    decreases flags.len(),
{
    if flags.len() == 0 {
        0
    } else {
        count(flags.drop_last()) + (if flags.last() {
            1nat
        } else {
            0nat
        })
    }
}

pub proof fn lemma_count_set(flags: Seq<bool>, i: int)
    requires
        0 <= i < flags.len(),
        !flags[i],
    ensures
        count(flags.update(i, true)) == count(flags) + 1,
    decreases flags.len(),
{
    let after = flags.update(i, true);
    if i == flags.len() - 1 {
        assert(after.drop_last() =~= flags.drop_last());
    } else {
        assert(after.drop_last() =~= flags.drop_last().update(i, true));
        lemma_count_set(flags.drop_last(), i);
    }
}

pub proof fn lemma_count_bound(flags: Seq<bool>)
    ensures
        count(flags) <= flags.len(),
        count(flags) == flags.len() <==> forall|i: int| 0 <= i < flags.len() ==> flags[i],
        count(flags) == 0 <==> forall|i: int| 0 <= i < flags.len() ==> !flags[i],
    decreases flags.len(),
{
    if flags.len() > 0 {
        let rest = flags.drop_last();
        lemma_count_bound(rest);
        assert forall|i: int| 0 <= i < rest.len() implies rest[i] == flags[i] by {}
        assert(flags.last() == flags[flags.len() - 1]);
        if forall|i: int| 0 <= i < flags.len() ==> flags[i] {
            assert forall|i: int| 0 <= i < rest.len() implies rest[i] by {
                assert(flags[i]);
            }
        }
        if forall|i: int| 0 <= i < flags.len() ==> !flags[i] {
            assert forall|i: int| 0 <= i < rest.len() implies !rest[i] by {
                assert(!flags[i]);
            }
        }
        if count(rest) == rest.len() && flags.last() {
            assert forall|i: int| 0 <= i < flags.len() implies flags[i] by {
                if i < rest.len() {
                    assert(rest[i]);
                }
            }
        }
        if count(rest) == 0 && !flags.last() {
            assert forall|i: int| 0 <= i < flags.len() implies !flags[i] by {
                if i < rest.len() {
                    assert(!rest[i]);
                }
            }
        }
    }
}

/// Slots a push of `len` values needs beyond those that are attached: the rest
/// of the block it starts in and, where one is known, the successor. One slot
/// more than the values is asked for, so that a push that fills a block
/// exactly attaches the next one.
pub fn growth(len: usize, index: usize, has_next: bool, block_length: usize) -> (slots: usize)
    requires
        len < usize::MAX,
        index < block_length,
        2 * block_length <= usize::MAX,
    ensures
        slots == spec_growth(len as int, index as int, has_next, block_length as int),
{
    let attached: usize = block_length - index + if has_next {
        block_length
    } else {
        0
    };
    if len + 1 > attached {
        len + 1 - attached
    } else {
        0
    }
}

pub open spec fn spec_growth(len: int, index: int, has_next: bool, block_length: int) -> int {
    let attached = block_length - index + (if has_next {
        block_length
    } else {
        0
    });
    if len + 1 > attached {
        len + 1 - attached
    } else {
        0
    }
}

/// The history behind a queue's words and blocks.
pub struct Trace<T> {
    /// What was reserved so far, by position: a value, or nothing for a
    /// skipped position.
    pub log: Seq<Option<T>>,
    /// Reserved positions that have been neither written nor skipped yet.
    pub pending: Set<int>,
    /// Arena block used for each attached block number.
    pub ids: Seq<usize>,
    /// Block number held by each arena block, negative while detached.
    pub owner: Seq<int>,
    /// Block number and index of the consumer head.
    pub head_block: int,
    pub head_index: int,
    /// Whether the consumer head carries the successor hint.
    pub head_hint: bool,
    /// Block number and index of the producer head.
    pub tail_block: int,
    pub tail_index: int,
    /// Whether the producer head carries the successor hint.
    pub tail_hint: bool,
    /// Reserved positions that have not been read yet.
    pub claimed: Set<int>,
}

/// A lock-free style unbounded queue, driven one step at a time.
pub struct UBQ<T> {
    blocks: Vec<MpmcBlock<T>>,
    /// The position producers reserve next.
    phead: usize,
    /// The position consumers reserve next.
    chead: usize,
    /// A recycled block, to avoid repeated allocation.
    pool: Option<usize>,
    /// Arena blocks that were given back.
    spare: Vec<usize>,
    head_codec: HeadCodec,
    trace: Ghost<Trace<T>>,
}

/// Blocks that are owned by one push and not attached yet.
///
/// The block given last is the root; every block links to the one given
/// before it.
struct BlockChain {
    blocks: Vec<usize>,
}

/// Number of blocks of `length` slots that hold `size` values.
pub open spec fn blocks_holding(size: int, length: int) -> int {
    if size <= 0 {
        0
    } else {
        (size - 1) / length + 1
    }
}

/// Enough blocks, and not one too many.
pub proof fn law_blocks_holding(size: int, length: int)
    requires
        0 < length,
        0 < size,
    ensures
        blocks_holding(size, length) * length >= size,
        (blocks_holding(size, length) - 1) * length < size,
        blocks_holding(size, length) >= 1,
{
    let n = (size - 1) / length;
    vstd::arithmetic::div_mod::lemma_fundamental_div_mod(size - 1, length);
    vstd::arithmetic::div_mod::lemma_mod_bound(size - 1, length);
    assert((n + 1) * length == n * length + length && length * n == n * length)
        by (nonlinear_arith);
    assert(n >= 0) by {
        vstd::arithmetic::div_mod::lemma_div_pos_is_pos(size - 1, length);
    }
}

impl<T> Trace<T> {
    pub open spec fn head(&self, length: int) -> int {
        position(length, self.head_block, self.head_index)
    }

    pub open spec fn tail(&self, length: int) -> int {
        position(length, self.tail_block, self.tail_index)
    }

    /// A position that has not been read.
    pub open spec fn unread(&self, length: int, p: int) -> bool {
        p >= self.head(length) || self.claimed.contains(p)
    }

    /// Block number `k` is attached and not recycled.
    pub open spec fn live(&self, k: int) -> bool {
        &&& 0 <= k < self.ids.len()
        &&& 0 <= self.ids[k] < self.owner.len()
        &&& self.owner[self.ids[k] as int] == k
    }
}

/// The values among a run of positions, skipped ones left out.
pub open spec fn present<T>(run: Seq<Option<T>>) -> Seq<T>
    decreases run.len(),
{
    if run.len() == 0 {
        Seq::empty()
    } else {
        let rest = present(run.drop_first());
        match run.first() {
            Some(value) => seq![value] + rest,
            None => rest,
        }
    }
}

/// How many positions at the front of a run are skipped.
pub open spec fn lead<T>(run: Seq<Option<T>>) -> int
    decreases run.len(),
{
    if run.len() == 0 || run.first() is Some {
        0
    } else {
        1 + lead(run.drop_first())
    }
}

/// The first value comes right behind the skipped positions at the front, and
/// there is none where all are skipped.
pub proof fn law_the_first_value_follows_the_lead<T>(run: Seq<Option<T>>)
    ensures
        0 <= lead(run) <= run.len(),
        forall|i: int| 0 <= i < lead(run) ==> #[trigger] run[i] is None,
        lead(run) == run.len() <==> present(run).len() == 0,
        lead(run) < run.len() ==> {
            &&& run[lead(run)] == Some(present(run)[0])
            &&& present(run.skip(lead(run) + 1)) == present(run).skip(1)
        },
    decreases run.len(),
{
    if run.len() > 0 {
        let rest = run.drop_first();
        law_the_first_value_follows_the_lead(rest);
        match run.first() {
            Some(value) => {
                assert(run.skip(1) =~= rest);
                assert((seq![value] + present(rest)).skip(1) =~= present(rest));
            },
            None => {
                assert forall|i: int| 0 <= i < lead(run) implies #[trigger] run[i] is None by {
                    if i > 0 {
                        assert(rest[i - 1] == run[i]);
                    }
                }
                if lead(run) < run.len() {
                    assert(rest[lead(rest)] == run[lead(run)]);
                    assert(rest.skip(lead(rest) + 1) =~= run.skip(lead(run) + 1));
                }
            },
        }
    }
}

/// What waits when a batch is pushed comes out first, and then the batch comes
/// out in its order.
pub proof fn law_batches_come_out_in_order<T>(waiting: Seq<Option<T>>, items: Seq<T>)
    ensures
        present(waiting + items.map_values(|value: T| Some(value))) == present(waiting) + items,
    decreases waiting.len(), items.len(),
{
    let more = items.map_values(|value: T| Some(value));
    let all = waiting + more;
    if waiting.len() > 0 {
        let rest = waiting.drop_first();
        law_batches_come_out_in_order(rest, items);
        assert(all.drop_first() =~= rest + more);
        assert(all.first() == waiting.first());
        match waiting.first() {
            Some(value) => {
                assert(seq![value] + (present(rest) + items) =~= (seq![value] + present(rest))
                    + items);
            },
            None => {},
        }
    } else if items.len() > 0 {
        let rest = items.drop_first();
        law_batches_come_out_in_order(waiting, rest);
        assert(waiting + rest.map_values(|value: T| Some(value)) =~= all.drop_first());
        assert(all.first() == Some(items.first()));
        assert(present(waiting) =~= Seq::<T>::empty());
        assert(seq![items.first()] + rest =~= items);
        assert(Seq::<T>::empty() + rest =~= rest);
        assert(Seq::<T>::empty() + items =~= items);
    } else {
        assert(all =~= Seq::<Option<T>>::empty());
        assert(present(waiting) + items =~= Seq::<T>::empty());
    }
}

/// The number of positions that a push can announce.
pub open spec fn capped(len: usize) -> int {
    if len == usize::MAX {
        len - 1
    } else {
        len as int
    }
}

/// The items with the last one first.
pub(crate) fn reversed<T>(items: Vec<T>) -> (rest: Vec<T>)
    ensures
        rest@ == items@.reverse(),
{
    let mut items = items;
    let ghost all = items@;
    let mut rest: Vec<T> = Vec::new();
    while items.len() > 0
        invariant
            items@.len() <= all.len(),
            items@ == all.take(items@.len() as int),
            rest@ == all.skip(items@.len() as int).reverse(),
        decreases items@.len(),
    {
        let ghost n = items@.len() as int;
        let item = items.pop();
        if let Some(item) = item {
            rest.push(item);
        }
        proof {
            assert(items@ =~= all.take(n - 1));
            assert(rest@ =~= all.skip(n - 1).reverse());
        }
    }
    assert(all.skip(0) =~= all);
    rest
}

/// What a push of `items` that announced `len` values reserves.
pub open spec fn announced<T>(items: Seq<T>, len: int) -> Seq<Option<T>> {
    Seq::new(
        len as nat,
        |i: int|
            if i < items.len() {
                Some(items[i])
            } else {
                None
            },
    )
}

impl<T> UBQ<T> {
    pub closed spec fn codec(&self) -> HeadCodec {
        self.head_codec
    }

    pub open spec fn length(&self) -> int {
        self.codec().length() as int
    }

    pub closed spec fn trace(&self) -> Trace<T> {
        self.trace@
    }

    /// Arena blocks allocated so far.
    pub closed spec fn allocated(&self) -> nat {
        self.blocks@.len()
    }

    /// Position of the consumer head.
    pub open spec fn head(&self) -> int {
        self.trace().head(self.length())
    }

    /// Position of the producer head.
    pub open spec fn tail(&self) -> int {
        self.trace().tail(self.length())
    }

    /// Positions that no consumer has reserved, oldest first.
    pub open spec fn waiting(&self) -> Seq<Option<T>> {
        self.trace().log.subrange(self.head(), self.tail())
    }

    /// Arena block `id` is in the state of a new block.
    spec fn blank(&self, id: int) -> bool {
        let b = self.blocks@[id];
        &&& b.slots@.len() == self.length()
        &&& b.consumed == 0
        &&& b.done@.len() == self.length()
        &&& forall|i: int| 0 <= i < self.length() ==> (#[trigger] b.slots@[i]).fresh()
        &&& forall|i: int| 0 <= i < self.length() ==> !#[trigger] b.done@[i]
    }

    spec fn slot_wf(&self, k: int, i: int) -> bool {
        let t = self.trace@;
        let b = self.blocks@[t.ids[k] as int];
        let p = position(self.length(), k, i);
        let slot = b.slots@[i];
        &&& b.done@[i] == !t.unread(self.length(), p)
        &&& if p >= t.log.len() || t.pending.contains(p) {
            slot.fresh()
        } else {
            match t.log[p] {
                Some(value) => {
                    &&& slot.status() == WRITTEN
                    &&& slot.content() == (if t.unread(self.length(), p) {
                        Some(value)
                    } else {
                        None
                    })
                },
                None => slot.status() == SKIP && slot.content() is None,
            }
        }
    }

    spec fn block_wf(&self, k: int) -> bool {
        let t = self.trace@;
        let b = self.blocks@[t.ids[k] as int];
        &&& b.slots@.len() == self.length()
        &&& b.done@.len() == self.length()
        &&& b.consumed == count(b.done@)
        &&& b.consumed < self.length()
        &&& b.next == (if k < t.ids.len() - 1 {
            Some(t.ids[k + 1])
        } else {
            None::<usize>
        })
        &&& forall|i: int| 0 <= i < self.length() ==> #[trigger] self.slot_wf(k, i)
    }

    /// Detached blocks, apart from those in `chain`, are the pooled one and
    /// the spare ones, and all detached blocks are blank.
    spec fn arena_wf(&self, chain: Seq<usize>) -> bool {
        let t = self.trace@;
        &&& self.blocks@.len() == t.owner.len()
        &&& t.owner.len() <= usize::MAX >> self.head_codec.bits()
        &&& forall|id: int|
            0 <= id < t.owner.len() ==> #[trigger] t.owner[id] < 0 || (t.owner[id] < t.ids.len()
                && t.ids[t.owner[id]] == id)
        &&& self.detached(chain).no_duplicates()
        &&& forall|j: int|
            0 <= j < self.detached(chain).len() ==> (#[trigger] self.detached(chain)[j])
                < t.owner.len() && t.owner[self.detached(chain)[j] as int] < 0 && self.blank(
                self.detached(chain)[j] as int,
            )
    }

    spec fn detached(&self, chain: Seq<usize>) -> Seq<usize> {
        chain + self.spare@ + (match self.pool {
            Some(id) => seq![id],
            None => Seq::<usize>::empty(),
        })
    }

    pub closed spec fn consumer_head(&self) -> Head {
        Head {
            block: self.head_codec.address(self.trace@.ids[self.trace@.head_block] as int),
            index: self.trace@.head_index as usize,
            has_next: self.trace@.head_hint,
        }
    }

    pub closed spec fn producer_head(&self) -> Head {
        Head {
            block: self.head_codec.address(self.trace@.ids[self.trace@.tail_block] as int),
            index: self.trace@.tail_index as usize,
            has_next: self.trace@.tail_hint,
        }
    }

    spec fn heads_wf(&self) -> bool {
        let t = self.trace@;
        let l = self.length();
        &&& t.log.len() == self.tail()
        &&& forall|p: int| #[trigger]
            t.pending.contains(p) ==> 0 <= p < t.log.len() && t.unread(l, p)
        &&& if t.ids.len() == 0 {
            &&& self.chead == 0
            &&& self.phead == 0
            &&& t.log.len() == 0
            &&& t.head_block == 0 && t.head_index == 0 && !t.head_hint
            &&& t.tail_block == 0 && t.tail_index == 0 && !t.tail_hint
            &&& t.claimed =~= Set::empty()
        } else {
            &&& 0 <= t.head_block <= t.tail_block < t.ids.len()
            &&& 0 <= t.head_index < l
            &&& 0 <= t.tail_index < l
            &&& 0 <= self.head() <= t.log.len()
            &&& self.chead == self.head_codec.encode(self.consumer_head())
            &&& self.phead == self.head_codec.encode(self.producer_head())
            &&& t.head_hint ==> self.head_codec.hint_encoded() && t.head_block < t.tail_block
            &&& t.tail_hint ==> self.head_codec.hint_encoded() && t.tail_block < t.ids.len() - 1
            &&& forall|p: int| #[trigger] t.claimed.contains(p) ==> 0 <= p < self.head()
        }
    }

    spec fn chain_wf(&self) -> bool {
        let t = self.trace@;
        &&& forall|k: int| 0 <= k < t.ids.len() ==> (#[trigger] t.ids[k]) < t.owner.len()
        &&& forall|k: int| t.head_block <= k < t.ids.len() ==> #[trigger] t.live(k)
        &&& forall|k: int, i: int|
            0 <= k < t.ids.len() && 0 <= i < self.length() && t.claimed.contains(
                #[trigger] position(self.length(), k, i),
            ) ==> t.live(k)
        &&& forall|k: int| #[trigger] t.live(k) ==> self.block_wf(k)
    }

    spec fn inv(&self, chain: Seq<usize>) -> bool {
        &&& self.head_codec.wf()
        &&& self.arena_wf(chain)
        &&& self.heads_wf()
        &&& self.chain_wf()
    }

    /// The queue agrees with its history.
    pub closed spec fn wf(&self) -> bool {
        self.inv(Seq::empty())
    }

    /// No position is reserved and not written yet.
    pub open spec fn quiet(&self) -> bool {
        self.trace().pending == Set::<int>::empty()
    }

    /// Every position up to the first value is written or skipped.
    pub open spec fn front_settled(&self) -> bool {
        forall|p: int|
            self.head() <= p <= self.head() + lead(self.waiting()) && p < self.tail()
                ==> !#[trigger] self.trace().pending.contains(p)
    }

    /// Every position that waits is skipped.
    pub open spec fn holds_nothing(&self) -> bool {
        forall|p: int|
            self.head() <= p < self.tail() ==> {
                &&& #[trigger] self.trace().log[p] is None
                &&& !self.trace().pending.contains(p)
            }
    }

    /// This state can come after `before`: positions and blocks are only added,
    /// what was written stays written, what was claimed stays claimed until it
    /// is read, and what was read is never claimed again.
    pub open spec fn follows(&self, before: &Self) -> bool {
        let t = before.trace();
        let u = self.trace();
        &&& self.codec() == before.codec()
        &&& t.log.is_prefix_of(u.log)
        &&& t.ids.is_prefix_of(u.ids)
        &&& before.head() <= self.head()
        &&& forall|p: int|
            0 <= p < t.log.len() && !t.pending.contains(p) ==> !#[trigger] u.pending.contains(p)
        &&& forall|p: int|
            p < before.head() && !t.claimed.contains(p) ==> !#[trigger] u.claimed.contains(p)
    }

    /// Creates a new, empty queue to be shared.
    pub fn new_arc(page_size: usize, block_length: usize) -> (queue: Arc<Self>)
        requires
            is_power_of_two(page_size),
            0 < block_length < page_size,
        ensures
            queue.wf(),
            queue.length() == block_length,
            1usize << queue.codec().bits() == page_size,
            queue.codec().limit() == usize::MAX / page_size,
            queue.waiting() == Seq::<Option<T>>::empty(),
            queue.trace().log == Seq::<Option<T>>::empty(),
            queue.trace().claimed == Set::<int>::empty(),
            queue.quiet(),
            queue.allocated() == 0,
    {
        Arc::new(Self::new(page_size, block_length))
    }

    /// Creates a new, empty queue. No block is allocated before the first push.
    pub fn new(page_size: usize, block_length: usize) -> (queue: Self)
        requires
            is_power_of_two(page_size),
            0 < block_length < page_size,
        ensures
            queue.wf(),
            queue.length() == block_length,
            1usize << queue.codec().bits() == page_size,
            queue.codec().limit() == usize::MAX / page_size,
            queue.waiting() == Seq::<Option<T>>::empty(),
            queue.trace().log == Seq::<Option<T>>::empty(),
            queue.trace().claimed == Set::<int>::empty(),
            queue.quiet(),
            queue.allocated() == 0,
    {
        let queue = UBQ {
            blocks: Vec::new(),
            phead: 0,
            chead: 0,
            pool: None,
            spare: Vec::new(),
            head_codec: HeadCodec::new(page_size, block_length),
            trace: Ghost(
                Trace {
                    log: Seq::empty(),
                    pending: Set::empty(),
                    ids: Seq::empty(),
                    owner: Seq::empty(),
                    head_block: 0,
                    head_index: 0,
                    head_hint: false,
                    tail_block: 0,
                    tail_index: 0,
                    tail_hint: false,
                    claimed: Set::empty(),
                },
            ),
        };
        proof {
            assert(position(queue.length(), 0, 0) == 0) by (nonlinear_arith);
            assert(queue.waiting() =~= Seq::<Option<T>>::empty());
        }
        queue
    }

    /// Number of slots in each block.
    pub fn block_length(&self) -> (length: usize)
        ensures
            length == self.length(),
    {
        self.head_codec.block_length()
    }

    /// Every block of a chain links to the one given before it.
    spec fn linked(&self, chain: Seq<usize>) -> bool {
        forall|j: int|
            0 <= j < chain.len() ==> self.blocks@[#[trigger] chain[j] as int].next == (if j == 0 {
                None
            } else {
                Some(chain[j - 1])
            })
    }

    /// The blocks that can still be given an address.
    pub open spec fn room(&self, blocks: int) -> bool {
        blocks > 0 ==> self.codec().addressable(self.allocated() + blocks - 1)
    }

    /// Only detached blocks changed.
    spec fn same_queue(&self, before: &Self) -> bool {
        let t = before.trace@;
        let u = self.trace@;
        &&& self.head_codec == before.head_codec
        &&& self.phead == before.phead
        &&& self.chead == before.chead
        &&& u == (Trace { owner: u.owner, ..t })
        &&& t.owner.is_prefix_of(u.owner)
        &&& self.blocks@.len() >= before.blocks@.len()
        &&& forall|id: int|
            0 <= id < t.owner.len() && t.owner[id] >= 0 ==> #[trigger] self.blocks@[id]
                == before.blocks@[id]
        &&& forall|id: int| t.owner.len() <= id < u.owner.len() ==> #[trigger] u.owner[id] < 0
    }

    /// Changes to detached blocks do not touch the attached ones.
    proof fn lemma_same_queue(&self, before: &Self, old_chain: Seq<usize>, chain: Seq<usize>)
        requires
            before.inv(old_chain),
            self.same_queue(before),
            self.arena_wf(chain),
        ensures
            self.inv(chain),
    {
        let t = before.trace@;
        let u = self.trace@;
        assert forall|k: int| #[trigger] u.live(k) == t.live(k) by {
            if 0 <= k < t.ids.len() {
                assert(t.ids[k] < t.owner.len());
                assert(u.owner[t.ids[k] as int] == t.owner[t.ids[k] as int]);
            }
        }
        assert forall|k: int| u.head_block <= k < u.ids.len() implies #[trigger] u.live(k) by {
            assert(t.live(k));
        }
        assert forall|k: int, i: int|
            0 <= k < u.ids.len() && 0 <= i < self.length() && u.claimed.contains(
                #[trigger] position(self.length(), k, i),
            ) implies u.live(k) by {
            assert(t.live(k));
        }
        assert forall|k: int| #[trigger] u.live(k) implies self.block_wf(k) by {
            assert(t.live(k));
            assert(before.block_wf(k));
            assert(self.blocks@[t.ids[k] as int] == before.blocks@[t.ids[k] as int]);
            assert forall|i: int| 0 <= i < self.length() implies #[trigger] self.slot_wf(k, i) by {
                assert(before.slot_wf(k, i));
            }
        }
    }

    /// Adds one detached block to a chain, a spare one if there is any.
    fn give_new(&mut self, chain: &mut BlockChain)
        requires
            old(self).inv(old(chain).blocks@),
            old(self).linked(old(chain).blocks@),
            old(self).room(1),
        ensures
            final(self).inv(final(chain).blocks@),
            final(self).linked(final(chain).blocks@),
            final(self).same_queue(old(self)),
            final(self).pool == old(self).pool,
            final(self).blocks@.len() <= old(self).blocks@.len() + 1,
            final(chain).blocks@.len() == old(chain).blocks@.len() + 1,
            final(chain).blocks@.drop_last() == old(chain).blocks@,
    {
        let ghost before = chain.blocks@;
        let ghost gone = old(self).detached(before);
        match self.spare.pop() {
            Some(id) => {
                proof {
                    let n = before.len() + old(self).spare@.len() - 1;
                    assert(self.detached(before) =~= gone.remove(n));
                    self.lemma_arena_without(old(self), before, before, n);
                }
                self.give(chain, id);
            },
            None => {
                let id: usize = self.new_block(Ghost(before));
                self.give(chain, id);
            },
        }
        proof {
            assert(chain.blocks@.drop_last() =~= before);
            self.lemma_same_queue(old(self), before, chain.blocks@);
        }
    }

    /// Extends the arena by one blank block.
    fn new_block(&mut self, chain: Ghost<Seq<usize>>) -> (id: usize)
        requires
            old(self).head_codec.wf(),
            old(self).arena_wf(chain@),
            old(self).linked(chain@),
            old(self).room(1),
        ensures
            final(self).arena_wf(chain@),
            final(self).linked(chain@),
            final(self).same_queue(old(self)),
            final(self).pool == old(self).pool,
            final(self).spare == old(self).spare,
            id == old(self).blocks@.len(),
            final(self).blocks@.len() == old(self).blocks@.len() + 1,
            final(self).trace@.owner[id as int] < 0,
            final(self).blank(id as int),
            !final(self).detached(chain@).contains(id),
    {
        let length: usize = self.head_codec.block_length();
        let mut slots: Vec<Slot<T>> = Vec::new();
        let mut filled: usize = 0;
        while filled < length
            invariant
                filled <= length,
                slots@.len() == filled,
                forall|i: int| 0 <= i < filled ==> (#[trigger] slots@[i]).fresh(),
            decreases length - filled,
        {
            slots.push(Slot::new());
            filled = filled + 1;
        }
        let id: usize = self.blocks.len();
        self.blocks.push(
            MpmcBlock {
                slots,
                consumed: 0,
                next: None,
                done: Ghost(Seq::new(length as nat, |i: int| false)),
            },
        );
        self.trace = Ghost(Trace { owner: self.trace@.owner.push(-1), ..self.trace@ });
        proof {
            let gone = old(self).detached(chain@);
            assert(self.detached(chain@) =~= gone);
            assert forall|j: int| 0 <= j < gone.len() implies (#[trigger] gone[j])
                < self.trace@.owner.len() && self.trace@.owner[gone[j] as int] < 0 && self.blank(
                gone[j] as int,
            ) && gone[j] != id by {
                assert(old(self).blank(gone[j] as int));
            }
            assert forall|j: int|
                0 <= j < chain@.len() implies self.blocks@[#[trigger] chain@[j] as int] == old(
                self,
            ).blocks@[chain@[j] as int] by {
                assert(gone[j] == chain@[j]);
            }
        }
        id
    }

    /// Taking one block out of the detached ones.
    proof fn lemma_arena_without(
        &self,
        before: &Self,
        old_chain: Seq<usize>,
        chain: Seq<usize>,
        n: int,
    )
        requires
            before.arena_wf(old_chain),
            self.blocks@ == before.blocks@,
            self.trace@ == before.trace@,
            self.head_codec == before.head_codec,
            0 <= n < before.detached(old_chain).len(),
            self.detached(chain) == before.detached(old_chain).remove(n),
        ensures
            self.arena_wf(chain),
            ({
                let id = before.detached(old_chain)[n];
                &&& id < self.blocks@.len()
                &&& self.trace@.owner[id as int] < 0
                &&& self.blank(id as int)
                &&& !self.detached(chain).contains(id)
            }),
    {
        let gone = before.detached(old_chain);
        let now = self.detached(chain);
        assert forall|j: int| 0 <= j < now.len() implies now[j] == (if j < n {
            gone[j]
        } else {
            gone[j + 1]
        }) by {}
        assert(before.blank(gone[n] as int));
        assert forall|j: int| 0 <= j < now.len() implies (#[trigger] now[j])
            < self.trace@.owner.len() && self.trace@.owner[now[j] as int] < 0 && self.blank(
            now[j] as int,
        ) by {
            if j < n {
                assert(before.blank(gone[j] as int));
            } else {
                assert(before.blank(gone[j + 1] as int));
            }
        }
    }

    /// Puts a detached block that nothing else holds on top of a chain.
    fn give(&mut self, chain: &mut BlockChain, id: usize)
        requires
            old(self).head_codec.wf(),
            old(self).arena_wf(old(chain).blocks@),
            old(self).linked(old(chain).blocks@),
            id < old(self).blocks@.len(),
            old(self).trace@.owner[id as int] < 0,
            old(self).blank(id as int),
            !old(self).detached(old(chain).blocks@).contains(id),
        ensures
            final(self).arena_wf(final(chain).blocks@),
            final(self).linked(final(chain).blocks@),
            final(self).head_codec == old(self).head_codec,
            final(self).phead == old(self).phead,
            final(self).chead == old(self).chead,
            final(self).pool == old(self).pool,
            final(self).spare == old(self).spare,
            final(self).trace == old(self).trace,
            final(self).blocks@.len() == old(self).blocks@.len(),
            forall|other: int|
                0 <= other < old(self).blocks@.len() && other != id
                    ==> #[trigger] final(self).blocks@[other] == old(self).blocks@[other],
            final(chain).blocks@ == old(chain).blocks@.push(id),
    {
        let ghost before = chain.blocks@;
        let count: usize = chain.blocks.len();
        self.blocks[id].next = if count == 0 {
            None
        } else {
            Some(chain.blocks[count - 1])
        };
        chain.blocks.push(id);
        proof {
            let after = chain.blocks@;
            let gone = old(self).detached(before);
            let now = self.detached(after);
            assert forall|j: int| 0 <= j < now.len() implies now[j] == (if j < before.len() {
                gone[j]
            } else if j == before.len() {
                id
            } else {
                gone[j - 1]
            }) by {}
            assert forall|j: int| 0 <= j < now.len() implies (#[trigger] now[j])
                < self.trace@.owner.len() && self.trace@.owner[now[j] as int] < 0 && self.blank(
                now[j] as int,
            ) by {
                if j < before.len() {
                    assert(old(self).blank(gone[j] as int));
                } else if j > before.len() {
                    assert(old(self).blank(gone[j - 1] as int));
                }
            }
            assert(now.no_duplicates()) by {
                assert forall|i: int, j: int|
                    0 <= i < now.len() && 0 <= j < now.len() && i != j implies now[i] != now[j] by {
                    assert(forall|x: int| 0 <= x < gone.len() ==> gone[x] != id);
                }
            }
            assert forall|j: int| 0 <= j < after.len() implies self.blocks@[#[trigger] after[j] as int].next
                == (if j == 0 {
                None
            } else {
                Some(after[j - 1])
            }) by {
                if j < before.len() {
                    assert(after[j] == before[j]);
                    assert(gone[j] == before[j]);
                    assert(gone.contains(before[j]));
                }
            }
        }
    }

    /// Makes a chain hold at least `size` values: first with the pooled block,
    /// then with new ones.
    fn grow_to_fit_with(&mut self, chain: &mut BlockChain, size: usize)
        requires
            old(self).inv(old(chain).blocks@),
            old(self).linked(old(chain).blocks@),
            old(self).room(
                blocks_holding(size as int, old(self).length()) - old(chain).blocks@.len(),
            ),
        ensures
            final(self).inv(final(chain).blocks@),
            final(self).linked(final(chain).blocks@),
            final(self).same_queue(old(self)),
            old(chain).blocks@.is_prefix_of(final(chain).blocks@),
            final(chain).blocks@.len() == (if old(chain).blocks@.len() < blocks_holding(
                size as int,
                old(self).length(),
            ) {
                blocks_holding(size as int, old(self).length())
            } else {
                old(chain).blocks@.len() as int
            }),
            final(self).blocks@.len() - old(self).blocks@.len() <= final(chain).blocks@.len()
                - old(chain).blocks@.len(),
    {
        proof {
            self.head_codec.lemma_length();
            if size > 0 {
                law_blocks_holding(size as int, self.length());
            }
            vstd::arithmetic::div_mod::lemma_div_is_ordered_by_denominator(
                size as int,
                1,
                self.length(),
            );
        }
        let length: usize = self.head_codec.block_length();
        if size == 0 {
            return;
        }
        let last: usize = (size - 1) / length;
        if chain.blocks.len() <= last {
            if let Some(id) = self.pool.take() {
                let ghost before = chain.blocks@;
                proof {
                    let gone = old(self).detached(before);
                    assert(self.detached(before) =~= gone.remove(gone.len() - 1));
                    self.lemma_arena_without(old(self), before, before, gone.len() - 1);
                }
                self.give(chain, id);
                proof {
                    self.lemma_same_queue(old(self), before, chain.blocks@);
                }
            }
        }
        while chain.blocks.len() <= last
            invariant
                self.inv(chain.blocks@),
                self.linked(chain.blocks@),
                self.same_queue(old(self)),
                old(chain).blocks@.is_prefix_of(chain.blocks@),
                last + 1 == blocks_holding(size as int, old(self).length()),
                chain.blocks@.len() <= last + 1 || chain.blocks@.len() == old(chain).blocks@.len(),
                old(self).room(last + 1 - old(chain).blocks@.len()),
                self.blocks@.len() - old(self).blocks@.len() <= chain.blocks@.len() - old(
                    chain,
                ).blocks@.len(),
            decreases last + 1 - chain.blocks@.len(),
        {
            let ghost before = *self;
            self.give_new(chain);
            proof {
                assert forall|id: int|
                    0 <= id < old(self).trace@.owner.len() && old(self).trace@.owner[id]
                        >= 0 implies #[trigger] self.blocks@[id] == old(self).blocks@[id] by {
                    assert(before.trace@.owner[id] == old(self).trace@.owner[id]);
                    assert(before.blocks@[id] == old(self).blocks@[id]);
                }
                assert forall|id: int|
                    old(self).trace@.owner.len() <= id
                        < self.trace@.owner.len() implies #[trigger] self.trace@.owner[id] < 0 by {
                    if id < before.trace@.owner.len() {
                        assert(before.trace@.owner[id] < 0);
                        assert(self.trace@.owner[id] == before.trace@.owner[id]);
                    }
                }
            }
        }
    }

    /// Gives the blocks of a chain that was not used back.
    fn release(&mut self, chain: &mut BlockChain)
        requires
            old(self).inv(old(chain).blocks@),
        ensures
            final(self).inv(Seq::empty()),
            final(chain).blocks@ == Seq::<usize>::empty(),
            final(self).trace == old(self).trace,
            final(self).blocks == old(self).blocks,
            final(self).phead == old(self).phead,
            final(self).chead == old(self).chead,
            final(self).head_codec == old(self).head_codec,
    {
        while chain.blocks.len() > 0
            invariant
                self.inv(chain.blocks@),
                self.trace == old(self).trace,
                self.blocks == old(self).blocks,
                self.phead == old(self).phead,
                self.chead == old(self).chead,
                self.head_codec == old(self).head_codec,
            decreases chain.blocks@.len(),
        {
            let ghost before = *self;
            let ghost old_chain = chain.blocks@;
            if let Some(id) = chain.blocks.pop() {
                self.spare.push(id);
                proof {
                    let gone = before.detached(old_chain);
                    let now = self.detached(chain.blocks@);
                    let n = chain.blocks@.len();
                    let m = n + before.spare@.len();
                    assert forall|j: int| 0 <= j < now.len() implies now[j] == (if j < n {
                        gone[j]
                    } else if j < m {
                        gone[j + 1]
                    } else if j == m {
                        gone[n as int]
                    } else {
                        gone[j]
                    }) by {}
                    assert(now.no_duplicates());
                    assert forall|j: int| 0 <= j < now.len() implies (#[trigger] now[j])
                        < self.trace@.owner.len() && self.trace@.owner[now[j] as int] < 0
                        && self.blank(now[j] as int) by {
                        let x = if j < n {
                            j
                        } else if j < m {
                            j + 1
                        } else if j == m {
                            n as int
                        } else {
                            j
                        };
                        assert(gone[x] == now[j]);
                        assert(before.blank(gone[x] as int));
                    }
                    assert(self.arena_wf(chain.blocks@));
                    self.lemma_same_queue(&before, old_chain, chain.blocks@);
                }
            }
        }
        assert(chain.blocks@ =~= Seq::<usize>::empty());
    }

    /// A chain in the order in which its blocks are linked.
    spec fn in_order(chain: Seq<usize>) -> Seq<usize> {
        Seq::new(chain.len(), |j: int| chain[chain.len() - 1 - j])
    }

    /// Arena owners after the blocks of `chain` were attached.
    spec fn attached_owner(&self, chain: Seq<usize>) -> Seq<int> {
        let t = self.trace@;
        Seq::new(
            t.owner.len(),
            |id: int|
                if chain.contains(id as usize) {
                    t.ids.len() + (chain.len() - 1 - chain.index_of(id as usize))
                } else {
                    t.owner[id]
                },
        )
    }

    /// `after` is this queue with `chain` attached behind the last block, or
    /// as the first blocks.
    spec fn attaches(&self, after: &Self, chain: Seq<usize>) -> bool {
        &&& chain.len() > 0
        &&& after.head_codec == self.head_codec
        &&& after.pool == self.pool
        &&& after.spare == self.spare
        &&& after.trace@ == (Trace {
            ids: self.trace@.ids + Self::in_order(chain),
            owner: self.attached_owner(chain),
            ..self.trace@
        })
        &&& after.blocks@.len() == self.blocks@.len()
        &&& if self.trace@.ids.len() > 0 {
            let last = self.trace@.ids[self.trace@.ids.len() - 1] as int;
            let b = self.blocks@[last];
            let c = after.blocks@[last];
            &&& c.next == Some(chain.last())
            &&& c.slots == b.slots
            &&& c.consumed == b.consumed
            &&& c.done == b.done
            &&& after.phead == self.phead
            &&& after.chead == self.chead
        } else {
            &&& after.phead == after.head_codec.encode(after.producer_head())
            &&& after.chead == after.head_codec.encode(after.consumer_head())
        }
        &&& forall|id: int|
            0 <= id < self.blocks@.len() && !(self.trace@.ids.len() > 0 && id
                == self.trace@.ids[self.trace@.ids.len() - 1]) ==> #[trigger] after.blocks@[id]
                == self.blocks@[id]
    }

    /// The blocks of a chain are detached and get consecutive numbers.
    proof fn lemma_attach_chain(&self, after: &Self, chain: Seq<usize>)
        requires
            self.arena_wf(chain),
            self.attaches(after, chain),
        ensures
            forall|j: int|
                0 <= j < chain.len() ==> (#[trigger] chain[j]) < self.trace@.owner.len()
                    && self.trace@.owner[chain[j] as int] < 0 && self.blank(chain[j] as int)
                    && after.trace@.owner[chain[j] as int] == self.trace@.ids.len() + (chain.len()
                    - 1 - j),
            forall|id: usize|
                id < self.trace@.owner.len() && !chain.contains(id)
                    ==> #[trigger] after.trace@.owner[id as int] == self.trace@.owner[id as int],
            forall|k: int|
                0 <= k < self.trace@.ids.len() ==> #[trigger] after.trace@.ids[k]
                    == self.trace@.ids[k],
            forall|k: int|
                self.trace@.ids.len() <= k < after.trace@.ids.len()
                    ==> #[trigger] after.trace@.ids[k] == chain[chain.len() - 1 - (k
                    - self.trace@.ids.len())],
            after.trace@.ids.len() == self.trace@.ids.len() + chain.len(),
            after.trace@.owner.len() == self.trace@.owner.len(),
    {
        let t = self.trace@;
        let u = after.trace@;
        let gone = self.detached(chain);
        assert(chain.no_duplicates()) by {
            assert forall|i: int, j: int|
                0 <= i < chain.len() && 0 <= j < chain.len() && i != j implies chain[i]
                != chain[j] by {
                assert(gone[i] == chain[i] && gone[j] == chain[j]);
            }
        }
        assert forall|j: int| 0 <= j < chain.len() implies (#[trigger] chain[j]) < t.owner.len()
            && t.owner[chain[j] as int] < 0 && self.blank(chain[j] as int)
            && u.owner[chain[j] as int] == t.ids.len() + (chain.len() - 1 - j) by {
            assert(gone[j] == chain[j]);
            assert(chain.contains(chain[j]));
            assert(chain.index_of(chain[j]) == j);
        }
    }

    proof fn lemma_attach_arena(&self, after: &Self, chain: Seq<usize>)
        requires
            self.arena_wf(chain),
            self.attaches(after, chain),
            self.trace@.ids.len() > 0 ==> self.trace@.live(self.trace@.ids.len() - 1),
        ensures
            after.arena_wf(Seq::empty()),
    {
        let t = self.trace@;
        let u = after.trace@;
        let n = t.ids.len() as int;
        let gone = self.detached(chain);
        let now = after.detached(Seq::empty());
        self.lemma_attach_chain(after, chain);
        assert forall|j: int| 0 <= j < now.len() implies now[j] == gone[chain.len() + j] by {}
        assert forall|j: int| 0 <= j < now.len() implies (#[trigger] now[j]) < u.owner.len()
            && u.owner[now[j] as int] < 0 && after.blank(now[j] as int) by {
            let x = chain.len() + j;
            assert(gone[x] == now[j]);
            assert(self.blank(gone[x] as int));
            assert(!chain.contains(now[j])) by {
                if chain.contains(now[j]) {
                    let y = chain.index_of(now[j]);
                    assert(gone[y] == chain[y]);
                }
            }
        }
        assert forall|id: int| 0 <= id < u.owner.len() implies #[trigger] u.owner[id] < 0 || (
        u.owner[id] < u.ids.len() && u.ids[u.owner[id]] == id) by {
            if chain.contains(id as usize) {
                let y = chain.index_of(id as usize);
                assert(chain[y] == id as usize);
                assert(u.ids[n + (chain.len() - 1 - y)] == chain[y]);
            } else {
                assert(u.owner[id as usize as int] == t.owner[id]);
                if t.owner[id] >= 0 {
                    assert(u.ids[t.owner[id]] == t.ids[t.owner[id]]);
                }
            }
        }
    }

    proof fn lemma_attach_live(&self, after: &Self, chain: Seq<usize>, k: int)
        requires
            self.inv(chain),
            self.attaches(after, chain),
            0 <= k < after.trace@.ids.len(),
        ensures
            k < self.trace@.ids.len() ==> after.trace@.live(k) == self.trace@.live(k),
            k >= self.trace@.ids.len() ==> after.trace@.live(k),
            after.trace@.ids[k] < after.trace@.owner.len(),
    {
        let t = self.trace@;
        let u = after.trace@;
        let n = t.ids.len() as int;
        self.lemma_attach_chain(after, chain);
        if k >= n {
            assert(u.ids[k] == chain[chain.len() - 1 - (k - n)]);
        } else {
            let id = t.ids[k];
            assert(u.ids[k] == id);
            if chain.contains(id) {
                let y = chain.index_of(id);
                assert(chain[y] == id);
            } else {
                assert(u.owner[id as int] == t.owner[id as int]);
            }
        }
    }

    /// A block that keeps its slots and gets the right successor.
    proof fn lemma_block_same(&self, after: &Self, k: int)
        requires
            self.block_wf(k),
            after.head_codec == self.head_codec,
            after.trace@ == (Trace {
                ids: after.trace@.ids,
                owner: after.trace@.owner,
                ..self.trace@
            }),
            after.trace@.ids[k] == self.trace@.ids[k],
            ({
                let b = self.blocks@[self.trace@.ids[k] as int];
                let c = after.blocks@[self.trace@.ids[k] as int];
                &&& c.slots == b.slots
                &&& c.consumed == b.consumed
                &&& c.done == b.done
                &&& c.next == (if k < after.trace@.ids.len() - 1 {
                    Some(after.trace@.ids[k + 1])
                } else {
                    None::<usize>
                })
            }),
        ensures
            after.block_wf(k),
    {
        assert forall|i: int| 0 <= i < self.length() implies #[trigger] after.slot_wf(k, i) by {
            assert(self.slot_wf(k, i));
        }
    }

    /// A blank block behind every reserved position.
    proof fn lemma_block_blank(&self, k: int)
        requires
            self.blank(self.trace@.ids[k] as int),
            0 < self.length(),
            self.trace@.log.len() <= position(self.length(), k, 0),
            self.head() <= self.trace@.log.len(),
            forall|p: int| #[trigger]
                self.trace@.claimed.contains(p) ==> p < self.trace@.log.len(),
            self.blocks@[self.trace@.ids[k] as int].next == (if k < self.trace@.ids.len() - 1 {
                Some(self.trace@.ids[k + 1])
            } else {
                None::<usize>
            }),
        ensures
            self.block_wf(k),
    {
        lemma_count_bound(self.blocks@[self.trace@.ids[k] as int].done@);
        assert forall|i: int| 0 <= i < self.length() implies #[trigger] self.slot_wf(k, i) by {
            assert(position(self.length(), k, i) >= self.trace@.log.len());
        }
    }

    /// An attached block of the chain, which is still blank.
    #[verifier::spinoff_prover]
    #[verifier::rlimit(30)]
    proof fn lemma_attach_new(&self, after: &Self, chain: Seq<usize>, k: int)
        requires
            0 < self.length(),
            self.arena_wf(chain),
            self.linked(chain),
            self.attaches(after, chain),
            self.trace@.ids.len() <= k < after.trace@.ids.len(),
            self.trace@.log.len() <= position(self.length(), k, 0),
            self.head() <= self.trace@.log.len(),
            forall|p: int| #[trigger]
                self.trace@.claimed.contains(p) ==> p < self.trace@.log.len(),
            self.trace@.ids.len() > 0 ==> self.trace@.live(self.trace@.ids.len() - 1),
        ensures
            after.block_wf(k),
    {
        let u = after.trace@;
        let n = self.trace@.ids.len() as int;
        self.lemma_attach_chain(after, chain);
        let j = chain.len() - 1 - (k - n);
        assert(u.ids[k] == chain[j]);
        assert(after.blocks@[chain[j] as int] == self.blocks@[chain[j] as int]);
        if k < u.ids.len() - 1 {
            assert(u.ids[k + 1] == chain[j - 1]);
        }
        after.lemma_block_blank(k);
    }

    /// A block that was attached before.
    proof fn lemma_attach_old(&self, after: &Self, chain: Seq<usize>, k: int)
        requires
            self.arena_wf(chain),
            self.attaches(after, chain),
            0 <= k < self.trace@.ids.len(),
            self.block_wf(k),
            self.trace@.live(k),
            self.trace@.live(self.trace@.ids.len() - 1),
        ensures
            after.block_wf(k),
    {
        let t = self.trace@;
        let u = after.trace@;
        let n = t.ids.len() as int;
        self.lemma_attach_chain(after, chain);
        assert(u.ids[k] == t.ids[k]);
        if k < n - 1 {
            assert(u.ids[k + 1] == t.ids[k + 1]);
        } else {
            assert(u.ids[k + 1] == chain[chain.len() - 1]);
        }
        self.lemma_block_same(after, k);
    }

    /// Attaching a chain keeps the queue well formed.
    #[verifier::spinoff_prover]
    #[verifier::rlimit(40)]
    proof fn lemma_attach(&self, after: &Self, chain: Seq<usize>)
        requires
            self.inv(chain),
            self.linked(chain),
            self.attaches(after, chain),
        ensures
            after.inv(Seq::empty()),
    {
        let t = self.trace@;
        let u = after.trace@;
        let l = self.length();
        let n = t.ids.len() as int;
        self.head_codec.lemma_length();
        self.lemma_attach_chain(after, chain);
        assert(n > 0 ==> t.live(n - 1));
        self.lemma_attach_arena(after, chain);
        assert(position(l, 0, 0) == 0) by (nonlinear_arith);
        assert forall|k: int| 0 <= k < u.ids.len() implies (#[trigger] u.ids[k]) < u.owner.len() by {
            self.lemma_attach_live(after, chain, k);
        }
        assert forall|k: int| u.head_block <= k < u.ids.len() implies #[trigger] u.live(k) by {
            self.lemma_attach_live(after, chain, k);
            if k < n {
                assert(t.live(k));
            }
        }
        assert forall|k: int, i: int|
            0 <= k < u.ids.len() && 0 <= i < l && u.claimed.contains(
                #[trigger] position(l, k, i),
            ) implies u.live(k) by {
            self.lemma_attach_live(after, chain, k);
            if k < n {
                assert(t.live(k));
            }
        }
        assert forall|k: int| #[trigger] u.live(k) implies after.block_wf(k) by {
            self.lemma_attach_live(after, chain, k);
            if k < n {
                self.lemma_attach_old(after, chain, k);
            } else {
                if n > 0 {
                    lemma_position_order(l, t.tail_block, n);
                }
                if n < k {
                    lemma_position_order(l, n, k);
                }
                lemma_position_nonnegative(l, k, 0);
                self.lemma_attach_new(after, chain, k);
            }
        }
        if n > 0 {
            assert(u.ids[t.head_block] == t.ids[t.head_block]);
            assert(u.ids[t.tail_block] == t.ids[t.tail_block]);
        }
    }

    /// Attaches a chain behind the last block.
    fn attach(&mut self, chain: &mut BlockChain, last: usize)
        requires
            old(self).inv(old(chain).blocks@),
            old(self).linked(old(chain).blocks@),
            old(chain).blocks@.len() > 0,
            old(self).trace@.ids.len() > 0,
            last == old(self).trace@.ids[old(self).trace@.ids.len() - 1],
        ensures
            final(self).inv(Seq::empty()),
            final(chain).blocks@ == Seq::<usize>::empty(),
            final(self).head_codec == old(self).head_codec,
            final(self).blocks@.len() == old(self).blocks@.len(),
            final(self).trace@ == (Trace {
                ids: old(self).trace@.ids + Self::in_order(old(chain).blocks@),
                owner: final(self).trace@.owner,
                ..old(self).trace@
            }),
    {
        let ghost given = chain.blocks@;
        let count: usize = chain.blocks.len();
        let root: usize = chain.blocks[count - 1];
        proof {
            assert(self.trace@.live(self.trace@.ids.len() - 1));
        }
        self.blocks[last].next = Some(root);
        chain.blocks = Vec::new();
        self.trace = Ghost(
            Trace {
                ids: self.trace@.ids + Self::in_order(given),
                owner: old(self).attached_owner(given),
                ..self.trace@
            },
        );
        proof {
            old(self).lemma_attach(self, given);
        }
    }

    /// Attaches the first block and sets both heads to its start.
    fn attach_root(&mut self)
        requires
            old(self).wf(),
            old(self).trace@.ids.len() == 0,
            old(self).room(1),
        ensures
            final(self).wf(),
            final(self).head_codec == old(self).head_codec,
            final(self).blocks@.len() <= old(self).blocks@.len() + 1,
            final(self).trace@.ids.len() == 1,
            final(self).trace@ == (Trace {
                ids: final(self).trace@.ids,
                owner: final(self).trace@.owner,
                ..old(self).trace@
            }),
    {
        let mut chain = BlockChain { blocks: Vec::new() };
        proof {
            self.head_codec.lemma_length();
            vstd::arithmetic::div_mod::lemma_basic_div(0, self.length());
            assert(chain.blocks@ =~= Seq::<usize>::empty());
        }
        self.grow_to_fit_with(&mut chain, 1);
        let ghost grown = *self;
        let ghost given = chain.blocks@;
        let root: usize = chain.blocks[0];
        assert(grown.detached(given)[0] == root);
        let head = Head::from_ptr(self.head_codec.address_of(root));
        proof {
            self.head_codec.lemma_address(root as int);
        }
        self.phead = head.to_usize(&self.head_codec);
        self.chead = head.to_usize(&self.head_codec);
        self.trace = Ghost(
            Trace {
                ids: self.trace@.ids + Self::in_order(given),
                owner: grown.attached_owner(given),
                ..self.trace@
            },
        );
        proof {
            grown.lemma_attach(self, given);
        }
    }

    /// What the two packed words decode to.
    proof fn lemma_words(&self, chain: Seq<usize>)
        requires
            self.inv(chain),
        ensures
            0 < self.length() < usize::MAX,
            2 * self.length() < usize::MAX,
            self.trace@.ids.len() == 0 ==> {
                &&& self.head_codec.decode(self.chead) == zero_head()
                &&& self.head_codec.decode(self.phead) == zero_head()
                &&& self.head() == 0
                &&& self.tail() == 0
            },
            self.trace@.ids.len() > 0 ==> {
                let t = self.trace@;
                &&& self.head_codec.decode(self.chead) == self.consumer_head()
                &&& self.head_codec.decode(self.phead) == self.producer_head()
                &&& self.head_codec.representable(self.consumer_head())
                &&& self.head_codec.representable(self.producer_head())
                &&& self.consumer_head().block != 0
                &&& self.producer_head().block != 0
                &&& self.chead != 0
                &&& t.live(t.head_block)
                &&& t.live(t.tail_block)
                &&& self.head_codec.addressable(t.ids[t.head_block] as int)
                &&& self.head_codec.addressable(t.ids[t.tail_block] as int)
                &&& self.consumer_head().block >> self.head_codec.bits() == t.ids[t.head_block] + 1
                &&& self.producer_head().block >> self.head_codec.bits() == t.ids[t.tail_block] + 1
                &&& (self.producer_head().block == self.consumer_head().block <==> t.head_block
                    == t.tail_block)
            },
    {
        self.head_codec.lemma_length();
        self.head_codec.lemma_zero();
        let t = self.trace@;
        assert(position(self.length(), 0, 0) == 0) by (nonlinear_arith);
        if t.ids.len() > 0 {
            assert(t.live(t.head_block));
            assert(t.live(t.tail_block));
            self.head_codec.lemma_address(t.ids[t.head_block] as int);
            self.head_codec.lemma_address(t.ids[t.tail_block] as int);
            self.head_codec.lemma_round_trip(self.consumer_head());
            self.head_codec.lemma_round_trip(self.producer_head());
            self.head_codec.lemma_nonzero(self.consumer_head());
            if self.producer_head().block == self.consumer_head().block {
                self.head_codec.lemma_address_injective(
                    t.ids[t.head_block] as int,
                    t.ids[t.tail_block] as int,
                );
            }
        }
    }

    /// The position producers reserve next.
    pub fn acquire_phead(&self) -> (head: Head)
        requires
            self.wf(),
        ensures
            self.trace().ids.len() == 0 ==> head == zero_head(),
            self.trace().ids.len() > 0 ==> head == self.producer_head() && head != zero_head(),
    {
        proof {
            self.lemma_words(Seq::empty());
        }
        Head::from_usize(self.phead, &self.head_codec)
    }

    /// The position consumers reserve next.
    pub fn acquire_chead(&self) -> (head: Head)
        requires
            self.wf(),
        ensures
            self.trace().ids.len() == 0 ==> head == zero_head(),
            self.trace().ids.len() > 0 ==> head == self.consumer_head() && head != zero_head(),
    {
        proof {
            self.lemma_words(Seq::empty());
        }
        Head::from_usize(self.chead, &self.head_codec)
    }

    /// Moving the producer head over a run of free positions.
    proof fn lemma_reserve(&self, after: &Self, chain: Seq<usize>, run: Seq<Option<T>>)
        requires
            self.inv(chain),
            self.trace@.ids.len() > 0,
            after.head_codec == self.head_codec,
            after.blocks == self.blocks,
            after.pool == self.pool,
            after.spare == self.spare,
            after.chead == self.chead,
            after.phead == after.head_codec.encode(after.producer_head()),
            after.trace@ == (Trace {
                log: self.trace@.log + run,
                pending: self.trace@.pending.union(
                    span(self.tail(), self.tail() + run.len()),
                ),
                tail_block: after.trace@.tail_block,
                tail_index: after.trace@.tail_index,
                tail_hint: after.trace@.tail_hint,
                ..self.trace@
            }),
            self.trace@.tail_block <= after.trace@.tail_block < self.trace@.ids.len(),
            0 <= after.trace@.tail_index < self.length(),
            after.tail() == self.tail() + run.len(),
            after.trace@.tail_hint ==> self.head_codec.hint_encoded() && after.trace@.tail_block
                < self.trace@.ids.len() - 1,
        ensures
            after.inv(chain),
    {
        let t = self.trace@;
        let u = after.trace@;
        assert forall|k: int| #[trigger] u.live(k) == t.live(k) by {}
        assert forall|k: int| u.head_block <= k < u.ids.len() implies #[trigger] u.live(k) by {
            assert(t.live(k));
        }
        assert forall|k: int, i: int|
            0 <= k < u.ids.len() && 0 <= i < self.length() && u.claimed.contains(
                #[trigger] position(self.length(), k, i),
            ) implies u.live(k) by {
            assert(t.live(k));
        }
        assert(after.detached(chain) =~= self.detached(chain));
        assert forall|j: int|
            0 <= j < after.detached(chain).len() implies (#[trigger] after.detached(chain)[j])
            < u.owner.len() && u.owner[after.detached(chain)[j] as int] < 0 && after.blank(
            after.detached(chain)[j] as int,
        ) by {
            assert(self.blank(self.detached(chain)[j] as int));
        }
        assert forall|k: int| #[trigger] u.live(k) implies after.block_wf(k) by {
            assert(t.live(k));
            assert(self.block_wf(k));
            assert forall|i: int| 0 <= i < self.length() implies #[trigger] after.slot_wf(k, i) by {
                assert(self.slot_wf(k, i));
                let p = position(self.length(), k, i);
                if p < t.log.len() {
                    lemma_position_nonnegative(self.length(), k, i);
                    assert(u.log[p] == t.log[p]);
                }
            }
        }
    }

    /// There are addresses for `len` more values. A block for each of them and
    /// one more is always enough.
    pub open spec fn room_for(&self, len: int) -> bool {
        ||| self.allocated() + len + 1 <= self.codec().limit()
        ||| self.tight_room(len)
    }

    /// The most blocks that a push of `len` values adds.
    pub open spec fn fresh(&self, len: int) -> int {
        if len <= 0 {
            0
        } else if self.trace().ids.len() == 0 {
            1 + blocks_holding(spec_growth(len, 0, false, self.length()), self.length())
        } else {
            blocks_holding(
                spec_growth(
                    len,
                    self.trace().tail_index,
                    self.trace().tail_hint,
                    self.length(),
                ),
                self.length(),
            )
        }
    }

    /// There are addresses for the blocks that a push of `len` values adds.
    pub open spec fn tight_room(&self, len: int) -> bool {
        self.room(self.fresh(len))
    }

    /// A block for each value and one more is enough.
    proof fn lemma_tight_room(&self, len: int)
        requires
            self.inv(Seq::empty()),
            self.room_for(len),
            len >= 0,
        ensures
            self.tight_room(len),
            self.fresh(len) <= len + 1,
    {
        let l = self.length();
        self.lemma_words(Seq::empty());
        let index = if self.trace@.ids.len() == 0 {
            0
        } else {
            self.trace@.tail_index
        };
        let hint = self.trace@.ids.len() > 0 && self.trace@.tail_hint;
        let slots = spec_growth(len, index, hint, l);
        if slots > 0 {
            vstd::arithmetic::div_mod::lemma_div_is_ordered_by_denominator(slots - 1, 1, l);
            vstd::arithmetic::div_mod::lemma_div_basics(slots - 1);
        }
    }

    /// Whether there are addresses for `len` more values.
    pub fn has_room_for(&self, len: usize) -> (fits: bool)
        requires
            self.wf(),
            len < usize::MAX,
        ensures
            fits == self.room_for(len as int),
    {
        if len == 0 {
            return true;
        }
        proof {
            self.lemma_words(Seq::empty());
            if self.room_for(len as int) {
                self.lemma_tight_room(len as int);
            }
        }
        let length: usize = self.block_length();
        let head = self.acquire_phead();
        let slots: usize = growth(len, head.index, head.has_next, length);
        let mut blocks: usize = 0;
        if slots > 0 {
            blocks = (slots - 1) / length + 1;
        }
        if head.is_zero() {
            blocks = blocks + 1;
        }
        if blocks == 0 {
            return true;
        }
        if self.blocks.len() > usize::MAX - blocks {
            return false;
        }
        self.head_codec.has_room(self.blocks.len() + blocks - 1)
    }

    /// Reserves the next `len` positions for the caller to write.
    ///
    /// Blocks are attached where the run needs them. If the head ends on a
    /// block whose successor is known, it says so.
    fn reserve(&mut self, len: usize, run: Ghost<Seq<Option<T>>>)
        requires
            old(self).wf(),
            old(self).trace@.ids.len() > 0,
            0 < len < usize::MAX,
            run@.len() == len,
            old(self).tight_room(len as int),
        ensures
            final(self).inv(Seq::empty()),
            final(self).head_codec == old(self).head_codec,
            old(self).trace@.ids.is_prefix_of(final(self).trace@.ids),
            final(self).trace@ == (Trace {
                log: old(self).trace@.log + run@,
                pending: old(self).trace@.pending.union(
                    span(old(self).tail(), old(self).tail() + len),
                ),
                ids: final(self).trace@.ids,
                owner: final(self).trace@.owner,
                tail_block: final(self).trace@.tail_block,
                tail_index: final(self).trace@.tail_index,
                tail_hint: final(self).trace@.tail_hint,
                ..old(self).trace@
            }),
            final(self).blocks@.len() - old(self).blocks@.len() <= blocks_holding(
                spec_growth(
                    len as int,
                    old(self).trace@.tail_index,
                    old(self).trace@.tail_hint,
                    old(self).length(),
                ),
                old(self).length(),
            ),
    {
        let ghost t = self.trace@;
        let ghost l = self.length();
        let ghost end = self.tail() + len;
        proof {
            self.lemma_words(Seq::empty());
        }
        let length: usize = self.block_length();
        let phead = self.acquire_phead();
        let mut chain = BlockChain { blocks: Vec::new() };
        assert(chain.blocks@ =~= Seq::<usize>::empty());
        let needed: usize = growth(len, phead.index, phead.has_next, length);
        self.grow_to_fit_with(&mut chain, needed);
        if len < length - phead.index {
            let ghost before = *self;
            let moved = Head { block: phead.block, index: phead.index + len, has_next: false };
            self.phead = moved.to_usize(&self.head_codec);
            self.trace = Ghost(
                Trace {
                    log: t.log + run@,
                    pending: t.pending.union(span(end - len, end)),
                    tail_index: t.tail_index + len,
                    tail_hint: false,
                    ..self.trace@
                },
            );
            proof {
                assert(chain.blocks@ =~= Seq::<usize>::empty());
                before.lemma_reserve(self, Seq::empty(), run@);
            }
            return;
        }
        proof {
            // The attached blocks and the chain reach past the end of the run.
            let reach = t.tail_block + 1 + (if t.tail_hint {
                1int
            } else {
                0int
            });
            let rest = t.ids.len() - reach;
            let c = chain.blocks@.len() as int;
            if needed > 0 {
                law_blocks_holding(needed as int, l);
            }
            lemma_position_sum(l, t.tail_block, reach - t.tail_block);
            lemma_position_sum(l, reach, rest);
            lemma_position_sum(l, t.ids.len() as int, c);
            lemma_position_nonnegative(l, rest, 0);
            assert(position(l, 1, 0) == l && position(l, 2, 0) == 2 * l) by (nonlinear_arith);
        }
        let mut block: usize = self.head_codec.id_of(phead.block);
        let mut index: usize = phead.index;
        let mut remaining: usize = len;
        let ghost mut number = t.tail_block;
        loop
            invariant
                self.inv(chain.blocks@),
                self.linked(chain.blocks@),
                self.head_codec == old(self).head_codec,
                length == l,
                l == self.length(),
                0 < l,
                t == old(self).trace@,
                t.ids.len() > 0,
                end == old(self).tail() + len,
                old(self).wf(),
                run@.len() == len,
                t.ids.is_prefix_of(self.trace@.ids),
                self.trace@ == (Trace {
                    ids: self.trace@.ids,
                    owner: self.trace@.owner,
                    ..t
                }),
                t.tail_block <= number < self.trace@.ids.len(),
                block == self.trace@.ids[number],
                index < l,
                position(l, number, index as int) + remaining == end,
                position(l, (self.trace@.ids.len() + chain.blocks@.len()) as int, 0) > end,
                self.blocks@.len() - old(self).blocks@.len() <= blocks_holding(
                    needed as int,
                    l,
                ),
                needed == spec_growth(
                    len as int,
                    old(self).trace@.tail_index,
                    old(self).trace@.tail_hint,
                    l,
                ),
            decreases remaining,
        {
            proof {
                assert(self.trace@.live(number));
                assert(self.block_wf(number));
            }
            if self.blocks[block].next.is_none() && chain.blocks.len() > 0 {
                let ghost before = *self;
                let ghost given = chain.blocks@;
                self.attach(&mut chain, block);
                proof {
                    assert(self.trace@.ids[number] == before.trace@.ids[number]);
                    assert(self.trace@.live(number));
                    assert(self.block_wf(number));
                    assert(t.ids.is_prefix_of(self.trace@.ids)) by {
                        assert forall|k: int| 0 <= k < t.ids.len() implies t.ids[k]
                            == self.trace@.ids[k] by {
                            assert(before.trace@.ids[k] == t.ids[k]);
                        }
                    }
                }
            }
            let next: Option<usize> = self.blocks[block].next;
            let available: usize = length - index;
            proof {
                lemma_position_next(l, number);
            }
            if remaining < available {
                let ghost before = *self;
                let moved = Head {
                    block: self.head_codec.address_of(block),
                    index: index + remaining,
                    has_next: next.is_some(),
                };
                proof {
                    self.head_codec.lemma_address(block as int);
                    self.head_codec.lemma_encode_stored(moved);
                }
                self.phead = moved.to_usize(&self.head_codec);
                self.trace = Ghost(
                    Trace {
                        log: t.log + run@,
                        pending: t.pending.union(span(end - len, end)),
                        tail_block: number,
                        tail_index: index + remaining,
                        tail_hint: next.is_some() && self.head_codec.hint_encoded(),
                        ..self.trace@
                    },
                );
                proof {
                    before.lemma_reserve(self, chain.blocks@, run@);
                }
                self.release(&mut chain);
                return;
            }
            remaining = remaining - available;
            proof {
                if next.is_none() {
                    assert(number == self.trace@.ids.len() - 1);
                    assert(chain.blocks@.len() == 0);
                }
                number = number + 1;
            }
            block = next.unwrap();
            index = 0;
        }
    }

    /// The block of a reserved position that is not written is attached.
    proof fn lemma_pending_block(&self, number: int, index: int)
        requires
            self.inv(Seq::empty()),
            0 <= number < self.trace@.ids.len(),
            0 <= index < self.length(),
            self.trace@.pending.contains(position(self.length(), number, index)),
        ensures
            self.trace@.live(number),
    {
        let t = self.trace@;
        let l = self.length();
        let p = position(l, number, index);
        self.lemma_words(Seq::empty());
        if t.claimed.contains(p) {
            assert(t.live(number));
        } else {
            assert(p >= self.head());
            if number < t.head_block {
                lemma_position_order(l, number, t.head_block);
            }
            assert(t.live(number));
        }
    }

    /// Writes or skips a reserved position.
    fn fill_one(&mut self, block: usize, index: usize, number: Ghost<int>, value: Option<T>)
        requires
            old(self).inv(Seq::empty()),
            0 <= number@ < old(self).trace@.ids.len(),
            index < old(self).length(),
            block == old(self).trace@.ids[number@],
            old(self).trace@.pending.contains(
                position(old(self).length(), number@, index as int),
            ),
            old(self).trace@.log[position(old(self).length(), number@, index as int)] == value,
        ensures
            final(self).inv(Seq::empty()),
            final(self).head_codec == old(self).head_codec,
            final(self).blocks@.len() == old(self).blocks@.len(),
            final(self).trace@ == (Trace {
                pending: old(self).trace@.pending.remove(
                    position(old(self).length(), number@, index as int),
                ),
                ..old(self).trace@
            }),
    {
        let ghost t = self.trace@;
        let ghost l = self.length();
        let ghost n = number@;
        let ghost p = position(l, n, index as int);
        proof {
            self.lemma_words(Seq::empty());
            self.lemma_pending_block(n, index as int);
            assert(self.block_wf(n));
            assert(self.slot_wf(n, index as int));
        }
        match value {
            Some(value) => {
                self.blocks[block].slots[index].write(value);
            },
            None => {
                self.blocks[block].slots[index].skip();
            },
        }
        self.trace = Ghost(Trace { pending: t.pending.remove(p), ..t });
        proof {
            let u = self.trace@;
            assert forall|k: int| #[trigger] u.live(k) == t.live(k) by {}
            assert forall|k: int| u.head_block <= k < u.ids.len() implies #[trigger] u.live(k) by {
                assert(t.live(k));
            }
            assert forall|k: int, i: int|
                0 <= k < u.ids.len() && 0 <= i < l && u.claimed.contains(
                    #[trigger] position(l, k, i),
                ) implies u.live(k) by {
                assert(t.live(k));
            }
            let empty = Seq::<usize>::empty();
            assert(self.detached(empty) =~= old(self).detached(empty));
            assert forall|j: int|
                0 <= j < self.detached(empty).len() implies (#[trigger] self.detached(empty)[j])
                < u.owner.len() && u.owner[self.detached(empty)[j] as int] < 0 && self.blank(
                self.detached(empty)[j] as int,
            ) by {
                assert(old(self).blank(old(self).detached(empty)[j] as int));
            }
            assert forall|k: int| #[trigger] u.live(k) implies self.block_wf(k) by {
                assert(t.live(k));
                assert(old(self).block_wf(k));
                assert forall|i: int| 0 <= i < l implies #[trigger] self.slot_wf(k, i) by {
                    assert(old(self).slot_wf(k, i));
                    if position(l, k, i) == p {
                        lemma_position_injective(l, k, i, n, index as int);
                    }
                }
            }
        }
    }

    /// Reserves `len` positions for the values of `items`, which the caller then
    /// writes one at a time.
    ///
    /// The first positions are for the values in order, and those for which no
    /// value comes are to be skipped. Values beyond the announced number are
    /// dropped. Others may push and pop meanwhile: the positions are taken.
    pub fn reserve_announced(&mut self, items: Vec<T>, len: usize) -> (reservation: Reservation<T>)
        requires
            old(self).wf(),
            old(self).room_for(len as int),
        ensures
            final(self).wf(),
            final(self).codec() == old(self).codec(),
            final(self).allocated() <= old(self).allocated() + old(self).fresh(capped(len)),
            final(self).allocated() <= old(self).allocated() + len + 1,
            old(self).trace().ids.is_prefix_of(final(self).trace().ids),
            final(self).trace().log == old(self).trace().log + announced(items@, capped(len)),
            final(self).trace().pending == old(self).trace().pending.union(
                span(old(self).tail(), old(self).tail() + capped(len)),
            ),
            final(self).same_consumers(old(self)),
            final(self).waiting() == old(self).waiting() + announced(items@, capped(len)),
            final(self).follows(old(self)),
            reservation.held(final(self)),
            reservation.remaining() == capped(len),
            len > 0 ==> reservation.start(final(self)) == old(self).tail(),
            reservation.values() == announced(items@, capped(len)),
    {
        let ghost asked = len;
        let len: usize = if len == usize::MAX {
            usize::MAX - 1
        } else {
            len
        };
        let ghost run = announced(items@, len as int);
        let ghost l = self.length();
        proof {
            self.lemma_words(Seq::empty());
            old(self).lemma_tight_room(asked as int);
            old(self).lemma_less_room(len as int);
            old(self).lemma_tight_room(len as int);
            assert(self.waiting() + Seq::<Option<T>>::empty() =~= self.waiting());
            assert(self.trace@.log + Seq::<Option<T>>::empty() =~= self.trace@.log);
            assert(self.trace@.pending.union(span(self.tail(), self.tail()))
                =~= self.trace@.pending);
        }
        let rest = reversed(items);
        if len == 0 {
            assert(run =~= Seq::<Option<T>>::empty());
            return Reservation { rest, block: 0, index: 0, len: 0, number: Ghost(0) };
        }
        let phead = self.acquire_phead();
        if phead.is_zero() {
            self.attach_root();
        }
        let ghost rooted = self.trace@;
        proof {
            self.lemma_words(Seq::empty());
        }
        let start = self.acquire_phead();
        let block: usize = self.head_codec.id_of(start.block);
        let index: usize = start.index;
        let ghost number = self.trace@.tail_block;
        self.reserve(len, Ghost(run));
        let reservation = Reservation { rest, block, index, len, number: Ghost(number) };
        proof {
            assert(self.trace@.ids[number] == rooted.ids[number]);
            assert(self.waiting() =~= old(self).waiting() + run);
            assert(reservation.values() =~= run);
        }
        reservation
    }

    /// Pushes the values of `items` with `len` announced beforehand.
    ///
    /// Exactly `len` positions are reserved: the first ones get the values in
    /// order, and those for which no value comes are skipped. Values beyond
    /// the announced number are dropped.
    pub fn push_announced(&mut self, items: Vec<T>, len: usize)
        requires
            old(self).wf(),
            old(self).room_for(len as int),
        ensures
            final(self).wf(),
            final(self).codec() == old(self).codec(),
            final(self).allocated() <= old(self).allocated() + old(self).fresh(capped(len)),
            final(self).allocated() <= old(self).allocated() + len + 1,
            old(self).trace().ids.is_prefix_of(final(self).trace().ids),
            final(self).trace().log == old(self).trace().log + announced(items@, capped(len)),
            final(self).trace().pending == old(self).trace().pending,
            final(self).same_consumers(old(self)),
            final(self).follows(old(self)),
            final(self).waiting() == old(self).waiting() + announced(items@, capped(len)),
    {
        let ghost t = self.trace@;
        let ghost from = self.tail();
        let ghost count = capped(len);
        let mut reservation = self.reserve_announced(items, len);
        let ghost reserved = *self;
        proof {
            assert(reserved.trace@.pending =~= t.pending.union(span(from, from + count)));
            assert forall|p: int| t.pending.contains(p) implies p < from by {}
        }
        while reservation.len > 0
            invariant
                self.wf(),
                reservation.held(self),
                0 <= reservation.len <= count,
                reservation.len > 0 ==> reservation.start(self) == from + (count
                    - reservation.len),
                self.head_codec == reserved.head_codec,
                self.blocks@.len() == reserved.blocks@.len(),
                forall|p: int| t.pending.contains(p) ==> p < from,
                self.trace@ == (Trace {
                    pending: t.pending.union(
                        span(from + (count - reservation.len), from + count),
                    ),
                    ..reserved.trace@
                }),
            decreases reservation.len,
        {
            let ghost at = from + (count - reservation.len);
            reservation.write(self);
            proof {
                assert(t.pending.union(span(at, from + count)).remove(at) =~= t.pending.union(
                    span(at + 1, from + count),
                ));
            }
        }
        proof {
            assert(self.trace@.pending =~= t.pending);
            assert(self.waiting() =~= reserved.waiting());
        }
    }

    /// Consumers see the same claims and the same head position as before.
    pub open spec fn same_consumers(&self, before: &Self) -> bool {
        &&& self.trace().head_block == before.trace().head_block
        &&& self.trace().head_index == before.trace().head_index
        &&& self.trace().head_hint == before.trace().head_hint
        &&& self.trace().claimed == before.trace().claimed
    }

    /// Room for more values is room for fewer.
    proof fn lemma_less_room(&self, len: int)
        requires
            self.inv(Seq::empty()),
            self.tight_room(len) || self.tight_room(len + 1),
            len >= 0,
        ensures
            self.tight_room(len),
    {
        let l = self.length();
        self.head_codec.lemma_length();
        let index = if self.trace@.ids.len() == 0 {
            0
        } else {
            self.trace@.tail_index
        };
        let hint = self.trace@.ids.len() > 0 && self.trace@.tail_hint;
        let small = spec_growth(len, index, hint, l);
        let large = spec_growth(len + 1, index, hint, l);
        if small > 0 {
            vstd::arithmetic::div_mod::lemma_div_is_ordered(small - 1, large - 1, l);
        }
        if large > 0 {
            law_blocks_holding(large, l);
        }
    }

    /// Pushes values in order.
    pub fn push_batch(&mut self, items: Vec<T>)
        requires
            old(self).wf(),
            old(self).room_for(items@.len() as int),
            items@.len() < usize::MAX,
        ensures
            final(self).wf(),
            final(self).codec() == old(self).codec(),
            final(self).allocated() <= old(self).allocated() + items@.len() + 1,
            old(self).trace().ids.is_prefix_of(final(self).trace().ids),
            final(self).trace().log == old(self).trace().log + items@.map_values(
                |value: T| Some(value),
            ),
            final(self).trace().pending == old(self).trace().pending,
            final(self).same_consumers(old(self)),
            final(self).follows(old(self)),
            final(self).waiting() == old(self).waiting() + items@.map_values(
                |value: T| Some(value),
            ),
    {
        let len: usize = items.len();
        assert(announced(items@, len as int) =~= items@.map_values(|value: T| Some(value)));
        self.push_announced(items, len);
    }

    /// Pushes one value.
    pub fn push(&mut self, e: T)
        requires
            old(self).wf(),
            old(self).room_for(1),
        ensures
            final(self).wf(),
            final(self).codec() == old(self).codec(),
            final(self).allocated() <= old(self).allocated() + 1 + 1,
            old(self).trace().ids.is_prefix_of(final(self).trace().ids),
            final(self).trace().log == old(self).trace().log.push(Some(e)),
            final(self).trace().pending == old(self).trace().pending,
            final(self).same_consumers(old(self)),
            final(self).follows(old(self)),
            final(self).waiting() == old(self).waiting().push(Some(e)),
    {
        let mut items: Vec<T> = Vec::new();
        items.push(e);
        self.push_batch(items);
        proof {
            assert(self.trace@.log =~= old(self).trace@.log.push(Some(e)));
            assert(self.waiting() =~= old(self).waiting().push(Some(e)));
        }
    }

    /// A block that is reserved to its end and beyond has a successor.
    proof fn lemma_next_block(&self, number: int)
        requires
            self.inv(Seq::empty()),
            0 <= number < self.trace@.ids.len(),
            position(self.length(), number, self.length()) < self.trace@.log.len(),
            self.trace@.live(number),
        ensures
            number + 1 < self.trace@.ids.len(),
            self.trace@.ids[number] < self.blocks@.len(),
            self.blocks@[self.trace@.ids[number] as int].next == Some(self.trace@.ids[number + 1]),
    {
        let t = self.trace@;
        let l = self.length();
        self.lemma_words(Seq::empty());
        lemma_position_next(l, number);
        if number >= t.tail_block {
            if t.tail_block < number {
                lemma_position_order(l, t.tail_block, number);
            }
            assert(false);
        }
        assert(self.block_wf(number));
    }

    /// Moving the consumer head forward with everything it passes claimed.
    proof fn lemma_advance(&self, after: &Self)
        requires
            self.wf(),
            self.trace@.ids.len() > 0,
            after.head_codec == self.head_codec,
            after.blocks == self.blocks,
            after.pool == self.pool,
            after.spare == self.spare,
            after.phead == self.phead,
            after.chead == after.head_codec.encode(after.consumer_head()),
            after.trace@ == (Trace {
                head_block: after.trace@.head_block,
                head_index: after.trace@.head_index,
                head_hint: after.trace@.head_hint,
                claimed: self.trace@.claimed.union(span(self.head(), after.head())),
                ..self.trace@
            }),
            self.head() <= after.head() <= self.tail(),
            self.trace@.head_block <= after.trace@.head_block <= self.trace@.tail_block,
            0 <= after.trace@.head_index < self.length(),
            after.trace@.head_hint ==> self.head_codec.hint_encoded() && after.trace@.head_block
                < self.trace@.tail_block,
        ensures
            after.wf(),
    {
        let t = self.trace@;
        let u = after.trace@;
        let l = self.length();
        let empty = Seq::<usize>::empty();
        self.lemma_words(empty);
        assert forall|k: int| #[trigger] u.live(k) == t.live(k) by {}
        assert forall|k: int| u.head_block <= k < u.ids.len() implies #[trigger] u.live(k) by {
            assert(t.live(k));
        }
        assert forall|k: int, i: int|
            0 <= k < u.ids.len() && 0 <= i < l && u.claimed.contains(
                #[trigger] position(l, k, i),
            ) implies u.live(k) by {
            let p = position(l, k, i);
            if p >= self.head() && k < t.head_block {
                lemma_position_order(l, k, t.head_block);
            }
            assert(t.live(k));
        }
        assert(after.detached(empty) =~= self.detached(empty));
        assert forall|j: int|
            0 <= j < after.detached(empty).len() implies (#[trigger] after.detached(empty)[j])
            < u.owner.len() && u.owner[after.detached(empty)[j] as int] < 0 && after.blank(
            after.detached(empty)[j] as int,
        ) by {
            assert(self.blank(self.detached(empty)[j] as int));
        }
        assert forall|k: int| #[trigger] u.live(k) implies after.block_wf(k) by {
            assert(t.live(k));
            assert(self.block_wf(k));
            assert forall|i: int| 0 <= i < l implies #[trigger] after.slot_wf(k, i) by {
                assert(self.slot_wf(k, i));
            }
        }
    }

    /// Claims up to `len` positions from the head on, across blocks.
    ///
    /// The claim ends at the producer head or when `len` positions are found.
    fn walk_claim(&mut self, len: usize) -> (taken: usize)
        requires
            old(self).wf(),
            old(self).trace@.ids.len() > 0,
        ensures
            final(self).wf(),
            final(self).head_codec == old(self).head_codec,
            final(self).blocks@.len() == old(self).blocks@.len(),
            taken == (if len <= old(self).tail() - old(self).head() {
                len as int
            } else {
                old(self).tail() - old(self).head()
            }),
            final(self).head() == old(self).head() + taken,
            final(self).trace@ == (Trace {
                head_block: final(self).trace@.head_block,
                head_index: final(self).trace@.head_index,
                head_hint: final(self).trace@.head_hint,
                claimed: old(self).trace@.claimed.union(span(old(self).head(), final(self).head())),
                ..old(self).trace@
            }),
    {
        let ghost t = self.trace@;
        let ghost l = self.length();
        let ghost from = self.head();
        proof {
            self.lemma_words(Seq::empty());
        }
        let length: usize = self.block_length();
        let phead = self.acquire_phead();
        let chead = self.acquire_chead();
        let mut block: usize = self.head_codec.id_of(chead.block);
        let mut index: usize = chead.index;
        let mut remaining: usize = len;
        let ghost mut number = t.head_block;
        loop
            invariant
                self.wf(),
                *self == *old(self),
                t == self.trace@,
                l == self.length(),
                length == l,
                from == self.head(),
                t.ids.len() > 0,
                phead == self.producer_head(),
                t.head_block <= number <= t.tail_block,
                block == t.ids[number],
                index < l,
                remaining <= len,
                position(l, number, index as int) == from + (len - remaining),
                position(l, number, index as int) <= self.tail(),
            decreases t.tail_block - number,
        {
            proof {
                self.lemma_words(Seq::empty());
                assert(t.live(number));
                assert(self.block_wf(number));
                self.head_codec.lemma_address(t.ids[number] as int);
                if self.head_codec.address(t.ids[number] as int) == phead.block {
                    self.head_codec.lemma_address_injective(
                        t.ids[number] as int,
                        t.ids[t.tail_block] as int,
                    );
                } else {
                    assert(number < t.tail_block);
                    lemma_position_order(l, number, t.tail_block);
                    lemma_position_next(l, number);
                    if number + 1 < t.tail_block {
                        lemma_position_order(l, number + 1, t.tail_block);
                    }
                }
            }
            let address: usize = self.head_codec.address_of(block);
            if phead.block == address {
                let present: usize = phead.index - index;
                let part: usize = if present < remaining {
                    present
                } else {
                    remaining
                };
                let moved = Head { block: address, index: index + part, has_next: false };
                self.chead = moved.to_usize(&self.head_codec);
                self.trace = Ghost(
                    Trace {
                        head_block: number,
                        head_index: index + part,
                        head_hint: false,
                        claimed: t.claimed.union(
                            span(from, position(l, number, index + part)),
                        ),
                        ..t
                    },
                );
                proof {
                    old(self).lemma_advance(self);
                }
                return len - (remaining - part);
            }
            let available: usize = length - index;
            if remaining < available {
                let moved = Head { block: address, index: index + remaining, has_next: true };
                self.chead = moved.to_usize(&self.head_codec);
                self.trace = Ghost(
                    Trace {
                        head_block: number,
                        head_index: index + remaining,
                        head_hint: self.head_codec.hint_encoded(),
                        claimed: t.claimed.union(
                            span(from, position(l, number, index + remaining)),
                        ),
                        ..t
                    },
                );
                proof {
                    self.head_codec.lemma_encode_stored(moved);
                    old(self).lemma_advance(self);
                }
                return len;
            }
            remaining = remaining - available;
            block = self.blocks[block].next.unwrap();
            index = 0;
            proof {
                number = number + 1;
            }
        }
    }

    /// How far a pop of `size` reaches when the producer head was seen as
    /// `seen`. An observation inside the head's own block limits the pop; a
    /// successor hint or an observation of another block does not.
    pub open spec fn reach(&self, seen: Head, size: int) -> int {
        let index = self.trace().head_index;
        if self.trace().head_hint || seen.block != self.consumer_head().block {
            size
        } else if seen.index <= index {
            0
        } else if seen.index - index < size {
            seen.index - index
        } else {
            size
        }
    }

    /// How many positions such a pop gets.
    ///
    /// An outdated observation may promise more than there is. Where the
    /// promise stays inside the block it is kept, and the missing positions
    /// are skipped; where it reaches the block's end it is cut down to what
    /// there is.
    pub open spec fn granted(&self, seen: Head, size: int) -> int {
        let reach = self.reach(seen, size);
        let there = self.tail() - self.head();
        if reach <= there {
            reach
        } else if !self.trace().head_hint && seen.block == self.consumer_head().block
            && self.trace().head_block == self.trace().tail_block && self.trace().head_index
            + reach < self.length() {
            reach
        } else {
            there
        }
    }

    /// Reserves up to `size` positions, given the producer head as it was
    /// observed before.
    pub fn pop_batch_seen(&mut self, seen: Head, size: usize) -> (iter: UBQIter)
        requires
            old(self).wf(),
            seen.index <= old(self).length(),
            old(self).trace().ids.len() > 0 && seen.block != old(self).consumer_head().block
                ==> old(self).trace().head_block < old(self).trace().tail_block,
        ensures
            final(self).wf(),
            final(self).follows(old(self)),
            final(self).codec() == old(self).codec(),
            final(self).allocated() <= old(self).allocated(),
            iter.reserved(final(self)),
            old(self).trace().ids.len() == 0 ==> iter.remaining() == 0 && *final(self) == *old(
                self,
            ),
            old(self).trace().ids.len() > 0 ==> {
                let n = old(self).granted(seen, size as int);
                let skipped = if old(self).head() + n > old(self).tail() {
                    old(self).head() + n - old(self).tail()
                } else {
                    0
                };
                &&& iter.remaining() == n
                &&& n > 0 ==> iter.start(final(self)) == old(self).head()
                &&& final(self).head() == old(self).head() + n
                &&& final(self).trace().log == old(self).trace().log + announced(
                    Seq::<T>::empty(),
                    skipped,
                )
                &&& final(self).trace().pending == old(self).trace().pending
                &&& final(self).trace().claimed == old(self).trace().claimed.union(
                    span(old(self).head(), old(self).head() + n),
                )
                &&& old(self).trace().ids.is_prefix_of(final(self).trace().ids)
            },
    {
        let ghost t = self.trace@;
        let ghost l = self.length();
        let ghost from = self.head();
        proof {
            self.lemma_words(Seq::empty());
            assert(t.log + announced(Seq::<T>::empty(), 0) =~= t.log);
            assert(t.claimed.union(span(from, from)) =~= t.claimed);
        }
        if size == 0 || self.chead == 0 {
            return UBQIter::empty();
        }
        let length: usize = self.block_length();
        let chead = self.acquire_chead();
        let block: usize = self.head_codec.id_of(chead.block);
        let mut len: usize = size;
        if !chead.has_next && seen.block == chead.block {
            let promised: usize = if seen.index > chead.index {
                seen.index - chead.index
            } else {
                0
            };
            if promised < len {
                len = promised;
            }
            if len == 0 {
                return UBQIter::empty();
            }
        }
        assert(len == self.reach(seen, size as int));
        if !chead.has_next && seen.block == chead.block && len < length - chead.index {
            let phead = self.acquire_phead();
            let end: usize = chead.index + len;
            if phead.block == chead.block && phead.index < end {
                // The observation was outdated. What was promised inside the
                // block is filled up with skipped positions.
                let nothing: Vec<T> = Vec::new();
                proof {
                    assert(nothing@ =~= Seq::<T>::empty());
                    self.lemma_room_inside(end - phead.index);
                }
                self.push_announced(nothing, end - phead.index);
            }
        }
        let ghost ready = *self;
        proof {
            if t.head_block < t.tail_block {
                lemma_position_order(l, t.head_block, t.tail_block);
            }
            assert(ready.head() == from);
        }
        let taken: usize = self.walk_claim(len);
        proof {
            assert(self.trace@.claimed =~= t.claimed.union(span(from, from + taken)));
        }
        UBQIter { block, index: chead.index, len: taken, number: Ghost(t.head_block) }
    }

    /// A push that stays inside the block of the producer head needs no block.
    proof fn lemma_room_inside(&self, len: int)
        requires
            self.inv(Seq::empty()),
            self.trace@.ids.len() > 0,
            0 < len,
            self.trace@.tail_index + len < self.length(),
        ensures
            self.fresh(len) == 0,
            self.room_for(len),
    {
    }

    /// Reserves up to `size` positions from the front of the queue.
    pub fn pop_batch(&mut self, size: usize) -> (iter: UBQIter)
        requires
            old(self).wf(),
        ensures
            final(self).wf(),
            final(self).follows(old(self)),
            final(self).codec() == old(self).codec(),
            final(self).allocated() <= old(self).allocated(),
            iter.reserved(final(self)),
            iter.remaining() == (if size <= old(self).waiting().len() {
                size as int
            } else {
                old(self).waiting().len() as int
            }),
            iter.remaining() > 0 ==> iter.start(final(self)) == old(self).head(),
            final(self).head() == old(self).head() + iter.remaining(),
            final(self).trace().log == old(self).trace().log,
            final(self).trace().pending == old(self).trace().pending,
            final(self).trace().claimed == old(self).trace().claimed.union(
                span(old(self).head(), old(self).head() + iter.remaining()),
            ),
            old(self).trace().ids.is_prefix_of(final(self).trace().ids),
            final(self).waiting() == old(self).waiting().skip(iter.remaining()),
            iter.run(final(self)) == old(self).waiting().take(iter.remaining()),
    {
        proof {
            self.lemma_words(Seq::empty());
            let t = self.trace@;
            if t.ids.len() > 0 && t.head_block < t.tail_block {
                lemma_position_order(self.length(), t.head_block, t.tail_block);
            }
            assert(t.log + announced(Seq::<T>::empty(), 0) =~= t.log);
            assert(t.claimed.union(span(self.head(), self.head())) =~= t.claimed);
        }
        let seen = self.acquire_phead();
        let iter = self.pop_batch_seen(seen, size);
        proof {
            assert(self.waiting() =~= old(self).waiting().skip(iter.remaining()));
            assert(iter.run(self) =~= old(self).waiting().take(iter.remaining()));
        }
        iter
    }

    /// In a quiet queue, nothing but skipped positions means no values.
    pub proof fn law_nothing_means_no_values(&self)
        requires
            self.wf(),
            self.quiet(),
        ensures
            self.holds_nothing() <==> present(self.waiting()).len() == 0,
    {
        self.lemma_words(Seq::empty());
        let run = self.waiting();
        law_the_first_value_follows_the_lead(run);
        if self.holds_nothing() {
            if lead(run) < run.len() {
                assert(self.trace().log[self.head() + lead(run)] is None);
            }
        }
        if lead(run) == run.len() {
            assert forall|p: int| self.head() <= p < self.tail() implies {
                &&& #[trigger] self.trace().log[p] is None
                &&& !self.trace().pending.contains(p)
            } by {
                assert(run[p - self.head()] is None);
            }
        }
    }

    /// Whether the queue holds no values. A position that is reserved and not
    /// written yet counts as one that will get a value.
    pub fn is_empty(&self) -> (empty: bool)
        requires
            self.wf(),
        ensures
            empty == self.holds_nothing(),
            self.quiet() ==> empty == (present(self.waiting()).len() == 0),
    {
        let ghost t = self.trace@;
        let ghost l = self.length();
        proof {
            self.lemma_words(Seq::empty());
            if self.quiet() {
                self.law_nothing_means_no_values();
            }
        }
        let length: usize = self.block_length();
        let phead = self.acquire_phead();
        if phead.is_zero() {
            return true;
        }
        let chead = self.acquire_chead();
        let mut block: usize = self.head_codec.id_of(chead.block);
        let mut index: usize = chead.index;
        let ghost mut number = t.head_block;
        loop
            invariant
                self.wf(),
                t == self.trace@,
                l == self.length(),
                length == l,
                t.ids.len() > 0,
                phead == self.producer_head(),
                self.quiet() ==> (self.holds_nothing() <==> present(self.waiting()).len() == 0),
                t.head_block <= number <= t.tail_block,
                block == t.ids[number],
                index < l,
                self.head() <= position(l, number, index as int) <= self.tail(),
                forall|p: int|
                    self.head() <= p < position(l, number, index as int) ==> {
                        &&& #[trigger] t.log[p] is None
                        &&& !t.pending.contains(p)
                    },
            decreases self.tail() - position(l, number, index as int),
        {
            let ghost p = position(l, number, index as int);
            proof {
                self.lemma_words(Seq::empty());
                assert(t.live(number));
                assert(self.block_wf(number));
                assert(self.slot_wf(number, index as int));
                self.head_codec.lemma_address(t.ids[number] as int);
                if self.head_codec.address(t.ids[number] as int) == phead.block {
                    self.head_codec.lemma_address_injective(
                        t.ids[number] as int,
                        t.ids[t.tail_block] as int,
                    );
                }
                if p == self.tail() {
                    lemma_position_injective(
                        l,
                        number,
                        index as int,
                        t.tail_block,
                        t.tail_index,
                    );
                }
            }
            if phead.block == self.head_codec.address_of(block) && phead.index == index {
                return true;
            }
            assert(p < self.tail());
            if self.blocks[block].slots[index].acquire_state() != SKIP {
                assert(t.log[p] is Some || t.pending.contains(p));
                return false;
            }
            proof {
                lemma_position_next(l, number);
                if number < t.tail_block {
                    lemma_position_order(l, number, t.tail_block);
                }
            }
            index = index + 1;
            if index == length {
                block = self.blocks[block].next.unwrap();
                index = 0;
                proof {
                    number = number + 1;
                }
            }
        }
    }
}

/// A run of positions that one producer has reserved and has to write.
pub struct Reservation<T> {
    /// The values that are not written yet, the last one first.
    rest: Vec<T>,
    block: usize,
    index: usize,
    len: usize,
    number: Ghost<int>,
}

impl<T> Reservation<T> {
    /// Positions left to write.
    pub closed spec fn remaining(&self) -> int {
        self.len as int
    }

    /// The next position.
    pub closed spec fn start(&self, queue: &UBQ<T>) -> int {
        position(queue.length(), self.number@, self.index as int)
    }

    /// What goes to the positions that are left.
    pub closed spec fn values(&self) -> Seq<Option<T>> {
        announced(self.rest@.reverse(), self.len as int)
    }

    /// Every position of the run is reserved in `queue`, for these values, and
    /// none is written.
    pub closed spec fn held(&self, queue: &UBQ<T>) -> bool {
        self.len > 0 ==> {
            &&& 0 <= self.number@ < queue.trace@.ids.len()
            &&& self.block == queue.trace@.ids[self.number@]
            &&& self.index < queue.length()
            &&& forall|p: int|
                self.start(queue) <= p < self.start(queue) + self.len
                    ==> #[trigger] queue.trace@.pending.contains(p)
            &&& forall|p: int|
                self.start(queue) <= p < self.start(queue) + self.len
                    ==> #[trigger] queue.trace@.log[p] == self.values()[p - self.start(queue)]
        }
    }

    /// Positions left to write.
    pub fn size_hint(&self) -> (left: usize)
        ensures
            left == self.remaining(),
    {
        self.len
    }

    /// Writes the next position, or skips it if no value is left. From here on
    /// a consumer that holds the position can read it.
    pub fn write(&mut self, queue: &mut UBQ<T>)
        requires
            old(queue).wf(),
            old(self).held(old(queue)),
            old(self).remaining() > 0,
        ensures
            final(queue).wf(),
            final(queue).follows(old(queue)),
            final(queue).codec() == old(queue).codec(),
            final(queue).allocated() == old(queue).allocated(),
            final(self).held(final(queue)),
            final(self).remaining() == old(self).remaining() - 1,
            final(self).remaining() > 0 ==> final(self).start(final(queue)) == old(self).start(
                old(queue),
            ) + 1,
            final(self).values() == old(self).values().skip(1),
            final(queue).trace() == (Trace {
                pending: old(queue).trace().pending.remove(old(self).start(old(queue))),
                ..old(queue).trace()
            }),
    {
        let ghost l = queue.length();
        let ghost t = queue.trace@;
        let ghost number = self.number@;
        let ghost p = self.start(queue);
        let ghost all = self.rest@.reverse();
        let ghost values = self.values();
        let length: usize = queue.block_length();
        let block: usize = self.block;
        let index: usize = self.index;
        proof {
            assert(t.pending.contains(p));
            assert(t.log[p] == values[0]);
            queue.lemma_pending_block(number, index as int);
            lemma_position_next(l, number);
        }
        self.index = index + 1;
        self.len = self.len - 1;
        if self.len > 0 && self.index == length {
            proof {
                assert(t.pending.contains(p + 1));
                queue.lemma_next_block(number);
            }
            self.block = queue.blocks[block].next.unwrap();
            self.index = 0;
            self.number = Ghost(number + 1);
        }
        let value = self.rest.pop();
        proof {
            let after = self.rest@.reverse();
            if all.len() > 0 {
                assert(value == Some(all[0]));
                assert(after =~= all.skip(1));
            } else {
                assert(after =~= all);
            }
            assert(self.values() =~= values.skip(1));
        }
        queue.fill_one(block, index, Ghost(number), value);
        proof {
            assert forall|q: int|
                self.len > 0 && self.start(queue) <= q < self.start(queue) + self.len implies (
            #[trigger] queue.trace@.pending.contains(q)) by {
                assert(t.pending.contains(q));
            }
            assert forall|q: int|
                self.len > 0 && self.start(queue) <= q < self.start(queue)
                    + self.len implies #[trigger] queue.trace@.log[q] == self.values()[q
                - self.start(queue)] by {
                assert(t.log[q] == values[q - p]);
            }
        }
    }

    /// A run stays reserved, with the same positions, as long as blocks and
    /// positions are only added and its own positions are not written.
    pub proof fn lemma_held_kept(&self, before: &UBQ<T>, after: &UBQ<T>)
        requires
            self.held(before),
            before.wf(),
            after.codec() == before.codec(),
            before.trace().ids.is_prefix_of(after.trace().ids),
            before.trace().log.is_prefix_of(after.trace().log),
            forall|p: int|
                self.start(before) <= p < self.start(before) + self.remaining()
                    ==> #[trigger] after.trace().pending.contains(p),
        ensures
            self.held(after),
            self.start(after) == self.start(before),
    {
        if self.len > 0 {
            assert forall|p: int|
                self.start(before) <= p < self.start(before) + self.len implies (
            #[trigger] after.trace@.log[p]) == self.values()[p - self.start(before)] by {
                assert(before.trace@.pending.contains(p));
                assert(before.trace@.log[p] == self.values()[p - self.start(before)]);
            }
        }
    }
}

/// One state that can come after another can come after all that the other can
/// come after.
pub proof fn law_histories_join<T>(first: &UBQ<T>, second: &UBQ<T>, third: &UBQ<T>)
    requires
        first.wf(),
        second.follows(first),
        third.follows(second),
    ensures
        third.follows(first),
{
    let t = first.trace();
    let u = second.trace();
    let v = third.trace();
    assert forall|i: int| 0 <= i < t.log.len() implies t.log[i] == v.log[i] by {
        assert(u.log[i] == t.log[i]);
    }
    assert forall|i: int| 0 <= i < t.ids.len() implies t.ids[i] == v.ids[i] by {
        assert(u.ids[i] == t.ids[i]);
    }
    assert forall|p: int|
        0 <= p < t.log.len() && !t.pending.contains(p) implies !#[trigger] v.pending.contains(
        p,
    ) by {
        assert(!u.pending.contains(p));
    }
    assert forall|p: int|
        p < first.head() && !t.claimed.contains(p) implies !#[trigger] v.claimed.contains(p) by {
        assert(!u.claimed.contains(p));
    }
}

/// Whatever producers and consumers do meanwhile, the consumer that holds a
/// position reads what was pushed there.
pub proof fn law_a_position_keeps_its_value<T>(
    pushed: &UBQ<T>,
    later: &UBQ<T>,
    iter: &UBQIter,
    p: int,
)
    requires
        later.wf(),
        later.follows(pushed),
        iter.reserved(later),
        0 <= p < pushed.trace().log.len(),
        iter.start(later) <= p < iter.start(later) + iter.remaining(),
    ensures
        iter.run(later)[p - iter.start(later)] == pushed.trace().log[p],
{
    iter.lemma_reserved_range(later);
    assert(later.trace().log[p] == pushed.trace().log[p]);
}

/// A position that was read is in no consumer's hands ever after.
pub proof fn law_a_position_is_read_once<T>(read: &UBQ<T>, later: &UBQ<T>, iter: &UBQIter, p: int)
    requires
        p < read.head(),
        !read.trace().claimed.contains(p),
        later.follows(read),
        iter.reserved(later),
    ensures
        !(iter.start(later) <= p < iter.start(later) + iter.remaining()),
{
    assert(!later.trace().claimed.contains(p));
}

/// A claim begins behind all claims before it, whether these have been read or
/// not: no two consumers hold the same position.
pub proof fn law_claims_are_apart<T>(queue: &UBQ<T>, earlier: &UBQIter, later: int)
    requires
        queue.wf(),
        earlier.reserved(queue),
        earlier.remaining() > 0,
        later >= queue.head(),
    ensures
        earlier.start(queue) + earlier.remaining() <= later,
{
    earlier.lemma_reserved_range(queue);
}

/// The same of producers: a reservation begins behind all that are not written
/// yet.
pub proof fn law_reservations_are_apart<T>(
    queue: &UBQ<T>,
    earlier: &Reservation<T>,
    later: int,
)
    requires
        queue.wf(),
        earlier.held(queue),
        earlier.remaining() > 0,
        later >= queue.tail(),
    ensures
        earlier.start(queue) + earlier.remaining() <= later,
{
    assert(queue.trace@.pending.contains(earlier.start(queue) + earlier.len - 1));
}

/// What came of a try to read.
pub enum TryNext<T> {
    /// The next value.
    Value(T),
    /// The producer of the next position has not written it yet.
    Wait,
    /// All positions have been read.
    End,
}

/// A uniquely owned run of reserved positions.
pub struct UBQIter {
    block: usize,
    index: usize,
    len: usize,
    number: Ghost<int>,
}

impl UBQIter {
    /// Positions left to read.
    pub closed spec fn remaining(&self) -> int {
        self.len as int
    }

    /// The next position.
    pub closed spec fn start<T>(&self, queue: &UBQ<T>) -> int {
        position(queue.length(), self.number@, self.index as int)
    }

    /// Every position of the run is claimed in `queue` and still unread.
    pub closed spec fn reserved<T>(&self, queue: &UBQ<T>) -> bool {
        self.len > 0 ==> {
            &&& 0 <= self.number@ < queue.trace@.ids.len()
            &&& self.block == queue.trace@.ids[self.number@]
            &&& self.index < queue.length()
            &&& forall|p: int|
                self.start(queue) <= p < self.start(queue) + self.len
                    ==> #[trigger] queue.trace@.claimed.contains(p)
        }
    }

    /// What the run holds, in order.
    pub open spec fn run<T>(&self, queue: &UBQ<T>) -> Seq<Option<T>> {
        if self.remaining() == 0 {
            Seq::empty()
        } else {
            queue.trace().log.subrange(
                self.start(queue),
                self.start(queue) + self.remaining(),
            )
        }
    }

    fn empty() -> (iter: Self)
        ensures
            iter.len == 0,
    {
        UBQIter { block: 0, index: 0, len: 0, number: Ghost(0) }
    }

    /// The most values that can still come.
    pub fn size_hint(&self) -> (most: usize)
        ensures
            most == self.remaining(),
    {
        self.len
    }

    /// Reads one position of the run: its value, or nothing if it was skipped.
    fn step<T>(&mut self, queue: &mut UBQ<T>) -> (value: Option<T>)
        requires
            old(queue).wf(),
            old(self).reserved(old(queue)),
            old(self).len > 0,
            !old(queue).trace().pending.contains(old(self).start(old(queue))),
        ensures
            final(queue).wf(),
            final(queue).follows(old(queue)),
            final(queue).codec() == old(queue).codec(),
            final(queue).allocated() == old(queue).allocated(),
            final(self).reserved(final(queue)),
            ({
                let p = old(self).start(old(queue));
                &&& 0 <= p < old(queue).trace().log.len()
                &&& value == old(queue).trace().log[p]
                &&& final(self).remaining() == old(self).remaining() - 1
                &&& final(self).start(final(queue)) == p + 1
                &&& final(queue).trace() == (Trace {
                    owner: final(queue).trace().owner,
                    claimed: old(queue).trace().claimed.remove(p),
                    ..old(queue).trace()
                })
            }),
    {
        let length: usize = queue.block_length();
        let block: usize = self.block;
        let ghost number = self.number@;
        let ghost l = queue.length();
        proof {
            queue.lemma_claimed_slot(number, self.index as int);
            lemma_position_next(l, number);
        }
        let next: Option<usize> = queue.blocks[block].next;
        let value = queue.complete(block, self.index, Ghost(number));
        self.index = self.index + 1;
        self.len = self.len - 1;
        if self.index == length {
            self.block = match next {
                Some(next) => next,
                None => 0,
            };
            self.index = 0;
            self.number = Ghost(number + 1);
            proof {
                if self.len > 0 {
                    assert(queue.trace@.claimed.contains(position(l, number + 1, 0)));
                    assert(position(l, number + 1, 0) < queue.head());
                    let last = queue.trace@.ids.len() - 1;
                    if last <= number {
                        if last < number {
                            lemma_position_order(l, last, number);
                        }
                        if queue.trace@.head_block < last {
                            lemma_position_order(l, queue.trace@.head_block, last);
                        }
                        assert(false);
                    }
                }
            }
        }
        value
    }

    /// Every position of the run has been written or skipped.
    pub open spec fn settled<T>(&self, queue: &UBQ<T>) -> bool {
        forall|p: int|
            self.start(queue) <= p < self.start(queue) + self.remaining()
                ==> !#[trigger] queue.trace().pending.contains(p)
    }

    /// Reads the next value of the run, passing over skipped positions, unless
    /// it has to wait for a producer.
    #[verifier::spinoff_prover]
    #[verifier::rlimit(30)]
    pub fn try_next<T>(&mut self, queue: &mut UBQ<T>) -> (outcome: TryNext<T>)
        requires
            old(queue).wf(),
            old(self).reserved(old(queue)),
        ensures
            final(queue).wf(),
            final(queue).follows(old(queue)),
            final(queue).codec() == old(queue).codec(),
            final(queue).allocated() == old(queue).allocated(),
            final(self).reserved(final(queue)),
            ({
                let from = old(self).start(old(queue));
                let run = old(self).run(old(queue));
                let passed = old(self).remaining() - final(self).remaining();
                let pending = old(queue).trace().pending;
                &&& 0 <= passed <= old(self).remaining()
                &&& final(self).start(final(queue)) == from + passed
                &&& forall|p: int|
                    from <= p < from + passed ==> !#[trigger] pending.contains(p)
                &&& match outcome {
                    TryNext::Value(value) => {
                        &&& passed > 0
                        &&& run[passed - 1] == Some(value)
                        &&& forall|i: int| 0 <= i < passed - 1 ==> #[trigger] run[i] is None
                    },
                    TryNext::Wait => {
                        &&& passed < old(self).remaining()
                        &&& pending.contains(from + passed)
                        &&& forall|i: int| 0 <= i < passed ==> #[trigger] run[i] is None
                    },
                    TryNext::End => {
                        &&& passed == old(self).remaining()
                        &&& forall|i: int| 0 <= i < passed ==> #[trigger] run[i] is None
                    },
                }
                &&& final(queue).trace() == (Trace {
                    owner: final(queue).trace().owner,
                    claimed: old(queue).trace().claimed.difference(span(from, from + passed)),
                    ..old(queue).trace()
                })
            }),
    {
        let ghost from = self.start(queue);
        let ghost count = self.len as int;
        let ghost t = queue.trace@;
        let ghost run = self.run(queue);
        proof {
            assert(t.claimed.difference(span(from, from)) =~= t.claimed);
            self.lemma_reserved_range(queue);
        }
        while self.len != 0
            invariant
                queue.wf(),
                queue.codec() == old(queue).codec(),
                queue.allocated() == old(queue).allocated(),
                self.reserved(queue),
                0 <= self.len <= count,
                count == old(self).remaining(),
                from == old(self).start(old(queue)),
                self.start(queue) == from + (count - self.len),
                t == old(queue).trace(),
                run == old(self).run(old(queue)),
                count > 0 ==> 0 <= from && from + count <= t.log.len() && run == t.log.subrange(
                    from,
                    from + count,
                ),
                forall|i: int| 0 <= i < count - self.len ==> #[trigger] run[i] is None,
                forall|p: int|
                    from <= p < from + (count - self.len) ==> !#[trigger] t.pending.contains(p),
                queue.trace() == (Trace {
                    owner: queue.trace().owner,
                    claimed: t.claimed.difference(span(from, from + (count - self.len))),
                    ..t
                }),
            decreases self.len,
        {
            let ghost done = count - self.len;
            if !self.is_ready(queue) {
                return TryNext::Wait;
            }
            let value = self.step(queue);
            proof {
                assert(t.claimed.difference(span(from, from + done)).remove(from + done)
                    =~= t.claimed.difference(span(from, from + done + 1)));
                assert(run[done] == value);
            }
            if let Some(value) = value {
                return TryNext::Value(value);
            }
        }
        TryNext::End
    }

    /// Whether the next position has been written or skipped.
    fn is_ready<T>(&self, queue: &UBQ<T>) -> (ready: bool)
        requires
            queue.wf(),
            self.reserved(queue),
            self.len > 0,
        ensures
            ready == !queue.trace().pending.contains(self.start(queue)),
    {
        proof {
            queue.lemma_claimed_slot(self.number@, self.index as int);
        }
        queue.blocks[self.block].slots[self.index].acquire_state() != ZERO
    }

    /// Reads the next value of the run, passing over skipped positions.
    pub fn next<T>(&mut self, queue: &mut UBQ<T>) -> (value: Option<T>)
        requires
            old(queue).wf(),
            old(self).reserved(old(queue)),
            old(self).settled(old(queue)),
        ensures
            final(queue).wf(),
            final(queue).follows(old(queue)),
            final(queue).codec() == old(queue).codec(),
            final(queue).allocated() == old(queue).allocated(),
            final(self).reserved(final(queue)),
            final(self).settled(final(queue)),
            ({
                let run = old(self).run(old(queue));
                let passed = old(self).remaining() - final(self).remaining();
                &&& 0 <= passed <= old(self).remaining()
                &&& final(self).start(final(queue)) == old(self).start(old(queue)) + passed
                &&& match value {
                    Some(value) => {
                        &&& passed > 0
                        &&& run[passed - 1] == Some(value)
                        &&& forall|i: int| 0 <= i < passed - 1 ==> #[trigger] run[i] is None
                    },
                    None => {
                        &&& passed == old(self).remaining()
                        &&& forall|i: int| 0 <= i < passed ==> #[trigger] run[i] is None
                    },
                }
                &&& final(queue).trace() == (Trace {
                    owner: final(queue).trace().owner,
                    claimed: old(queue).trace().claimed.difference(
                        span(
                            old(self).start(old(queue)),
                            old(self).start(old(queue)) + passed,
                        ),
                    ),
                    ..old(queue).trace()
                })
            }),
    {
        match self.try_next(queue) {
            TryNext::Value(value) => Some(value),
            _ => None,
        }
    }

    /// Reads the whole run into `values`.
    #[verifier::spinoff_prover]
    #[verifier::rlimit(30)]
    pub fn append_to_vec<T>(self, queue: &mut UBQ<T>, values: &mut Vec<T>)
        requires
            old(queue).wf(),
            self.reserved(old(queue)),
            self.settled(old(queue)),
        ensures
            final(queue).wf(),
            final(queue).follows(old(queue)),
            final(queue).codec() == old(queue).codec(),
            final(queue).allocated() == old(queue).allocated(),
            final(values)@ == old(values)@ + present(self.run(old(queue))),
            final(queue).trace() == (Trace {
                owner: final(queue).trace().owner,
                claimed: old(queue).trace().claimed.difference(
                    span(
                        self.start(old(queue)),
                        self.start(old(queue)) + self.remaining(),
                    ),
                ),
                ..old(queue).trace()
            }),
    {
        let mut iter = self;
        let ghost from = self.start(queue);
        let ghost count = self.len as int;
        let ghost t = queue.trace@;
        let ghost run = self.run(queue);
        proof {
            assert(t.claimed.difference(span(from, from)) =~= t.claimed);
            self.lemma_reserved_range(queue);
            assert(run.skip(0) =~= run);
        }
        while iter.len != 0
            invariant
                queue.wf(),
                queue.codec() == old(queue).codec(),
                queue.allocated() == old(queue).allocated(),
                iter.reserved(queue),
                0 <= iter.len <= count,
                run.len() == count,
                iter.start(queue) == from + (count - iter.len),
                forall|p: int|
                    from <= p < from + count ==> !#[trigger] t.pending.contains(p),
                count > 0 ==> 0 <= from && from + count <= t.log.len() && run == t.log.subrange(
                    from,
                    from + count,
                ),
                values@ + present(run.skip(count - iter.len)) == old(values)@ + present(run),
                t == old(queue).trace(),
                queue.trace() == (Trace {
                    owner: queue.trace().owner,
                    claimed: t.claimed.difference(span(from, from + (count - iter.len))),
                    ..t
                }),
            decreases iter.len,
        {
            let ghost done = count - iter.len;
            let ghost rest = run.skip(done);
            let ghost before = values@;
            let value = iter.step(queue);
            proof {
                assert(t.claimed.difference(span(from, from + done)).remove(from + done)
                    =~= t.claimed.difference(span(from, from + done + 1)));
                assert(rest.first() == value);
                assert(rest.drop_first() =~= run.skip(done + 1));
            }
            if let Some(value) = value {
                values.push(value);
                proof {
                    let later = present(run.skip(done + 1));
                    assert(before + (seq![value] + later) =~= before.push(value) + later);
                }
            }
        }
        proof {
            assert(run.skip(count) =~= Seq::<Option<T>>::empty());
            assert(values@ + Seq::<T>::empty() =~= values@);
        }
    }

    /// A run lies inside the written history.
    pub proof fn lemma_reserved_range<T>(&self, queue: &UBQ<T>)
        requires
            queue.wf(),
            self.reserved(queue),
        ensures
            self.remaining() > 0 ==> 0 <= self.start(queue) && self.start(queue) + self.remaining()
                <= queue.head() && self.start(queue) + self.remaining() <= queue.trace().log.len(),
    {
        if self.len > 0 {
            assert(queue.trace@.claimed.contains(self.start(queue)));
            assert(queue.trace@.claimed.contains(self.start(queue) + self.len - 1));
        }
    }

    /// A run stays valid, with the same positions, as long as blocks are only
    /// added to the chain and its positions stay claimed.
    pub proof fn lemma_reserved_kept<T>(&self, before: &UBQ<T>, after: &UBQ<T>)
        requires
            self.reserved(before),
            after.codec() == before.codec(),
            before.trace().ids.is_prefix_of(after.trace().ids),
            forall|p: int|
                self.start(before) <= p < self.start(before) + self.remaining()
                    ==> #[trigger] after.trace().claimed.contains(p),
        ensures
            self.reserved(after),
            self.start(after) == self.start(before),
    {
    }
}

impl<T> UBQ<T> {
    /// A claimed position is in a live block and reserved.
    proof fn lemma_claimed_slot(&self, k: int, i: int)
        requires
            self.wf(),
            0 <= k < self.trace@.ids.len(),
            0 <= i < self.length(),
            self.trace@.claimed.contains(position(self.length(), k, i)),
        ensures
            self.trace@.live(k),
            self.block_wf(k),
            self.slot_wf(k, i),
            0 <= position(self.length(), k, i) < self.trace@.log.len(),
            k < self.trace@.ids.len() - 1 ==> self.blocks@[self.trace@.ids[k] as int].next == Some(
                self.trace@.ids[k + 1],
            ),
    {
        let l = self.length();
        assert(self.trace@.claimed.contains(position(l, k, i)));
        assert(self.trace@.live(k));
        assert(self.block_wf(k));
        assert(self.slot_wf(k, i));
    }

    /// Takes a claimed position out of its slot and counts it as consumed. The
    /// last one of a block detaches the block: it becomes the pooled block if
    /// there is none, and a spare one otherwise.
    fn complete(&mut self, id: usize, index: usize, number: Ghost<int>) -> (value: Option<T>)
        requires
            old(self).wf(),
            0 <= number@ < old(self).trace@.ids.len(),
            id == old(self).trace@.ids[number@],
            index < old(self).length(),
            old(self).trace@.claimed.contains(
                position(old(self).length(), number@, index as int),
            ),
            !old(self).trace@.pending.contains(
                position(old(self).length(), number@, index as int),
            ),
        ensures
            final(self).wf(),
            final(self).head_codec == old(self).head_codec,
            final(self).blocks@.len() == old(self).blocks@.len(),
            ({
                let p = position(old(self).length(), number@, index as int);
                &&& 0 <= p < old(self).trace@.log.len()
                &&& value == old(self).trace@.log[p]
                &&& final(self).trace@ == (Trace {
                    owner: final(self).trace@.owner,
                    claimed: old(self).trace@.claimed.remove(p),
                    ..old(self).trace@
                })
            }),
    {
        let ghost l = self.length();
        let ghost k = number@;
        let ghost p = position(l, k, index as int);
        proof {
            self.lemma_claimed_slot(k, index as int);
            self.lemma_words(Seq::empty());
        }
        let length: usize = self.block_length();
        let value = self.blocks[id].slots[index].read();
        let consumed: usize = self.blocks[id].consumed + 1;
        self.blocks[id].consumed = consumed;
        let ghost flags = old(self).blocks@[id as int].done@;
        let ghost now = flags.update(index as int, true);
        self.blocks[id].done = Ghost(now);
        proof {
            lemma_count_set(flags, index as int);
            lemma_count_bound(now);
        }
        if consumed == length {
            self.blocks[id].next = None;
            self.reset_block(id);
            match self.pool {
                None => {
                    self.pool = Some(id);
                },
                Some(_) => {
                    self.spare.push(id);
                },
            }
            self.trace = Ghost(
                Trace {
                    owner: self.trace@.owner.update(id as int, -1),
                    claimed: self.trace@.claimed.remove(p),
                    ..self.trace@
                },
            );
            proof {
                assert forall|i: int| 0 <= i < l && i != index implies #[trigger] flags[i] by {
                    assert(now[i]);
                }
                old(self).lemma_detach(self, k, index as int);
            }
        } else {
            self.trace = Ghost(
                Trace { claimed: self.trace@.claimed.remove(p), ..self.trace@ },
            );
            proof {
                old(self).lemma_consume(self, k, index as int);
            }
        }
        value
    }

    /// Makes every slot of a block fresh and clears its count.
    fn reset_block(&mut self, id: usize)
        requires
            id < old(self).blocks@.len(),
            old(self).blocks@[id as int].slots@.len() == old(self).length(),
        ensures
            final(self).head_codec == old(self).head_codec,
            final(self).blocks@.len() == old(self).blocks@.len(),
            final(self).phead == old(self).phead,
            final(self).chead == old(self).chead,
            final(self).pool == old(self).pool,
            final(self).spare == old(self).spare,
            final(self).trace == old(self).trace,
            final(self).blocks@.len() == old(self).blocks@.len(),
            forall|other: int|
                0 <= other < old(self).blocks@.len() && other != id
                    ==> #[trigger] final(self).blocks@[other] == old(self).blocks@[other],
            final(self).blank(id as int),
            final(self).blocks@[id as int].next == old(self).blocks@[id as int].next,
    {
        let length: usize = self.block_length();
        let mut index: usize = 0;
        while index < length
            invariant
                length == self.length(),
                index <= length,
                id < self.blocks@.len(),
                self.head_codec == old(self).head_codec,
                self.blocks@.len() == old(self).blocks@.len(),
                self.phead == old(self).phead,
                self.chead == old(self).chead,
                self.pool == old(self).pool,
                self.spare == old(self).spare,
                self.trace == old(self).trace,
                self.blocks@.len() == old(self).blocks@.len(),
                self.blocks@[id as int].slots@.len() == length,
                self.blocks@[id as int].next == old(self).blocks@[id as int].next,
                forall|other: int|
                    0 <= other < old(self).blocks@.len() && other != id
                        ==> #[trigger] self.blocks@[other] == old(self).blocks@[other],
                forall|i: int|
                    0 <= i < index ==> (#[trigger] self.blocks@[id as int].slots@[i]).fresh(),
            decreases length - index,
        {
            self.blocks[id].slots[index].reset();
            index = index + 1;
        }
        self.blocks[id].consumed = 0;
        self.blocks[id].done = Ghost(Seq::new(length as nat, |i: int| false));
    }

    /// Reading one claimed position changes nothing else in a live block.
    proof fn lemma_consume_block(&self, after: &Self, k: int, index: int, m: int)
        requires
            self.wf(),
            0 <= k < self.trace@.ids.len(),
            0 <= index < self.length(),
            self.trace@.claimed.contains(position(self.length(), k, index)),
            !self.trace@.pending.contains(position(self.length(), k, index)),
            self.trace@.live(m),
            after.head_codec == self.head_codec,
            after.trace@ == (Trace {
                owner: after.trace@.owner,
                claimed: self.trace@.claimed.remove(position(self.length(), k, index)),
                ..self.trace@
            }),
            m != k ==> after.blocks@[self.trace@.ids[m] as int]
                == self.blocks@[self.trace@.ids[m] as int],
            m == k ==> {
                let b = self.blocks@[self.trace@.ids[k] as int];
                let c = after.blocks@[self.trace@.ids[k] as int];
                &&& c.next == b.next
                &&& c.consumed == count(c.done@)
                &&& c.consumed < self.length()
                &&& c.done@ == b.done@.update(index, true)
                &&& c.slots@.len() == b.slots@.len()
                &&& forall|i: int|
                    0 <= i < self.length() && i != index ==> #[trigger] c.slots@[i] == b.slots@[i]
                &&& c.slots@[index].status() == b.slots@[index].status()
                &&& c.slots@[index].content() is None
            },
        ensures
            after.block_wf(m),
    {
        let l = self.length();
        let p = position(l, k, index);
        self.lemma_claimed_slot(k, index);
        self.lemma_words(Seq::empty());
        assert(self.block_wf(m));
        assert forall|i: int| 0 <= i < l implies #[trigger] after.slot_wf(m, i) by {
            assert(self.slot_wf(m, i));
            if position(l, m, i) == p {
                lemma_position_injective(l, m, i, k, index);
            }
        }
    }

    /// Reading a position of a block that is not finished by it.
    proof fn lemma_consume(&self, after: &Self, k: int, index: int)
        requires
            self.wf(),
            0 <= k < self.trace@.ids.len(),
            0 <= index < self.length(),
            self.trace@.claimed.contains(position(self.length(), k, index)),
            !self.trace@.pending.contains(position(self.length(), k, index)),
            after.head_codec == self.head_codec,
            after.phead == self.phead,
            after.chead == self.chead,
            after.pool == self.pool,
            after.spare == self.spare,
            after.trace@ == (Trace {
                claimed: self.trace@.claimed.remove(position(self.length(), k, index)),
                ..self.trace@
            }),
            after.blocks@.len() == self.blocks@.len(),
            forall|other: int|
                0 <= other < self.blocks@.len() && other != self.trace@.ids[k]
                    ==> #[trigger] after.blocks@[other] == self.blocks@[other],
            ({
                let b = self.blocks@[self.trace@.ids[k] as int];
                let c = after.blocks@[self.trace@.ids[k] as int];
                &&& c.next == b.next
                &&& c.consumed == count(c.done@)
                &&& c.consumed < self.length()
                &&& c.done@ == b.done@.update(index, true)
                &&& c.slots@.len() == b.slots@.len()
                &&& forall|i: int|
                    0 <= i < self.length() && i != index ==> #[trigger] c.slots@[i] == b.slots@[i]
                &&& c.slots@[index].status() == b.slots@[index].status()
                &&& c.slots@[index].content() is None
            }),
        ensures
            after.wf(),
    {
        let t = self.trace@;
        let u = after.trace@;
        let l = self.length();
        let empty = Seq::<usize>::empty();
        self.lemma_claimed_slot(k, index);
        assert forall|m: int| #[trigger] u.live(m) == t.live(m) by {}
        assert forall|m: int| u.head_block <= m < u.ids.len() implies #[trigger] u.live(m) by {
            assert(t.live(m));
        }
        assert forall|m: int, i: int|
            0 <= m < u.ids.len() && 0 <= i < l && u.claimed.contains(
                #[trigger] position(l, m, i),
            ) implies u.live(m) by {
            assert(t.live(m));
        }
        assert(after.detached(empty) =~= self.detached(empty));
        assert forall|j: int|
            0 <= j < after.detached(empty).len() implies (#[trigger] after.detached(empty)[j])
            < u.owner.len() && u.owner[after.detached(empty)[j] as int] < 0 && after.blank(
            after.detached(empty)[j] as int,
        ) by {
            assert(self.blank(self.detached(empty)[j] as int));
        }
        assert forall|m: int| #[trigger] u.live(m) implies after.block_wf(m) by {
            self.lemma_consume_block(after, k, index, m);
        }
    }

    /// Reading the last unread position of a block and detaching the block.
    proof fn lemma_detach(&self, after: &Self, k: int, index: int)
        requires
            self.wf(),
            0 <= k < self.trace@.ids.len(),
            0 <= index < self.length(),
            self.trace@.claimed.contains(position(self.length(), k, index)),
            !self.trace@.pending.contains(position(self.length(), k, index)),
            after.head_codec == self.head_codec,
            after.phead == self.phead,
            after.chead == self.chead,
            match self.pool {
                None => after.pool == Some(self.trace@.ids[k]) && after.spare@ == self.spare@,
                Some(_) => after.pool == self.pool && after.spare@ == self.spare@.push(
                    self.trace@.ids[k],
                ),
            },
            after.trace@ == (Trace {
                owner: self.trace@.owner.update(self.trace@.ids[k] as int, -1),
                claimed: self.trace@.claimed.remove(position(self.length(), k, index)),
                ..self.trace@
            }),
            after.blocks@.len() == self.blocks@.len(),
            forall|other: int|
                0 <= other < self.blocks@.len() && other != self.trace@.ids[k]
                    ==> #[trigger] after.blocks@[other] == self.blocks@[other],
            after.blank(self.trace@.ids[k] as int),
            forall|i: int|
                0 <= i < self.length() && i != index
                    ==> #[trigger] self.blocks@[self.trace@.ids[k] as int].done@[i],
        ensures
            after.wf(),
    {
        let t = self.trace@;
        let u = after.trace@;
        let l = self.length();
        let id = t.ids[k] as int;
        let empty = Seq::<usize>::empty();
        self.lemma_claimed_slot(k, index);
        self.lemma_words(empty);
        // Every position of the block has been read, so the head is past it.
        assert forall|i: int| 0 <= i < l && i != index implies position(l, k, i) < self.head()
            && !t.claimed.contains(#[trigger] position(l, k, i)) by {
            assert(self.slot_wf(k, i));
            assert(self.blocks@[id].done@[i]);
        }
        assert(k < t.head_block) by {
            if k == t.head_block {
                let i = t.head_index;
                if i != index {
                    assert(position(l, k, i) < self.head());
                }
            } else if k > t.head_block {
                lemma_position_order(l, t.head_block, k);
            }
        }
        assert forall|m: int| #[trigger] u.live(m) <==> (t.live(m) && m != k) by {
            if 0 <= m < t.ids.len() && t.ids[m] == id {
            }
        }
        assert forall|x: int| 0 <= x < u.owner.len() implies #[trigger] u.owner[x] < 0 || (
        u.owner[x] < u.ids.len() && u.ids[u.owner[x]] == x) by {
            assert(x == id || u.owner[x] == t.owner[x]);
        }
        let gone = self.detached(empty);
        let now = after.detached(empty);
        let at = self.spare@.len() as int;
        assert forall|j: int| 0 <= j < now.len() implies now[j] == (if j < at {
            gone[j]
        } else if j == at {
            id as usize
        } else {
            gone[j - 1]
        }) by {}
        assert forall|j: int| 0 <= j < gone.len() implies gone[j] != id by {}
        assert(now.no_duplicates());
        assert forall|j: int| 0 <= j < now.len() implies (#[trigger] now[j]) < u.owner.len()
            && u.owner[now[j] as int] < 0 && after.blank(now[j] as int) by {
            if j < at {
                assert(self.blank(gone[j] as int));
            } else if j > at {
                assert(self.blank(gone[j - 1] as int));
            }
        }
        assert forall|m: int| u.head_block <= m < u.ids.len() implies #[trigger] u.live(m) by {
            assert(t.live(m));
        }
        assert forall|m: int, i: int|
            0 <= m < u.ids.len() && 0 <= i < l && u.claimed.contains(
                #[trigger] position(l, m, i),
            ) implies u.live(m) by {
            assert(t.live(m));
            if m == k {
                assert(i != index);
            }
        }
        assert forall|m: int| #[trigger] u.live(m) implies after.block_wf(m) by {
            assert(t.live(m) && m != k);
            self.lemma_consume_block(after, k, index, m);
        }
    }

    /// Removes the front position, if there is one, and returns its value,
    /// nothing for a skipped position.
    fn pop_position(&mut self) -> (value: Option<Option<T>>)
        requires
            old(self).wf(),
            old(self).waiting().len() > 0 ==> !old(self).trace().pending.contains(
                old(self).head(),
            ),
        ensures
            final(self).wf(),
            final(self).follows(old(self)),
            final(self).codec() == old(self).codec(),
            final(self).allocated() <= old(self).allocated(),
            final(self).trace().log == old(self).trace().log,
            final(self).trace().pending == old(self).trace().pending,
            final(self).trace().claimed == old(self).trace().claimed,
            if old(self).waiting().len() == 0 {
                &&& value is None
                &&& final(self).head() == old(self).head()
                &&& final(self).waiting() == old(self).waiting()
            } else {
                &&& value == Some(old(self).waiting()[0])
                &&& final(self).head() == old(self).head() + 1
                &&& final(self).waiting() == old(self).waiting().skip(1)
            },
    {
        let mut iter = self.pop_batch(1);
        let ghost between = *self;
        proof {
            iter.lemma_reserved_range(self);
        }
        let none = iter.len == 0;
        let value = iter.next(self);
        proof {
            self.lemma_words(Seq::empty());
            assert(self.trace@.claimed =~= old(self).trace@.claimed);
            assert(old(self).waiting().skip(0) =~= old(self).waiting());
            assert(self.waiting() =~= between.waiting());
        }
        if none {
            None
        } else {
            Some(value)
        }
    }

    /// Removes and returns the front value. Nothing comes back exactly from a
    /// queue without values. Skipped positions in front go with it.
    pub fn pop(&mut self) -> (value: Option<T>)
        requires
            old(self).wf(),
            old(self).front_settled(),
        ensures
            final(self).wf(),
            final(self).follows(old(self)),
            final(self).codec() == old(self).codec(),
            final(self).allocated() <= old(self).allocated(),
            final(self).trace().log == old(self).trace().log,
            final(self).trace().pending == old(self).trace().pending,
            final(self).trace().claimed == old(self).trace().claimed,
            if present(old(self).waiting()).len() == 0 {
                &&& value is None
                &&& final(self).waiting() == Seq::<Option<T>>::empty()
            } else {
                &&& value == Some(present(old(self).waiting())[0])
                &&& final(self).waiting() == old(self).waiting().skip(
                    lead(old(self).waiting()) + 1,
                )
                &&& present(final(self).waiting()) == present(old(self).waiting()).skip(1)
            },
    {
        let ghost run = self.waiting();
        let ghost mut gone: int = 0;
        proof {
            self.lemma_words(Seq::empty());
            law_the_first_value_follows_the_lead(run);
            assert(run.skip(0) =~= run);
        }
        loop
            invariant
                old(self).wf(),
                old(self).front_settled(),
                run == old(self).waiting(),
                0 <= gone <= lead(run) <= run.len(),
                forall|i: int| 0 <= i < lead(run) ==> #[trigger] run[i] is None,
                lead(run) == run.len() <==> present(run).len() == 0,
                lead(run) < run.len() ==> {
                    &&& run[lead(run)] == Some(present(run)[0])
                    &&& present(run.skip(lead(run) + 1)) == present(run).skip(1)
                },
                self.wf(),
                self.follows(old(self)),
                self.codec() == old(self).codec(),
                self.allocated() <= old(self).allocated(),
                self.trace().log == old(self).trace().log,
                self.trace().pending == old(self).trace().pending,
                self.trace().claimed == old(self).trace().claimed,
                self.head() == old(self).head() + gone,
                self.waiting() == run.skip(gone),
            decreases run.len() - gone,
        {
            let ghost before = *self;
            proof {
                self.lemma_words(Seq::empty());
                old(self).lemma_words(Seq::empty());
            }
            let found = self.pop_position();
            proof {
                law_histories_join(old(self), &before, self);
                if gone < run.len() {
                    assert(run.skip(gone).skip(1) =~= run.skip(gone + 1));
                }
            }
            match found {
                None => {
                    assert(run.skip(gone) =~= Seq::<Option<T>>::empty());
                    return None;
                },
                Some(Some(value)) => {
                    assert(gone == lead(run));
                    return Some(value);
                },
                Some(None) => {
                    proof {
                        gone = gone + 1;
                    }
                },
            }
        }
    }
}

/// Which values are among some positions goes position by position: those of the
/// first positions and then those of the others, one for a position with a value
/// and none for one that is skipped.
pub proof fn law_values_position_by_position<T>(
    first: Seq<Option<T>>,
    others: Seq<Option<T>>,
    value: T,
)
    ensures
        present(first + others) == present(first) + present(others),
        present(seq![Some(value)]) == seq![value],
        present(seq![None::<T>]) == Seq::<T>::empty(),
        present(Seq::<Option<T>>::empty()) == Seq::<T>::empty(),
    decreases first.len(),
{
    assert(seq![Some(value)].drop_first() =~= Seq::<Option<T>>::empty());
    assert(present(seq![Some(value)].drop_first()) =~= Seq::<T>::empty());
    assert(present(seq![Some(value)]) =~= seq![value]);
    assert(seq![None::<T>].drop_first() =~= Seq::<Option<T>>::empty());
    assert(present(seq![None::<T>]) =~= Seq::<T>::empty());
    if first.len() == 0 {
        assert(first + others =~= others);
        assert(present(first) + present(others) =~= present(others));
    } else {
        law_values_position_by_position(first.drop_first(), others, value);
        assert((first + others).drop_first() =~= first.drop_first() + others);
        assert((first + others).first() == first.first());
        assert(present(first + others) =~= present(first) + present(others));
    }
}

/// A push reserves as many positions as it announced. Its values are in the first
/// of them in their order, as far as the positions go, and the others are skipped.
pub proof fn law_what_a_push_reserves<T>(items: Seq<T>, len: int)
    requires
        0 <= len,
    ensures
        announced(items, len).len() == len,
        len <= items.len() ==> present(announced(items, len)) == items.take(len),
        items.len() <= len ==> present(announced(items, len)) == items,
    decreases len,
{
    let all = announced(items, len);
    if len == 0 {
        assert(all =~= Seq::<Option<T>>::empty());
        assert(items.take(0) =~= Seq::<T>::empty());
        if items.len() == 0 {
            assert(items =~= Seq::<T>::empty());
        }
    } else {
        let before = announced(items, len - 1);
        law_what_a_push_reserves(items, len - 1);
        let last = all[len - 1];
        assert(all =~= before + seq![last]);
        if len <= items.len() {
            law_values_position_by_position(before, seq![last], items[len - 1]);
            assert(items.take(len) =~= items.take(len - 1) + seq![items[len - 1]]);
            if items.len() == len {
                assert(items.take(len) =~= items);
            }
        } else {
            assert(all =~= before + seq![None::<T>]);
            lemma_skipped_last(before);
        }
    }
}

proof fn lemma_skipped_last<T>(run: Seq<Option<T>>)
    ensures
        present(run + seq![None::<T>]) == present(run),
    decreases run.len(),
{
    let all = run + seq![None::<T>];
    if run.len() == 0 {
        assert(all.drop_first() =~= Seq::<Option<T>>::empty());
        assert(all.first() == None::<T>);
        assert(present(all) == present(all.drop_first()));
        assert(run =~= all.drop_first());
    } else {
        lemma_skipped_last(run.drop_first());
        assert(all.drop_first() =~= run.drop_first() + seq![None::<T>]);
        assert(all.first() == run.first());
    }
}

} // verus!
