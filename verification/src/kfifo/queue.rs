//! An unbounded queue with one producer and many consumers.
//!
//! The producer writes values into fixed-length blocks and then publishes its
//! tail. Consumers reserve ranges of published positions by moving the packed
//! consumer head, and read the reserved slots afterwards, in any order between
//! each other. A block whose slots have all been read goes to a cache and is
//! handed out again.
//!
//! Every value ever written has a position, counted from zero. Position `p`
//! lives in block number `p / length`, and contracts speak of positions: how
//! far the producer has published, how far consumers have reserved, and which
//! reserved positions are still unread.
use std::sync::Arc;
use vstd::prelude::*;

use crate::kfifo::head::{zero_head, Head, HeadCodec};
use crate::position::{
    lemma_position_injective, lemma_position_next, lemma_position_nonnegative,
    lemma_position_order, position, span,
};

verus! {

/// One page of payload slots.
pub struct SpmcBlock<T> {
    slots: Vec<Option<T>>,
    produced: usize,
    consumed: usize,
    next: Option<usize>,
}

/// Number of slots without a value.
pub open spec fn vacant<T>(slots: Seq<Option<T>>) -> nat
    decreases slots.len(),
{
    if slots.len() == 0 {
        0
    } else {
        vacant(slots.drop_last()) + (if slots.last() is None {
            1nat
        } else {
            0nat
        })
    }
}

proof fn lemma_vacant_bound<T>(slots: Seq<Option<T>>)
    ensures
        vacant(slots) <= slots.len(),
        vacant(slots) == slots.len() <==> forall|i: int| 0 <= i < slots.len() ==> slots[i] is None,
    decreases slots.len(),
{
    if slots.len() > 0 {
        lemma_vacant_bound(slots.drop_last());
        let rest = slots.drop_last();
        if vacant(slots) == slots.len() {
            assert forall|i: int| 0 <= i < slots.len() implies slots[i] is None by {
                if i < rest.len() {
                    assert(rest[i] == slots[i]);
                }
            }
        }
        if forall|i: int| 0 <= i < slots.len() ==> slots[i] is None {
            assert forall|i: int| 0 <= i < rest.len() implies rest[i] is None by {
                assert(rest[i] == slots[i]);
            }
        }
    }
}

/// Emptying one slot adds one to the vacant count.
proof fn lemma_vacant_take<T>(slots: Seq<Option<T>>, i: int)
    requires
        0 <= i < slots.len(),
        slots[i] is Some,
    ensures
        vacant(slots.update(i, None)) == vacant(slots) + 1,
    decreases slots.len(),
{
    let after = slots.update(i, None);
    if i == slots.len() - 1 {
        assert(after.drop_last() =~= slots.drop_last());
    } else {
        assert(after.drop_last() =~= slots.drop_last().update(i, None));
        lemma_vacant_take(slots.drop_last(), i);
    }
}

/// What becomes of a claim that was made without the successor hint.
#[derive(Clone, Copy, Debug, PartialEq, Eq, Structural)]
pub enum Resolution {
    /// Everything claimed is published.
    Keep,
    /// Everything claimed is published, and so is the whole block.
    KeepAndHint,
    /// The head goes back to this index.
    Repair(usize),
    /// A later claim sits on top and has to be resolved first.
    Wait,
}

/// Decides a claim from the producer head and the consumer head as they are
/// after the claim was installed.
///
/// A stale exchange can move the consumer head past the published position.
/// Such a claim keeps what is published of it and gives the rest back, unless
/// another claim was stacked on it meanwhile.
pub fn resolve_claim(phead: Head, chead: Head, original: Head, claimed: Head) -> (resolution:
    Resolution)
    ensures
        resolution == (if phead.block != original.block {
            Resolution::KeepAndHint
        } else if phead.index >= claimed.index {
            Resolution::Keep
        } else if chead == claimed {
            Resolution::Repair(
                if phead.index > original.index {
                    phead.index
                } else {
                    original.index
                },
            )
        } else if chead.block != claimed.block || (chead.has_next && chead.index
            >= claimed.index) {
            Resolution::Keep
        } else {
            Resolution::Wait
        }),
{
    if phead.block != original.block {
        return Resolution::KeepAndHint;
    }
    if phead.index >= claimed.index {
        return Resolution::Keep;
    }
    if chead == claimed {
        let repaired: usize = if phead.index > original.index {
            phead.index
        } else {
            original.index
        };
        return Resolution::Repair(repaired);
    }
    if chead.block != claimed.block || (chead.has_next && chead.index >= claimed.index) {
        return Resolution::Keep;
    }
    Resolution::Wait
}

/// The history behind a queue's words and blocks.
pub struct Trace<T> {
    /// Every value written so far, by position.
    pub log: Seq<T>,
    /// Arena block used for each block number.
    pub ids: Seq<usize>,
    /// Block number held by each arena block, negative while it is cached.
    pub owner: Seq<int>,
    /// Block number and index of the consumer head.
    pub head_block: int,
    pub head_index: int,
    /// Whether the consumer head carries the successor hint.
    pub hint: bool,
    /// Block number and index of the published producer head.
    pub published_block: int,
    pub published_index: int,
    /// Positions below the consumer head whose claim is not validated yet.
    pub pending: Set<int>,
    /// Validated positions that have not been read yet.
    pub claimed: Set<int>,
}

/// An unbounded single-producer, multi-consumer queue.
pub struct SPMC<T> {
    blocks: Vec<SpmcBlock<T>>,
    /// Last producer position made visible to consumers.
    phead: usize,
    /// Next unclaimed consumer position.
    chead: usize,
    /// Where the producer writes next.
    tail: Head,
    /// Fully consumed blocks, the latest on top.
    pool: Vec<usize>,
    head_codec: HeadCodec,
    trace: Ghost<Trace<T>>,
}

/// A remainder and an offset below the divisor carry at most one.
proof fn lemma_carry(n: int, at: int, l: int)
    requires
        0 <= n,
        0 <= at < l,
    ensures
        (at + n) / l == n / l + (if n % l >= l - at {
            1int
        } else {
            0int
        }),
{
    let q = n / l;
    let r = n % l;
    vstd::arithmetic::div_mod::lemma_fundamental_div_mod(n, l);
    vstd::arithmetic::div_mod::lemma_mod_bound(n, l);
    if r >= l - at {
        assert(at + n == (q + 1) * l + (r + at - l)) by (nonlinear_arith)
            requires
                n == l * q + r,
        ;
        vstd::arithmetic::div_mod::lemma_fundamental_div_mod_converse(at + n, l, q + 1, r + at - l);
    } else {
        assert(at + n == q * l + (r + at)) by (nonlinear_arith)
            requires
                n == l * q + r,
        ;
        vstd::arithmetic::div_mod::lemma_fundamental_div_mod_converse(at + n, l, q, r + at);
    }
}

impl<T> Trace<T> {
    pub open spec fn head(&self, length: int) -> int {
        position(length, self.head_block, self.head_index)
    }

    pub open spec fn published(&self, length: int) -> int {
        position(length, self.published_block, self.published_index)
    }

    /// The value of a position is still in its slot.
    pub open spec fn stored(&self, length: int, p: int) -> bool {
        0 <= p < self.log.len() && (p >= self.head(length) || self.pending.contains(p)
            || self.claimed.contains(p))
    }

    /// Block number `k` has not been recycled.
    pub open spec fn live(&self, k: int) -> bool {
        &&& 0 <= k < self.ids.len()
        &&& 0 <= self.ids[k] < self.owner.len()
        &&& self.owner[self.ids[k] as int] == k
    }
}

impl<T> SPMC<T> {
    pub closed spec fn codec(&self) -> HeadCodec {
        self.head_codec
    }

    pub open spec fn length(&self) -> int {
        self.codec().length() as int
    }

    pub closed spec fn trace(&self) -> Trace<T> {
        self.trace@
    }

    /// Arena blocks allocated so far.
    pub closed spec fn allocated(&self) -> nat {
        self.blocks@.len()
    }

    pub closed spec fn cached(&self) -> Seq<usize> {
        self.pool@
    }

    /// The packed consumer head.
    pub closed spec fn consumer_word(&self) -> usize {
        self.chead
    }

    /// The packed producer head.
    pub closed spec fn producer_word(&self) -> usize {
        self.phead
    }

    /// Position of the consumer head.
    pub open spec fn head(&self) -> int {
        self.trace().head(self.length())
    }

    /// Position up to which values are published.
    pub open spec fn published(&self) -> int {
        self.trace().published(self.length())
    }

    /// Published values that no consumer has claimed, oldest first.
    pub open spec fn waiting(&self) -> Seq<T> {
        if self.head() <= self.published() {
            self.trace().log.subrange(self.head(), self.published())
        } else {
            Seq::empty()
        }
    }

    /// No claim is unvalidated and the head is not parked on a block's end.
    pub open spec fn settled(&self) -> bool {
        self.trace().pending =~= Set::empty() && self.trace().head_index < self.length()
    }

    /// The head stands on the end of a block, and this is the block's last
    /// position. Whoever holds it leads the head on before reading it.
    pub open spec fn keeps_head(&self, p: int) -> bool {
        self.trace().head_index == self.length() && p == self.head() - 1
    }

    /// The value of a position has left the queue.
    pub open spec fn is_read(&self, p: int) -> bool {
        &&& 0 <= p < self.head()
        &&& !self.trace().pending.contains(p)
        &&& !self.trace().claimed.contains(p)
    }

    /// This state can come after `before`: values and blocks are only added,
    /// and what was read stays read.
    pub open spec fn follows(&self, before: &Self) -> bool {
        &&& self.codec() == before.codec()
        &&& before.trace().log.is_prefix_of(self.trace().log)
        &&& before.trace().ids.is_prefix_of(self.trace().ids)
        &&& before.published() <= self.published()
        &&& forall|p: int| before.is_read(p) ==> #[trigger] self.is_read(p)
    }

    /// Every slot of block number `k` has been read.
    pub open spec fn is_finished(&self, k: int) -> bool {
        forall|i: int|
            0 <= i < self.length() ==> #[trigger] self.is_read(position(self.length(), k, i))
    }

    /// The blocks among those numbered `from` to `to` that have been read to
    /// the end, without block `to` itself.
    pub open spec fn finished(&self, from: int, to: int) -> Seq<usize>
        decreases to - from,
    {
        if to <= from {
            Seq::empty()
        } else if self.is_finished(to - 1) {
            self.finished(from, to - 1).push(self.trace().ids[to - 1])
        } else {
            self.finished(from, to - 1)
        }
    }

    /// `n` blocks were attached since `before`. They came from the cache, the
    /// latest first, and new ones were made only for want of cached ones.
    pub open spec fn attached(&self, before: &Self, n: int) -> bool {
        let kept = before.cached().len() as int;
        let ids = before.trace().ids.len() as int;
        &&& n >= 0
        &&& self.trace().ids.len() == ids + n
        &&& before.trace().ids.is_prefix_of(self.trace().ids)
        &&& self.cached() == before.cached().take(
            if n < kept {
                kept - n
            } else {
                0
            },
        )
        &&& self.allocated() == before.allocated() + (if n < kept {
            0
        } else {
            n - kept
        })
        &&& forall|k: int|
            ids <= k < ids + n ==> #[trigger] self.trace().ids[k] == (if k - ids < kept {
                before.cached()[kept - 1 - (k - ids)] as int
            } else {
                before.allocated() + (k - ids - kept)
            })
    }

    /// Attaching the latest cached block, or a new one.
    proof fn lemma_taken(&self, after: &Self, id: usize)
        requires
            after.trace@.ids =~= self.trace@.ids.push(id),
            if self.pool@.len() > 0 {
                &&& id == self.pool@.last()
                &&& after.pool@ == self.pool@.drop_last()
                &&& after.blocks@.len() == self.blocks@.len()
            } else {
                &&& id == self.blocks@.len()
                &&& after.pool@ == self.pool@
                &&& after.blocks@.len() == self.blocks@.len() + 1
            },
        ensures
            after.attached(self, 1),
    {
        let kept = self.pool@.len() as int;
        assert(after.pool@ =~= self.pool@.take(
            if 1 < kept {
                kept - 1
            } else {
                0
            },
        ));
    }

    /// The last block is numbered by what was written.
    proof fn lemma_block_count(&self)
        requires
            self.inv(),
            self.trace@.ids.len() > 0,
        ensures
            self.trace@.ids.len() == self.trace@.log.len() as int / self.length() + 1,
    {
        lemma_block_of(self.length(), self.trace@.ids.len() - 1, self.tail.index as int);
    }

    proof fn lemma_attached(&self, middle: &Self, before: &Self, n: int, m: int)
        requires
            middle.attached(before, n),
            self.attached(middle, m),
        ensures
            self.attached(before, n + m),
    {
        let kept = before.cached().len() as int;
        let ids = before.trace().ids.len() as int;
        assert(self.cached() =~= before.cached().take(
            if n + m < kept {
                kept - (n + m)
            } else {
                0
            },
        ));
        assert forall|k: int| ids <= k < ids + n + m implies #[trigger] self.trace().ids[k] == (
        if k - ids < kept {
            before.cached()[kept - 1 - (k - ids)] as int
        } else {
            before.allocated() + (k - ids - kept)
        }) by {
            if k < ids + n {
                assert(middle.trace().ids[k] == self.trace().ids[k]);
            }
        }
    }

    /// How many more blocks can be given an address.
    pub open spec fn room(&self, blocks: int) -> bool {
        blocks > 0 ==> self.codec().addressable(self.allocated() + blocks - 1)
    }

    spec fn number_written(&self, k: int) -> int {
        if k < self.trace@.ids.len() - 1 {
            self.length()
        } else {
            self.tail.index as int
        }
    }

    spec fn number_produced(&self, k: int) -> int {
        if k < self.trace@.ids.len() - 1 {
            self.length()
        } else if k == self.trace@.published_block {
            self.trace@.published_index
        } else {
            0
        }
    }

    /// Block number `k`, which is live, agrees with the history.
    spec fn block_wf(&self, k: int) -> bool {
        let t = self.trace@;
        let b = self.blocks@[t.ids[k] as int];
        &&& b.slots@.len() == self.length()
        &&& b.next == (if k < t.ids.len() - 1 {
            Some(t.ids[k + 1])
        } else {
            None::<usize>
        })
        &&& b.produced == self.number_produced(k)
        &&& b.consumed == vacant(b.slots@.take(self.number_written(k)))
        &&& b.consumed < self.length()
        &&& forall|i: int|
            0 <= i < self.length() ==> #[trigger] b.slots@[i] == (if t.stored(
                self.length(),
                position(self.length(), k, i),
            ) {
                Some(t.log[position(self.length(), k, i)])
            } else {
                None
            })
    }

    spec fn arena_wf(&self) -> bool {
        let t = self.trace@;
        &&& self.blocks@.len() == t.owner.len()
        &&& t.owner.len() <= usize::MAX >> self.head_codec.bits()
        &&& forall|id: int|
            0 <= id < t.owner.len() ==> #[trigger] t.owner[id] < 0 || (t.owner[id] < t.ids.len()
                && t.ids[t.owner[id]] == id)
        &&& forall|id: int|
            0 <= id < t.owner.len() && #[trigger] t.owner[id] < 0 ==> self.pool@.contains(
                id as usize,
            )
        &&& self.pool@.no_duplicates()
        &&& forall|j: int|
            0 <= j < self.pool@.len() ==> (#[trigger] self.pool@[j]) < t.owner.len()
                && t.owner[self.pool@[j] as int] < 0 && self.blank(self.pool@[j] as int)
    }

    /// Arena block `id` is in the state of a new block.
    spec fn blank(&self, id: int) -> bool {
        let b = self.blocks@[id];
        &&& b.slots@.len() == self.length()
        &&& b.next is None
        &&& b.produced == 0
        &&& b.consumed == 0
        &&& forall|i: int| 0 <= i < self.length() ==> #[trigger] b.slots@[i] is None
    }

    spec fn heads_wf(&self) -> bool {
        let t = self.trace@;
        let l = self.length();
        if t.ids.len() == 0 {
            &&& self.tail == zero_head()
            &&& self.chead == 0
            &&& self.phead == 0
            &&& t.log.len() == 0
            &&& t.head_block == 0 && t.head_index == 0 && !t.hint
            &&& t.published_block == 0 && t.published_index == 0
            &&& t.pending =~= Set::empty()
            &&& t.claimed =~= Set::empty()
        } else {
            let last = t.ids.len() - 1;
            &&& self.tail.block == self.head_codec.address(t.ids[last] as int)
            &&& !self.tail.has_next
            &&& self.tail.index < l
            &&& t.log.len() == position(l, last, self.tail.index as int)
            &&& 0 <= t.head_block <= t.published_block <= last
            &&& 0 <= t.head_index <= l
            &&& 0 <= t.published_index < l
            &&& self.published() <= t.log.len()
            &&& self.chead == self.head_codec.encode(self.consumer_head())
            &&& t.hint ==> self.head_codec.hint_encoded() && t.head_block < t.published_block
            &&& self.phead == self.head_codec.encode(self.producer_head()) || (self.phead == 0
                && t.published_block == 0 && t.published_index == 0)
            &&& self.head() > self.published() ==> t.head_block == t.published_block
            &&& forall|p: int|
                self.published() <= p < self.head() ==> #[trigger] t.pending.contains(p)
            &&& forall|p: int| #[trigger] t.pending.contains(p) ==> 0 <= p < self.head()
            &&& t.head_index == l ==> t.pending.contains(self.head() - 1) || t.claimed.contains(
                self.head() - 1,
            )
            &&& forall|p: int| #[trigger]
                t.claimed.contains(p) ==> 0 <= p < self.head() && p < self.published()
                    && !t.pending.contains(p)
        }
    }

    pub closed spec fn consumer_head(&self) -> Head {
        Head {
            block: self.head_codec.address(self.trace@.ids[self.trace@.head_block] as int),
            index: self.trace@.head_index as usize,
            has_next: self.trace@.hint,
        }
    }

    pub closed spec fn producer_head(&self) -> Head {
        Head {
            block: self.head_codec.address(self.trace@.ids[self.trace@.published_block] as int),
            index: self.trace@.published_index as usize,
            has_next: false,
        }
    }

    spec fn chain_wf(&self) -> bool {
        let t = self.trace@;
        &&& forall|k: int| 0 <= k < t.ids.len() ==> (#[trigger] t.ids[k]) < t.owner.len()
        &&& forall|k: int| t.head_block <= k < t.ids.len() ==> #[trigger] t.live(k)
        &&& forall|k: int, i: int|
            0 <= k < t.ids.len() && 0 <= i < self.length() && (t.pending.contains(
                #[trigger] position(self.length(), k, i),
            ) || t.claimed.contains(position(self.length(), k, i))) ==> t.live(k)
        &&& forall|k: int| #[trigger] t.live(k) ==> self.block_wf(k)
    }

    /// The queue agrees with its history.
    spec fn inv(&self) -> bool {
        &&& self.head_codec.wf()
        &&& self.arena_wf()
        &&& self.heads_wf()
        &&& self.chain_wf()
    }

    /// The queue agrees with its history, and all that was written is
    /// published.
    pub closed spec fn wf(&self) -> bool {
        &&& self.inv()
        &&& self.published() == self.trace@.log.len()
        &&& self.phead == 0 ==> self.trace@.ids.len() == 0
    }

    /// Blocks that have to be attached before `n` more values are written.
    pub open spec fn blocks_for(&self, n: int) -> int {
        (self.trace().log.len() + n) / self.length() + 1 - self.trace().ids.len()
    }

    /// There are addresses for the blocks that `n` more values take.
    pub open spec fn tight_room(&self, n: int) -> bool {
        n > 0 ==> self.room(self.blocks_for(n))
    }

    /// There are addresses for `n` more values. A block for each of them and
    /// one more is always enough.
    pub open spec fn room_for(&self, n: int) -> bool {
        ||| self.allocated() + n + 1 <= self.codec().limit()
        ||| self.tight_room(n)
    }

    /// The blocks that `n` more values take, by what the last block holds.
    proof fn lemma_fresh(&self, n: int)
        requires
            self.inv(),
            0 <= n,
        ensures
            self.trace@.ids.len() == 0 ==> self.blocks_for(n) == n / self.length() + 1,
            self.trace@.ids.len() > 0 ==> self.blocks_for(n) == (self.tail.index + n)
                / self.length(),
            0 <= self.blocks_for(n) <= n + 1,
            self.room_for(n) ==> self.tight_room(n),
    {
        self.lemma_tail();
        let l = self.length();
        vstd::arithmetic::div_mod::lemma_div_pos_is_pos(n, l);
        vstd::arithmetic::div_mod::lemma_div_is_ordered_by_denominator(n, 1, l);
        vstd::arithmetic::div_mod::lemma_div_basics(n);
        if self.trace@.ids.len() > 0 {
            let last = self.trace@.ids.len() - 1;
            let at = self.tail.index as int;
            assert(self.trace@.log.len() + n == l * last + (at + n)) by (nonlinear_arith)
                requires
                    self.trace@.log.len() == last * l + at,
            ;
            vstd::arithmetic::div_mod::lemma_hoist_over_denominator(at + n, last, l as nat);
            vstd::arithmetic::div_mod::lemma_div_pos_is_pos(at + n, l);
            assert((at + n) / l <= n) by {
                vstd::arithmetic::div_mod::lemma_fundamental_div_mod(at + n, l);
                vstd::arithmetic::div_mod::lemma_mod_bound(at + n, l);
                let q = (at + n) / l;
                assert(q <= n) by (nonlinear_arith)
                    requires
                        at + n == l * q + (at + n) % l,
                        0 <= (at + n) % l,
                        0 <= at < l,
                        0 <= n,
                ;
            }
        }
    }

    /// Whether there are addresses for `n` more values.
    pub fn has_room_for(&self, n: usize) -> (fits: bool)
        requires
            self.wf(),
        ensures
            fits == self.room_for(n as int),
    {
        if n == 0 {
            return true;
        }
        proof {
            self.lemma_tail();
            self.lemma_fresh(n as int);
        }
        let length: usize = self.block_length();
        let mut blocks: usize = n / length;
        if self.tail.is_zero() {
            if blocks == usize::MAX {
                return false;
            }
            blocks = blocks + 1;
        } else {
            proof {
                lemma_carry(n as int, self.tail.index as int, self.length());
            }
            if n % length >= length - self.tail.index {
                if blocks == usize::MAX {
                    return false;
                }
                blocks = blocks + 1;
            }
        }
        if blocks == 0 {
            return true;
        }
        if self.blocks.len() > usize::MAX - blocks {
            return false;
        }
        self.head_codec.has_room(self.blocks.len() + blocks - 1)
    }

    /// Creates an empty queue without allocating a block.
    pub fn new(page_size: usize, block_length: usize) -> (queue: Self)
        requires
            crate::page::is_power_of_two(page_size),
            0 < block_length < page_size,
        ensures
            queue.wf(),
            queue.settled(),
            queue.length() == block_length,
            1usize << queue.codec().bits() == page_size,
            queue.codec().limit() == usize::MAX / page_size,
            queue.waiting() == Seq::<T>::empty(),
            queue.trace().log == Seq::<T>::empty(),
            queue.trace().claimed == Set::<int>::empty(),
            queue.allocated() == 0,
            queue.cached() == Seq::<usize>::empty(),
    {
        let queue = SPMC {
            blocks: Vec::new(),
            phead: 0,
            chead: 0,
            tail: Head::zero(),
            pool: Vec::new(),
            head_codec: HeadCodec::new(page_size, block_length),
            trace: Ghost(
                Trace {
                    log: Seq::empty(),
                    ids: Seq::empty(),
                    owner: Seq::empty(),
                    head_block: 0,
                    head_index: 0,
                    hint: false,
                    published_block: 0,
                    published_index: 0,
                    pending: Set::empty(),
                    claimed: Set::empty(),
                },
            ),
        };
        assert(queue.waiting() =~= Seq::<T>::empty());
        queue
    }

    /// Creates an empty queue to be shared.
    pub fn new_arc(page_size: usize, block_length: usize) -> (queue: Arc<Self>)
        requires
            crate::page::is_power_of_two(page_size),
            0 < block_length < page_size,
        ensures
            queue.wf(),
            queue.settled(),
            queue.length() == block_length,
            1usize << queue.codec().bits() == page_size,
            queue.codec().limit() == usize::MAX / page_size,
            queue.waiting() == Seq::<T>::empty(),
            queue.trace().log == Seq::<T>::empty(),
            queue.trace().claimed == Set::<int>::empty(),
            queue.allocated() == 0,
            queue.cached() == Seq::<usize>::empty(),
    {
        Arc::new(Self::new(page_size, block_length))
    }

    /// Number of payload slots in each block.
    pub fn block_length(&self) -> (length: usize)
        ensures
            length == self.length(),
    {
        self.head_codec.block_length()
    }

    /// Number of cached blocks.
    pub fn pool_len(&self) -> (len: usize)
        ensures
            len == self.cached().len(),
    {
        self.pool.len()
    }

    /// Takes the latest cached block, or makes a new one.
    fn take_block(&mut self) -> (id: usize)
        requires
            old(self).head_codec.wf(),
            old(self).arena_wf(),
            old(self).room(1),
        ensures
            final(self).head_codec == old(self).head_codec,
            final(self).phead == old(self).phead,
            final(self).chead == old(self).chead,
            final(self).tail == old(self).tail,
            final(self).trace@ == (Trace { owner: final(self).trace@.owner, ..old(self).trace@ }),
            final(self).blank(id as int),
            final(self).head_codec.addressable(id as int),
            id < final(self).blocks@.len(),
            if old(self).pool@.len() > 0 {
                &&& id == old(self).pool@.last()
                &&& final(self).pool@ == old(self).pool@.drop_last()
                &&& final(self).blocks@ == old(self).blocks@
                &&& final(self).trace@.owner == old(self).trace@.owner
                &&& final(self).trace@.owner[id as int] < 0
            } else {
                &&& id == old(self).blocks@.len()
                &&& final(self).pool@ == old(self).pool@
                &&& final(self).blocks@.len() == old(self).blocks@.len() + 1
                &&& final(self).blocks@.drop_last() == old(self).blocks@
                &&& final(self).trace@.owner == old(self).trace@.owner.push(-1)
            },
    {
        match self.pool.pop() {
            Some(id) => {
                assert(self.blank(id as int)) by {
                    assert(old(self).blank(old(self).pool@.last() as int));
                }
                id
            },
            None => {
                let length: usize = self.head_codec.block_length();
                let mut slots: Vec<Option<T>> = Vec::new();
                let mut filled: usize = 0;
                while filled < length
                    invariant
                        filled <= length,
                        slots@.len() == filled,
                        forall|i: int| 0 <= i < filled ==> #[trigger] slots@[i] is None,
                    decreases length - filled,
                {
                    slots.push(None);
                    filled = filled + 1;
                }
                let id: usize = self.blocks.len();
                self.blocks.push(SpmcBlock { slots, produced: 0, consumed: 0, next: None });
                self.trace = Ghost(
                    Trace { owner: self.trace@.owner.push(-1), ..self.trace@ },
                );
                assert(self.blocks@.drop_last() =~= old(self).blocks@);
                id
            },
        }
    }

    /// Attaches the first block.
    fn attach_root(&mut self)
        requires
            old(self).inv(),
            old(self).trace@.ids.len() == 0,
            old(self).room(1),
        ensures
            final(self).inv(),
            final(self).head_codec == old(self).head_codec,
            final(self).phead == old(self).phead,
            final(self).trace@.ids.len() == 1,
            final(self).trace@ == (Trace {
                ids: final(self).trace@.ids,
                owner: final(self).trace@.owner,
                ..old(self).trace@
            }),
            final(self).attached(old(self), 1),
    {
        let root: usize = self.take_block();
        self.tail = Head::from_ptr(self.head_codec.address_of(root));
        proof {
            self.head_codec.lemma_address(root as int);
        }
        self.chead = self.tail.to_usize(&self.head_codec);
        self.trace = Ghost(
            Trace {
                ids: seq![root],
                owner: self.trace@.owner.update(root as int, 0),
                ..self.trace@
            },
        );
        proof {
            let t = self.trace@;
            let before = old(self).trace@;
            let l = self.length();
            self.head_codec.lemma_length();
            old(self).lemma_taken(self, root);
            assert(position(l, 0, 0) == 0) by (nonlinear_arith);
            assert forall|id: int| 0 <= id < t.owner.len() implies #[trigger] t.owner[id] < 0 || (
            t.owner[id] < t.ids.len() && t.ids[t.owner[id]] == id) by {
                if id != root {
                    assert(before.owner[id] < 0);
                }
            }
            assert forall|id: int| 0 <= id < t.owner.len() && #[trigger] t.owner[id] < 0 implies
                self.pool@.contains(id as usize) by {
                assert(id != root);
                assert(before.owner[id] < 0);
                assert(old(self).pool@.contains(id as usize));
                let j = choose|j: int|
                    0 <= j < old(self).pool@.len() && old(self).pool@[j] == id as usize;
                assert(self.pool@[j] == id as usize);
            }
            assert forall|j: int| 0 <= j < self.pool@.len() implies (#[trigger] self.pool@[j])
                < t.owner.len() && t.owner[self.pool@[j] as int] < 0 && self.blank(
                self.pool@[j] as int,
            ) by {
                assert(old(self).pool@[j] == self.pool@[j]);
                assert(old(self).blank(old(self).pool@[j] as int));
                assert(self.blocks@[self.pool@[j] as int] == old(
                    self,
                ).blocks@[self.pool@[j] as int]);
                if old(self).pool@.len() > 0 {
                    assert(old(self).pool@[j] != old(self).pool@.last());
                }
            }
            assert(self.block_wf(0)) by {
                let b = self.blocks@[root as int];
                assert(b.slots@.take(0) =~= Seq::empty());
                assert forall|i: int| 0 <= i < l implies !t.stored(
                    l,
                    #[trigger] position(l, 0, i),
                ) by {}
            }
        }
    }

    /// Writes one value and moves the producer's private tail past it.
    ///
    /// Nothing becomes visible to consumers before the tail is published.
    fn write_one(&mut self, value: T)
        requires
            old(self).inv(),
            old(self).tight_room(1),
        ensures
            final(self).inv(),
            final(self).head_codec == old(self).head_codec,
            final(self).phead == old(self).phead,
            final(self).trace@.ids.len() > 0,
            old(self).trace@.ids.is_prefix_of(final(self).trace@.ids),
            final(self).trace@ == (Trace {
                log: old(self).trace@.log.push(value),
                ids: final(self).trace@.ids,
                owner: final(self).trace@.owner,
                ..old(self).trace@
            }),
            final(self).blocks@.len() - old(self).blocks@.len() <= final(self).trace@.ids.len()
                - old(self).trace@.ids.len(),
            final(self).attached(
                old(self),
                final(self).trace@.ids.len() - old(self).trace@.ids.len(),
            ),
    {
        proof {
            self.lemma_tail();
            self.lemma_blocks_for();
            assert(self.pool@ =~= self.pool@.take(self.pool@.len() as int));
            assert(self.attached(self, 0));
        }
        if self.tail.is_zero() {
            self.attach_root();
        }
        proof {
            self.lemma_blocks_for();
        }
        let ghost rooted = *self;
        let length: usize = self.block_length();
        if self.tail.index + 1 == length {
            self.write_last(value);
            proof {
                self.lemma_attached(
                    &rooted,
                    old(self),
                    rooted.trace@.ids.len() - old(self).trace@.ids.len(),
                    1,
                );
            }
        } else {
            self.write_inner(value);
        }
    }

    /// One more value needs a block exactly when it fills the tail block, and
    /// one more when it is the first of all.
    proof fn lemma_blocks_for(&self)
        requires
            self.inv(),
        ensures
            self.trace@.ids.len() > 0 ==> self.blocks_for(1) == (if self.tail.index + 1
                == self.length() {
                1int
            } else {
                0int
            }),
            self.trace@.ids.len() == 0 ==> self.blocks_for(1) == (if self.length() == 1 {
                2int
            } else {
                1int
            }),
    {
        self.head_codec.lemma_length();
        let l = self.length();
        let n = self.trace@.log.len() as int + 1;
        if self.trace@.ids.len() > 0 {
            let last = self.trace@.ids.len() - 1;
            if self.tail.index + 1 == l {
                lemma_position_next(l, last);
                vstd::arithmetic::div_mod::lemma_fundamental_div_mod_converse(n, l, last + 1, 0);
            } else {
                vstd::arithmetic::div_mod::lemma_fundamental_div_mod_converse(
                    n,
                    l,
                    last,
                    self.tail.index + 1,
                );
            }
        } else {
            if l > 1 {
                vstd::arithmetic::div_mod::lemma_fundamental_div_mod_converse(1, l, 0, 1);
            } else {
                vstd::arithmetic::div_mod::lemma_fundamental_div_mod_converse(1, l, 1, 0);
            }
        }
    }

    /// The tail is zero exactly before the first block.
    proof fn lemma_tail(&self)
        requires
            self.inv(),
        ensures
            self.tail == zero_head() <==> self.trace@.ids.len() == 0,
            0 < self.length() < usize::MAX,
            self.trace@.ids.len() > 0 ==> {
                let last = self.trace@.ids.len() - 1;
                &&& self.tail.index < self.length()
                &&& self.trace@.live(last)
                &&& self.block_wf(last)
                &&& self.head_codec.addressable(self.trace@.ids[last] as int)
                &&& self.tail.block >> self.head_codec.bits() == self.trace@.ids[last] + 1
            },
    {
        self.head_codec.lemma_length();
        if self.trace@.ids.len() > 0 {
            let last = self.trace@.ids.len() - 1;
            assert(self.trace@.live(last));
            self.head_codec.lemma_address(self.trace@.ids[last] as int);
        }
    }

    /// Writes into a slot that is not the last of its block.
    fn write_inner(&mut self, value: T)
        requires
            old(self).inv(),
            old(self).trace@.ids.len() > 0,
            old(self).tail.index + 1 < old(self).length(),
        ensures
            final(self).inv(),
            final(self).head_codec == old(self).head_codec,
            final(self).phead == old(self).phead,
            final(self).trace@ == (Trace {
                log: old(self).trace@.log.push(value),
                ..old(self).trace@
            }),
            final(self).blocks@.len() == old(self).blocks@.len(),
            final(self).pool@ == old(self).pool@,
    {
        proof {
            self.lemma_tail();
        }
        let id: usize = self.head_codec.id_of(self.tail.block);
        let index: usize = self.tail.index;
        self.blocks[id].slots[index] = Some(value);
        self.tail.index = index + 1;
        self.trace = Ghost(Trace { log: self.trace@.log.push(value), ..self.trace@ });
        proof {
            assert forall|k: int| #[trigger] self.trace@.live(k) == old(self).trace@.live(k) by {}
            assert forall|k: int| self.trace@.head_block <= k < self.trace@.ids.len() implies
                #[trigger] self.trace@.live(k) by {
                assert(old(self).trace@.live(k));
            }
            assert forall|k: int| #[trigger] self.trace@.live(k) implies self.block_wf(k) by {
                old(self).lemma_write_frame(self, k, value);
            }
        }
    }

    /// Writing one value at the tail keeps every live block in agreement.
    proof fn lemma_write_frame(&self, after: &Self, k: int, value: T)
        requires
            self.inv(),
            self.trace@.ids.len() > 0,
            self.trace@.live(k),
            after.head_codec == self.head_codec,
            after.trace@ == (Trace { log: self.trace@.log.push(value), ..self.trace@ }),
            after.tail == (Head { index: (self.tail.index + 1) as usize, ..self.tail }),
            self.tail.index + 1 <= self.length(),
            after.blocks@.len() == self.blocks@.len(),
            ({
                let id = self.trace@.ids[self.trace@.ids.len() - 1] as int;
                let b = self.blocks@[id];
                &&& forall|other: int|
                    0 <= other < self.blocks@.len() && other != id ==> after.blocks@[other]
                        == self.blocks@[other]
                &&& after.blocks@[id].next == b.next
                &&& after.blocks@[id].produced == b.produced
                &&& after.blocks@[id].consumed == b.consumed
                &&& after.blocks@[id].slots@ == b.slots@.update(self.tail.index as int, Some(value))
            }),
        ensures
            after.block_wf(k),
    {
        let l = self.length();
        let t = self.trace@;
        let u = after.trace@;
        let last = t.ids.len() - 1;
        self.lemma_tail();
        assert(self.block_wf(k));
        let b = self.blocks@[t.ids[k] as int];
        let c = after.blocks@[t.ids[k] as int];
        let p = t.log.len() as int;
        assert(p >= self.head() || t.pending.contains(p));
        if k == last {
            let n = self.tail.index as int;
            assert(c.slots@.take(n + 1).drop_last() =~= b.slots@.take(n));
            assert(c.slots@.take(n + 1).last() is Some);
        }
        assert forall|i: int| 0 <= i < l implies #[trigger] c.slots@[i] == (if u.stored(
            l,
            position(l, k, i),
        ) {
            Some(u.log[position(l, k, i)])
        } else {
            None
        }) by {
            let q = position(l, k, i);
            if k < last {
                lemma_position_order(l, k, last);
            }
            if q == p {
                lemma_position_injective(l, k, i, last, self.tail.index as int);
            } else if k == last && i == self.tail.index {
            } else {
                assert(b.slots@[i] == c.slots@[i]);
            }
        }
    }

    /// Writes the last slot of the tail block and continues in a fresh block.
    fn write_last(&mut self, value: T)
        requires
            old(self).inv(),
            old(self).trace@.ids.len() > 0,
            old(self).tail.index + 1 == old(self).length(),
            old(self).room(1),
        ensures
            final(self).inv(),
            final(self).head_codec == old(self).head_codec,
            final(self).phead == old(self).phead,
            final(self).trace@.ids.len() == old(self).trace@.ids.len() + 1,
            old(self).trace@.ids.is_prefix_of(final(self).trace@.ids),
            final(self).trace@ == (Trace {
                log: old(self).trace@.log.push(value),
                ids: final(self).trace@.ids,
                owner: final(self).trace@.owner,
                ..old(self).trace@
            }),
            final(self).blocks@.len() <= old(self).blocks@.len() + 1,
            final(self).attached(old(self), 1),
    {
        proof {
            self.lemma_tail();
        }
        let length: usize = self.block_length();
        let id: usize = self.head_codec.id_of(self.tail.block);
        let index: usize = self.tail.index;
        let next: usize = self.take_block();
        assert(next != id);
        self.blocks[id].slots[index] = Some(value);
        self.blocks[id].next = Some(next);
        self.blocks[id].produced = length;
        self.tail = Head::from_ptr(self.head_codec.address_of(next));
        self.trace = Ghost(
            Trace {
                log: self.trace@.log.push(value),
                ids: self.trace@.ids.push(next),
                owner: self.trace@.owner.update(next as int, self.trace@.ids.len() as int),
                ..self.trace@
            },
        );
        proof {
            assert(old(self).trace@.owner.push(-1).update(
                old(self).trace@.owner.len() as int,
                old(self).trace@.ids.len() as int,
            ) =~= old(self).trace@.owner.push(old(self).trace@.ids.len() as int));
            old(self).lemma_extend(self, next, value);
            old(self).lemma_taken(self, next);
        }
    }

    /// Filling the tail block and attaching `next` behind it keeps the queue
    /// well formed.
    proof fn lemma_extend(&self, after: &Self, next: usize, value: T)
        requires
            self.inv(),
            self.trace@.ids.len() > 0,
            self.tail.index + 1 == self.length(),
            after.head_codec == self.head_codec,
            after.phead == self.phead,
            after.chead == self.chead,
            after.head_codec.addressable(next as int),
            after.tail == (Head {
                block: self.head_codec.address(next as int),
                index: 0,
                has_next: false,
            }),
            after.blank(next as int),
            next < after.blocks@.len(),
            next != self.trace@.ids[self.trace@.ids.len() - 1],
            if self.pool@.len() > 0 {
                &&& next == self.pool@.last()
                &&& after.pool@ == self.pool@.drop_last()
                &&& after.blocks@.len() == self.blocks@.len()
                &&& after.trace@.owner == self.trace@.owner.update(
                    next as int,
                    self.trace@.ids.len() as int,
                )
            } else {
                &&& next == self.blocks@.len()
                &&& after.pool@ == self.pool@
                &&& after.blocks@.len() == self.blocks@.len() + 1
                &&& after.trace@.owner == self.trace@.owner.push(self.trace@.ids.len() as int)
            },
            after.trace@ == (Trace {
                log: self.trace@.log.push(value),
                ids: self.trace@.ids.push(next),
                owner: after.trace@.owner,
                ..self.trace@
            }),
            ({
                let id = self.trace@.ids[self.trace@.ids.len() - 1] as int;
                let b = self.blocks@[id];
                &&& forall|other: int|
                    0 <= other < self.blocks@.len() && other != id ==> after.blocks@[other]
                        == self.blocks@[other]
                &&& after.blocks@[id].next == Some(next)
                &&& after.blocks@[id].produced == self.length()
                &&& after.blocks@[id].consumed == b.consumed
                &&& after.blocks@[id].slots@ == b.slots@.update(self.tail.index as int, Some(value))
            }),
        ensures
            after.inv(),
    {
        let l = self.length();
        let t = self.trace@;
        let u = after.trace@;
        let last = t.ids.len() - 1;
        self.lemma_tail();
        self.head_codec.lemma_length();
        self.head_codec.lemma_address(next as int);
        lemma_position_next(l, last);
        let p = t.log.len() as int;
        assert(next < t.owner.len() ==> t.owner[next as int] < 0);
        // The arena.
        assert forall|id: int| 0 <= id < u.owner.len() implies #[trigger] u.owner[id] < 0 || (
        u.owner[id] < u.ids.len() && u.ids[u.owner[id]] == id) by {
            if id != next {
                assert(u.owner[id] == t.owner[id]);
            }
        }
        assert forall|id: int| 0 <= id < u.owner.len() && #[trigger] u.owner[id] < 0 implies
            after.pool@.contains(id as usize) by {
            assert(id != next);
            assert(t.owner[id] < 0);
            let j = choose|j: int| 0 <= j < self.pool@.len() && self.pool@[j] == id as usize;
            assert(after.pool@[j] == id as usize);
        }
        assert forall|j: int| 0 <= j < after.pool@.len() implies (#[trigger] after.pool@[j])
            < u.owner.len() && u.owner[after.pool@[j] as int] < 0 && after.blank(
            after.pool@[j] as int,
        ) by {
            assert(self.pool@[j] == after.pool@[j]);
            assert(self.blank(self.pool@[j] as int));
        }
        // The chain.
        assert forall|k: int| 0 <= k < u.ids.len() implies (#[trigger] u.ids[k]) < u.owner.len() by {
            if k <= last {
                assert(u.ids[k] == t.ids[k]);
            }
        }
        assert forall|k: int| #[trigger] u.live(k) implies k == last + 1 || t.live(k) by {
            if k <= last {
                assert(u.ids[k] == t.ids[k]);
            }
        }
        assert forall|k: int| #[trigger] t.live(k) implies u.live(k) by {
            assert(u.ids[k] == t.ids[k]);
        }
        assert forall|k: int| u.head_block <= k < u.ids.len() implies #[trigger] u.live(k) by {
            if k <= last {
                assert(t.live(k));
            }
        }
        assert forall|k: int, i: int|
            0 <= k < u.ids.len() && 0 <= i < l && (u.pending.contains(#[trigger] position(l, k, i))
                || u.claimed.contains(position(l, k, i))) implies u.live(k) by {
            if k <= last {
                assert(t.live(k));
            }
        }
        assert(p >= self.head() || t.pending.contains(p));
        assert forall|k: int| #[trigger] u.live(k) implies after.block_wf(k) by {
            let c = after.blocks@[u.ids[k] as int];
            if k == last + 1 {
                assert(c.slots@.take(0) =~= Seq::empty());
                assert forall|i: int| 0 <= i < l implies !u.stored(l, #[trigger] position(l, k, i)) by {
                }
            } else {
                assert(t.live(k));
                assert(self.block_wf(k));
                let b = self.blocks@[t.ids[k] as int];
                if k == last {
                    assert(c.slots@.take(l).drop_last() =~= b.slots@.take(l - 1));
                    assert(c.slots@.take(l).last() is Some);
                } else {
                    assert(u.ids[k + 1] == t.ids[k + 1]);
                }
                assert forall|i: int| 0 <= i < l implies #[trigger] c.slots@[i] == (if u.stored(
                    l,
                    position(l, k, i),
                ) {
                    Some(u.log[position(l, k, i)])
                } else {
                    None
                }) by {
                    let q = position(l, k, i);
                    if k < last {
                        lemma_position_order(l, k, last);
                    }
                    if q == p {
                        lemma_position_injective(l, k, i, last, l - 1);
                    } else {
                        assert(b.slots@[i] == c.slots@[i]);
                    }
                }
            }
        }
    }

    /// Makes everything written so far visible to consumers.
    fn publish_tail(&mut self)
        requires
            old(self).inv(),
            old(self).trace@.ids.len() > 0,
        ensures
            final(self).wf(),
            final(self).head_codec == old(self).head_codec,
            final(self).blocks@.len() == old(self).blocks@.len(),
            final(self).pool@ == old(self).pool@,
            final(self).trace@ == (Trace {
                published_block: final(self).trace@.published_block,
                published_index: final(self).trace@.published_index,
                ..old(self).trace@
            }),
    {
        proof {
            self.lemma_tail();
        }
        let id: usize = self.head_codec.id_of(self.tail.block);
        if self.tail.index != 0 {
            self.blocks[id].produced = self.tail.index;
        }
        self.phead = self.tail.to_usize(&self.head_codec);
        proof {
            self.head_codec.lemma_address(id as int);
            self.head_codec.lemma_nonzero(self.tail);
        }
        self.trace = Ghost(
            Trace {
                published_block: self.trace@.ids.len() - 1,
                published_index: self.tail.index as int,
                ..self.trace@
            },
        );
        proof {
            let t = old(self).trace@;
            let u = self.trace@;
            let l = self.length();
            if t.head_block < u.published_block {
                lemma_position_order(l, t.head_block, u.published_block);
            }
            assert forall|k: int| #[trigger] u.live(k) == t.live(k) by {}
            assert forall|k: int| u.head_block <= k < u.ids.len() implies #[trigger] u.live(k) by {
                assert(t.live(k));
            }
            assert forall|k: int| #[trigger] u.live(k) implies self.block_wf(k) by {
                assert(t.live(k));
                assert(old(self).block_wf(k));
                old(self).lemma_block_kept(self, k);
            }
        }
    }

    /// A live block stays in agreement when its slots, its place in the chain
    /// and what is stored of its positions stay the same.
    proof fn lemma_block_kept(&self, after: &Self, k: int)
        requires
            self.block_wf(k),
            0 <= k < self.trace@.ids.len(),
            after.head_codec == self.head_codec,
            after.tail.index == self.tail.index,
            after.trace@.ids == self.trace@.ids,
            after.trace@.log == self.trace@.log,
            ({
                let b = self.blocks@[self.trace@.ids[k] as int];
                let c = after.blocks@[self.trace@.ids[k] as int];
                &&& c.slots@ == b.slots@
                &&& c.next == b.next
                &&& c.consumed == b.consumed
                &&& c.produced == after.number_produced(k)
            }),
            forall|i: int|
                0 <= i < self.length() ==> (self.trace@.stored(
                    self.length(),
                    #[trigger] position(self.length(), k, i),
                ) <==> after.trace@.stored(self.length(), position(self.length(), k, i))),
        ensures
            after.block_wf(k),
    {
        let b = self.blocks@[self.trace@.ids[k] as int];
        let c = after.blocks@[self.trace@.ids[k] as int];
        assert forall|i: int| 0 <= i < self.length() implies #[trigger] c.slots@[i] == (
        if after.trace@.stored(self.length(), position(self.length(), k, i)) {
            Some(after.trace@.log[position(self.length(), k, i)])
        } else {
            None
        }) by {
            assert(b.slots@[i] == c.slots@[i]);
        }
    }

    /// Pushes one value.
    pub fn push(&mut self, value: T)
        requires
            old(self).wf(),
            old(self).room_for(1),
        ensures
            final(self).wf(),
            final(self).codec() == old(self).codec(),
            final(self).trace().log == old(self).trace().log.push(value),
            final(self).published() == old(self).published() + 1,
            final(self).same_consumers(old(self)),
            final(self).follows(old(self)),
            final(self).attached(old(self), old(self).blocks_for(1)),
            final(self).allocated() <= old(self).allocated() + 2,
            old(self).settled() ==> final(self).waiting() == old(self).waiting().push(value),
    {
        proof {
            self.lemma_fresh(1);
        }
        self.write_one(value);
        self.publish_tail();
        proof {
            self.lemma_fresh(1);
            self.lemma_block_count();
            old(self).lemma_waiting();
            if old(self).settled() {
                assert(self.waiting() =~= old(self).waiting().push(value));
            }
        }
    }

    /// Consumers see the same claims and the same head position as before.
    pub open spec fn same_consumers(&self, before: &Self) -> bool {
        &&& self.trace().head_block == before.trace().head_block
        &&& self.trace().head_index == before.trace().head_index
        &&& self.trace().hint == before.trace().hint
        &&& self.trace().pending == before.trace().pending
        &&& self.trace().claimed == before.trace().claimed
    }

    /// In a settled queue the head never runs ahead of the published position.
    pub proof fn lemma_waiting(&self)
        requires
            self.wf(),
        ensures
            self.settled() ==> 0 <= self.head() <= self.published(),
            self.published() == self.trace().log.len(),
    {
        if self.settled() {
            if self.head() > self.published() {
                assert(self.trace@.pending.contains(self.published()));
            }
            if self.trace@.ids.len() > 0 {
                lemma_position_nonnegative(
                    self.length(),
                    self.trace@.head_block,
                    self.trace@.head_index,
                );
            } else {
                assert(position(self.length(), 0, 0) == 0) by (nonlinear_arith);
            }
        }
    }

    /// Pushes values in order and publishes them together.
    #[verifier::spinoff_prover]
    #[verifier::rlimit(40)]
    pub fn push_batch(&mut self, values: Vec<T>)
        requires
            old(self).wf(),
            old(self).room_for(values@.len() as int),
        ensures
            final(self).wf(),
            final(self).codec() == old(self).codec(),
            final(self).trace().log == old(self).trace().log + values@,
            final(self).published() == old(self).published() + values@.len(),
            final(self).same_consumers(old(self)),
            final(self).follows(old(self)),
            final(self).attached(
                old(self),
                if values@.len() == 0 {
                    0
                } else {
                    old(self).blocks_for(values@.len() as int)
                },
            ),
            final(self).allocated() <= old(self).allocated() + values@.len() + 1,
            old(self).settled() ==> final(self).waiting() == old(self).waiting() + values@,
    {
        proof {
            self.lemma_fresh(values@.len() as int);
            assert(self.pool@ =~= self.pool@.take(self.pool@.len() as int));
        }
        let ghost total = values@.len();
        let mut dirty: bool = false;
        for value in iter: values
            invariant
                self.inv(),
                self.codec() == old(self).codec(),
                iter.seq() == values@,
                total == values@.len(),
                old(self).wf(),
                old(self).tight_room(total as int),
                dirty <==> iter.index() > 0,
                dirty ==> self.trace@.ids.len() > 0,
                !dirty ==> *self == *old(self),
                self.trace@.log == old(self).trace@.log + values@.take(iter.index() as int),
                self.same_consumers(old(self)),
                self.attached(old(self), self.trace@.ids.len() - old(self).trace@.ids.len()),
        {
            let ghost done = iter.index() as int;
            let ghost middle = *self;
            proof {
                self.head_codec.lemma_length();
                vstd::arithmetic::div_mod::lemma_div_is_ordered(
                    self.trace@.log.len() as int + 1,
                    old(self).trace@.log.len() as int + total as int,
                    self.length(),
                );
                assert(values@.take(done + 1) =~= values@.take(done).push(value));
            }
            self.write_one(value);
            proof {
                self.lemma_attached(
                    &middle,
                    old(self),
                    middle.trace@.ids.len() - old(self).trace@.ids.len(),
                    self.trace@.ids.len() - middle.trace@.ids.len(),
                );
            }
            dirty = true;
        }
        assert(values@.take(total as int) =~= values@);
        if dirty {
            self.publish_tail();
        }
        proof {
            if dirty {
                self.lemma_block_count();
            }
            old(self).lemma_waiting();
            if old(self).settled() {
                assert(self.waiting() =~= old(self).waiting() + values@);
            }
        }
    }

    /// Pushes the values that come, in order, whatever number of them was
    /// announced.
    pub fn push_announced(&mut self, values: Vec<T>, _expected: usize)
        requires
            old(self).wf(),
            old(self).room_for(values@.len() as int),
        ensures
            final(self).wf(),
            final(self).codec() == old(self).codec(),
            final(self).trace().log == old(self).trace().log + values@,
            final(self).published() == old(self).published() + values@.len(),
            final(self).same_consumers(old(self)),
            final(self).follows(old(self)),
            final(self).attached(
                old(self),
                if values@.len() == 0 {
                    0
                } else {
                    old(self).blocks_for(values@.len() as int)
                },
            ),
            final(self).allocated() <= old(self).allocated() + values@.len() + 1,
            old(self).settled() ==> final(self).waiting() == old(self).waiting() + values@,
    {
        self.push_batch(values);
    }

    /// The published producer head as consumers load it.
    pub fn acquire_phead(&self) -> (head: Head)
        requires
            self.wf(),
        ensures
            head == self.codec().decode(self.producer_word()),
            self.trace().ids.len() == 0 ==> head == zero_head(),
            self.trace().ids.len() > 0 ==> head == self.producer_head() && head != zero_head(),
    {
        proof {
            self.lemma_words();
        }
        Head::from_usize(self.phead, &self.head_codec)
    }

    /// The consumer head as consumers load it.
    pub fn acquire_chead(&self) -> (head: Head)
        requires
            self.wf(),
        ensures
            head == self.codec().decode(self.consumer_word()),
            self.trace().ids.len() == 0 ==> head == zero_head(),
            self.trace().ids.len() > 0 ==> head == self.consumer_head() && head != zero_head(),
    {
        proof {
            self.lemma_words();
        }
        Head::from_usize(self.chead, &self.head_codec)
    }

    /// What the two packed words decode to.
    proof fn lemma_words(&self)
        requires
            self.inv(),
        ensures
            0 < self.length() < usize::MAX,
            self.trace@.ids.len() == 0 ==> {
                &&& self.head_codec.decode(self.chead) == zero_head()
                &&& self.head_codec.decode(self.phead) == zero_head()
                &&& self.published() == 0
                &&& self.head() == 0
            },
            self.trace@.ids.len() > 0 ==> {
                let t = self.trace@;
                &&& self.head_codec.decode(self.chead) == self.consumer_head()
                &&& self.head_codec.representable(self.consumer_head())
                &&& self.head_codec.representable(self.producer_head())
                &&& self.consumer_head().block != 0
                &&& self.producer_head().block != 0
                &&& self.chead != 0
                &&& t.live(t.head_block)
                &&& t.live(t.published_block)
                &&& self.block_wf(t.head_block)
                &&& self.head_codec.addressable(t.ids[t.head_block] as int)
                &&& self.consumer_head().block >> self.head_codec.bits() == t.ids[t.head_block] + 1
                &&& (self.producer_head().block == self.consumer_head().block <==> t.head_block
                    == t.published_block)
                &&& self.phead != 0 ==> self.head_codec.decode(self.phead) == self.producer_head()
                &&& self.phead == 0 ==> self.head_codec.decode(self.phead) == zero_head()
                    && self.published() == 0
            },
            0 <= self.head() <= position(self.length(), self.trace@.head_block, self.length()),
            0 <= self.published(),
    {
        self.head_codec.lemma_length();
        lemma_position_nonnegative(self.length(), self.trace@.head_block, self.trace@.head_index);
        lemma_position_nonnegative(
            self.length(),
            self.trace@.published_block,
            self.trace@.published_index,
        );
        self.head_codec.lemma_zero();
        let t = self.trace@;
        assert(position(self.length(), 0, 0) == 0) by (nonlinear_arith);
        if t.ids.len() > 0 {
            assert(t.live(t.head_block));
            assert(t.live(t.published_block));
            self.head_codec.lemma_address(t.ids[t.head_block] as int);
            self.head_codec.lemma_address(t.ids[t.published_block] as int);
            self.head_codec.lemma_round_trip(self.consumer_head());
            self.head_codec.lemma_round_trip(self.producer_head());
            self.head_codec.lemma_nonzero(self.consumer_head());
            self.head_codec.lemma_nonzero(self.producer_head());
            if self.producer_head().block == self.consumer_head().block {
                self.head_codec.lemma_address_injective(
                    t.ids[t.head_block] as int,
                    t.ids[t.published_block] as int,
                );
            }
        }
    }

    /// A momentary observation: nothing was ever published, or the heads meet.
    pub fn is_empty(&self) -> (empty: bool)
        requires
            self.wf(),
        ensures
            empty == (self.producer_word() == 0 || self.producer_word() == self.consumer_word()),
            self.settled() ==> empty == (self.waiting().len() == 0),
    {
        proof {
            self.lemma_words();
            self.lemma_waiting();
            if self.trace@.ids.len() > 0 && self.phead != 0 && self.phead == self.chead {
                self.head_codec.lemma_encode_injective(self.consumer_head(), self.producer_head());
            }
            if self.trace@.ids.len() > 0 && self.head() == self.published() {
                let t = self.trace@;
                let l = self.length();
                if t.head_index < l {
                    lemma_position_injective(
                        l,
                        t.head_block,
                        t.head_index,
                        t.published_block,
                        t.published_index,
                    );
                }
            }
        }
        self.phead == 0 || self.phead == self.chead
    }

    /// Installs `new` as the consumer head if the head still is `expected`.
    ///
    /// The positions the head moves over belong to the caller at once if the
    /// head says that its block is full. Otherwise they become pending: they
    /// belong to the caller once the claim is validated.
    pub fn compare_exchange_chead(&mut self, expected: usize, new: Head) -> (result: Result<
        usize,
        usize,
    >)
        requires
            old(self).wf(),
            old(self).consumer_word() == expected ==> {
                &&& old(self).trace().ids.len() > 0
                &&& new == (Head { index: new.index, ..old(self).consumer_head() })
                &&& old(self).trace().head_index < new.index <= old(self).length()
            },
        ensures
            final(self).wf(),
            final(self).follows(old(self)),
            final(self).codec() == old(self).codec(),
            final(self).allocated() == old(self).allocated(),
            final(self).cached() == old(self).cached(),
            if old(self).consumer_word() == expected {
                &&& result == Ok::<usize, usize>(expected)
                &&& final(self).trace() == (Trace {
                    head_index: new.index as int,
                    pending: if old(self).trace().hint {
                        old(self).trace().pending
                    } else {
                        old(self).trace().pending.union(
                            span(old(self).head(), final(self).head()),
                        )
                    },
                    claimed: if old(self).trace().hint {
                        old(self).trace().claimed.union(
                            span(old(self).head(), final(self).head()),
                        )
                    } else {
                        old(self).trace().claimed
                    },
                    ..old(self).trace()
                })
            } else {
                result == Err::<usize, usize>(old(self).consumer_word()) && *final(self) == *old(
                    self,
                )
            },
    {
        if self.chead != expected {
            return Err(self.chead);
        }
        proof {
            self.lemma_words();
        }
        self.chead = new.to_usize(&self.head_codec);
        let ghost run = span(
            self.head(),
            position(self.length(), self.trace@.head_block, new.index as int),
        );
        self.trace = Ghost(
            Trace {
                head_index: new.index as int,
                pending: if self.trace@.hint {
                    self.trace@.pending
                } else {
                    self.trace@.pending.union(run)
                },
                claimed: if self.trace@.hint {
                    self.trace@.claimed.union(run)
                } else {
                    self.trace@.claimed
                },
                ..self.trace@
            },
        );
        proof {
            let t = old(self).trace@;
            let u = self.trace@;
            let l = self.length();
            if t.head_block < t.published_block {
                lemma_position_order(l, t.head_block, t.published_block);
            }
            assert forall|k: int| #[trigger] u.live(k) == t.live(k) by {}
            assert forall|k: int| u.head_block <= k < u.ids.len() implies #[trigger] u.live(k) by {
                assert(t.live(k));
            }
            assert forall|k: int, i: int|
                0 <= k < u.ids.len() && 0 <= i < l && (u.pending.contains(
                    #[trigger] position(l, k, i),
                ) || u.claimed.contains(position(l, k, i))) implies u.live(k) by {
                let p = position(l, k, i);
                if old(self).head() <= p < self.head() {
                    lemma_position_injective(
                        l,
                        k,
                        i,
                        t.head_block,
                        p - position(l, t.head_block, 0),
                    );
                } else {
                    assert(t.live(k));
                }
            }
            assert forall|k: int| #[trigger] u.live(k) implies self.block_wf(k) by {
                assert(t.live(k));
                old(self).lemma_block_kept(self, k);
            }
        }
        Ok(expected)
    }

    /// Number of the live block at a page address.
    pub open spec fn number_of(&self, address: usize) -> int {
        self.trace().owner[(address >> self.codec().bits()) - 1]
    }

    /// The step from `original` to `claimed` was installed and is not
    /// validated yet.
    pub open spec fn is_pending(&self, original: Head, claimed: Head) -> bool {
        let k = self.number_of(original.block);
        &&& original.block == claimed.block
        &&& !original.has_next && !claimed.has_next
        &&& original.index < claimed.index <= self.length()
        &&& self.trace().live(k)
        &&& original.block == self.codec().address(self.trace().ids[k] as int)
        &&& forall|p: int|
            position(self.length(), k, original.index as int) <= p < position(
                self.length(),
                k,
                claimed.index as int,
            ) ==> #[trigger] self.trace().pending.contains(p)
    }

    /// Validates a claim that was made without the successor hint.
    ///
    /// The caller keeps exactly the published part of its range. `None` means
    /// that a claim stacked on this one has to be resolved first.
    pub fn resolve_speculative_claim(&mut self, original: Head, claimed: Head) -> (kept: Option<
        usize,
    >)
        requires
            old(self).wf(),
            old(self).is_pending(original, claimed),
        ensures
            final(self).wf(),
            final(self).follows(old(self)),
            final(self).codec() == old(self).codec(),
            final(self).allocated() == old(self).allocated(),
            final(self).cached() == old(self).cached(),
            ({
                let l = old(self).length();
                let k = old(self).number_of(original.block);
                let from = position(l, k, original.index as int);
                let to = position(l, k, claimed.index as int);
                let on_top = old(self).consumer_word() == old(self).codec().encode(claimed);
                match kept {
                    Some(n) => {
                        &&& old(self).published() >= to || on_top
                        &&& n == (if old(self).published() >= to {
                            to - from
                        } else if old(self).published() > from {
                            old(self).published() - from
                        } else {
                            0
                        })
                        &&& final(self).trace() == (Trace {
                            head_index: if old(self).published() >= to {
                                old(self).trace().head_index
                            } else if old(self).published() > from {
                                old(self).trace().published_index
                            } else {
                                original.index as int
                            },
                            hint: final(self).trace().hint,
                            pending: old(self).trace().pending.difference(span(from, to)),
                            claimed: old(self).trace().claimed.union(span(from, from + n)),
                            ..old(self).trace()
                        })
                        &&& final(self).trace().hint == (old(self).trace().hint || (on_top && k
                            < old(self).trace().published_block
                            && old(self).codec().hint_encoded()))
                    },
                    None => old(self).published() < to && !on_top && *final(self) == *old(self),
                }
            }),
    {
        let ghost l = self.length();
        let ghost k = self.number_of(original.block);
        let ghost from = position(l, k, original.index as int);
        let ghost to = position(l, k, claimed.index as int);
        proof {
            self.lemma_words();
            self.lemma_pending_claim(original, claimed);
        }
        let phead = self.acquire_phead();
        let chead = self.acquire_chead();
        match resolve_claim(phead, chead, original, claimed) {
            Resolution::Keep => {
                self.trace = Ghost(
                    Trace {
                        pending: self.trace@.pending.difference(span(from, to)),
                        claimed: self.trace@.claimed.union(span(from, to)),
                        ..self.trace@
                    },
                );
                proof {
                    old(self).lemma_regrant(self, from, to, to);
                }
                Some(claimed.index - original.index)
            },
            Resolution::KeepAndHint => {
                self.try_publish_has_next(claimed);
                let ghost hinted = *self;
                self.trace = Ghost(
                    Trace {
                        pending: self.trace@.pending.difference(span(from, to)),
                        claimed: self.trace@.claimed.union(span(from, to)),
                        ..self.trace@
                    },
                );
                proof {
                    hinted.lemma_regrant(self, from, to, to);
                }
                Some(claimed.index - original.index)
            },
            Resolution::Repair(index) => {
                let repaired = Head { block: original.block, index, has_next: false };
                self.chead = repaired.to_usize(&self.head_codec);
                let kept: usize = index - original.index;
                self.trace = Ghost(
                    Trace {
                        head_index: index as int,
                        pending: self.trace@.pending.difference(span(from, to)),
                        claimed: self.trace@.claimed.union(span(from, from + kept)),
                        ..self.trace@
                    },
                );
                proof {
                    old(self).lemma_regrant(self, from, to, from + kept);
                }
                Some(kept)
            },
            Resolution::Wait => None,
        }
    }

    /// Best-effort publication of the hint that the claimed block is full.
    fn try_publish_has_next(&mut self, claimed: Head)
        requires
            old(self).wf(),
            old(self).trace@.ids.len() > 0,
            old(self).head_codec.representable(claimed),
            !claimed.has_next,
            old(self).chead == old(self).head_codec.encode(claimed) ==> old(self).trace@.head_block
                < old(self).trace@.published_block,
        ensures
            final(self).wf(),
            final(self).head_codec == old(self).head_codec,
            final(self).blocks@.len() == old(self).blocks@.len(),
            final(self).pool@ == old(self).pool@,
            final(self).trace@ == (Trace {
                hint: old(self).trace@.hint || (old(self).chead == old(self).head_codec.encode(
                    claimed,
                ) && old(self).head_codec.hint_encoded()),
                ..old(self).trace@
            }),
    {
        let hinted = Head { block: claimed.block, index: claimed.index, has_next: true };
        let plain: usize = claimed.to_usize(&self.head_codec);
        let flagged: usize = hinted.to_usize(&self.head_codec);
        proof {
            self.lemma_words();
        }
        if plain != flagged && self.chead == plain {
            self.chead = flagged;
            self.trace = Ghost(Trace { hint: true, ..self.trace@ });
            proof {
                let t = old(self).trace@;
                let u = self.trace@;
                assert(self.head_codec.hint_encoded()) by {
                    if !self.head_codec.hint_encoded() {
                        self.head_codec.lemma_encode_stored(hinted);
                    }
                }
                assert forall|k: int| #[trigger] u.live(k) == t.live(k) by {}
                assert forall|k: int| u.head_block <= k < u.ids.len() implies #[trigger] u.live(
                    k,
                ) by {
                    assert(t.live(k));
                }
                assert forall|k: int| #[trigger] u.live(k) implies self.block_wf(k) by {
                    assert(t.live(k));
                    old(self).lemma_block_kept(self, k);
                }
            }
        }
    }

    /// Where a pending claim sits in the queue.
    proof fn lemma_pending_claim(&self, original: Head, claimed: Head)
        requires
            self.wf(),
            self.is_pending(original, claimed),
        ensures
            self.trace@.ids.len() > 0,
            self.head_codec.representable(original),
            self.head_codec.representable(claimed),
            ({
                let t = self.trace@;
                let l = self.length();
                let k = self.number_of(original.block);
                &&& 0 <= k <= t.head_block
                &&& (self.producer_head().block == original.block <==> k == t.published_block)
                &&& (self.consumer_head().block == original.block <==> k == t.head_block)
                &&& k < t.published_block ==> position(l, k, l) <= self.published()
                &&& (self.chead == self.head_codec.encode(claimed) <==> self.consumer_head()
                    == claimed)
                &&& self.consumer_head() == claimed <==> (k == t.head_block && t.head_index
                    == claimed.index && !t.hint)
            }),
    {
        let t = self.trace@;
        let l = self.length();
        let k = self.number_of(original.block);
        self.lemma_words();
        self.head_codec.lemma_address(t.ids[k] as int);
        let first = position(l, k, original.index as int);
        assert(t.pending.contains(first));
        if k > t.head_block {
            lemma_position_order(l, t.head_block, k);
        }
        if k < t.published_block {
            lemma_position_order(l, k, t.published_block);
        }
        if self.producer_head().block == original.block {
            self.head_codec.lemma_address_injective(
                t.ids[k] as int,
                t.ids[t.published_block] as int,
            );
        }
        if self.consumer_head().block == original.block {
            self.head_codec.lemma_address_injective(t.ids[k] as int, t.ids[t.head_block] as int);
        }
        self.head_codec.lemma_round_trip(claimed);
        self.head_codec.lemma_round_trip(self.consumer_head());
    }

    /// Turning the pending range `from..to` into the claimed range
    /// `from..kept`, with the head moved back to `kept` or left alone, keeps
    /// the queue well formed.
    proof fn lemma_regrant(&self, after: &Self, from: int, to: int, kept: int)
        requires
            self.wf(),
            self.trace@.ids.len() > 0,
            from <= kept <= to,
            from < to,
            kept <= self.published() || kept == from,
            forall|p: int| from <= p < to ==> #[trigger] self.trace@.pending.contains(p),
            after.head_codec == self.head_codec,
            after.blocks == self.blocks,
            after.pool == self.pool,
            after.phead == self.phead,
            after.tail == self.tail,
            after.chead == after.head_codec.encode(after.consumer_head()),
            after.trace@ == (Trace {
                head_index: after.trace@.head_index,
                pending: self.trace@.pending.difference(span(from, to)),
                claimed: self.trace@.claimed.union(span(from, kept)),
                ..self.trace@
            }),
            0 <= after.trace@.head_index <= self.length(),
            if kept == to {
                after.head() == self.head()
            } else {
                self.head() == to && after.head() == kept && self.published() <= kept
            },
        ensures
            after.wf(),
    {
        let t = self.trace@;
        let u = after.trace@;
        let l = self.length();
        self.lemma_words();
        assert forall|k: int| #[trigger] u.live(k) == t.live(k) by {}
        assert forall|k: int| u.head_block <= k < u.ids.len() implies #[trigger] u.live(k) by {
            assert(t.live(k));
        }
        assert forall|k: int, i: int|
            0 <= k < u.ids.len() && 0 <= i < l && (u.pending.contains(#[trigger] position(l, k, i))
                || u.claimed.contains(position(l, k, i))) implies u.live(k) by {
            assert(t.pending.contains(position(l, k, i)) || t.claimed.contains(position(l, k, i)));
            assert(t.live(k));
        }
        assert(t.pending.contains(from));
        assert forall|p: int| #[trigger] u.claimed.contains(p) implies 0 <= p < after.head() && p
            < after.published() && !u.pending.contains(p) by {
            if !t.claimed.contains(p) {
                assert(t.pending.contains(p));
            }
        }
        assert forall|k: int| #[trigger] u.live(k) implies after.block_wf(k) by {
            assert(t.live(k));
            assert forall|i: int| 0 <= i < l implies (t.stored(l, #[trigger] position(l, k, i))
                <==> u.stored(l, position(l, k, i))) by {
                let p = position(l, k, i);
                if from <= p < to {
                    assert(t.pending.contains(p));
                }
            }
            self.lemma_block_kept(after, k);
        }
    }

    /// Moves the consumer head off a block that is claimed to its end.
    ///
    /// While the head stands on the end no other claim can be made. The claim
    /// is extended over the following blocks as far as values are published
    /// and `requested` allows.
    pub fn finish_boundary_claim(&mut self, len: usize, requested: usize) -> (total: usize)
        requires
            old(self).wf(),
            old(self).trace().ids.len() > 0,
            old(self).trace().head_index == old(self).length(),
            old(self).head() <= old(self).published(),
            len <= requested,
        ensures
            final(self).wf(),
            final(self).follows(old(self)),
            final(self).codec() == old(self).codec(),
            final(self).allocated() == old(self).allocated(),
            final(self).cached() == old(self).cached(),
            len <= total <= requested,
            total - len == (if requested - len <= old(self).published() - old(self).head() {
                requested - len
            } else {
                old(self).published() - old(self).head()
            }),
            final(self).head() == old(self).head() + (total - len),
            final(self).trace().head_index < final(self).length(),
            final(self).trace() == (Trace {
                head_block: final(self).trace().head_block,
                head_index: final(self).trace().head_index,
                hint: final(self).trace().hint,
                claimed: old(self).trace().claimed.union(
                    span(old(self).head(), final(self).head()),
                ),
                ..old(self).trace()
            }),
    {
        let ghost t = self.trace@;
        let ghost l = self.length();
        proof {
            self.lemma_words();
            lemma_position_next(l, t.head_block);
            assert(t.head_block < t.published_block);
        }
        let length: usize = self.block_length();
        let chead = self.acquire_chead();
        let mut block: usize = self.head_codec.id_of(chead.block);
        let ghost mut number = t.head_block;
        let mut total: usize = len;
        loop
            invariant
                self.wf(),
                *self == *old(self),
                t == self.trace@,
                l == self.length(),
                length == l,
                0 < l,
                t.ids.len() > 0,
                t.head_index == l,
                t.head_block <= number < t.published_block,
                block == t.ids[number],
                len <= total <= requested,
                position(l, number, l) == self.head() + (total - len),
            decreases t.published_block - number,
        {
            proof {
                self.lemma_words();
                assert(t.live(number) && self.block_wf(number));
                assert(t.live(number + 1));
                lemma_position_next(l, number);
                self.head_codec.lemma_address(t.ids[number + 1] as int);
                self.head_codec.lemma_address(t.ids[t.published_block] as int);
                if self.head_codec.address(t.ids[number + 1] as int)
                    == self.producer_head().block {
                    assert(t.live(t.published_block));
                    self.head_codec.lemma_address_injective(
                        t.ids[number + 1] as int,
                        t.ids[t.published_block] as int,
                    );
                } else if number + 1 < t.published_block {
                    lemma_position_order(l, number + 1, t.published_block);
                }
            }
            block = self.blocks[block].next.unwrap();
            proof {
                number = number + 1;
            }
            let address: usize = self.head_codec.address_of(block);
            let phead = self.acquire_phead();
            let available: usize = if phead.block == address {
                phead.index
            } else {
                length
            };
            let wanted: usize = requested - total;
            let quantity: usize = if available < wanted {
                available
            } else {
                wanted
            };
            total = total + quantity;
            if quantity < length {
                let hinted = Head {
                    block: address,
                    index: quantity,
                    has_next: phead.block != address,
                };
                self.chead = hinted.to_usize(&self.head_codec);
                self.trace = Ghost(
                    Trace {
                        head_block: number,
                        head_index: quantity as int,
                        hint: phead.block != address && self.head_codec.hint_encoded(),
                        claimed: t.claimed.union(
                            span(self.head(), position(l, number, quantity as int)),
                        ),
                        ..t
                    },
                );
                proof {
                    self.head_codec.lemma_encode_stored(hinted);
                    old(self).lemma_advance(self);
                }
                return total;
            }
        }
    }

    /// Moving the head forward inside the published range, with everything it
    /// passes claimed, keeps the queue well formed.
    proof fn lemma_advance(&self, after: &Self)
        requires
            self.wf(),
            self.trace@.ids.len() > 0,
            after.head_codec == self.head_codec,
            after.blocks == self.blocks,
            after.pool == self.pool,
            after.phead == self.phead,
            after.tail == self.tail,
            after.chead == after.head_codec.encode(after.consumer_head()),
            self.head() <= after.head() <= self.published(),
            after.trace@ == (Trace {
                head_block: after.trace@.head_block,
                head_index: after.trace@.head_index,
                hint: after.trace@.hint,
                claimed: self.trace@.claimed.union(span(self.head(), after.head())),
                ..self.trace@
            }),
            self.trace@.head_block <= after.trace@.head_block <= self.trace@.published_block,
            0 <= after.trace@.head_index < self.length(),
            after.trace@.hint ==> self.head_codec.hint_encoded() && after.trace@.head_block
                < self.trace@.published_block,
        ensures
            after.wf(),
    {
        let t = self.trace@;
        let u = after.trace@;
        let l = self.length();
        self.lemma_words();
        assert forall|k: int| #[trigger] u.live(k) == t.live(k) by {}
        assert forall|k: int| u.head_block <= k < u.ids.len() implies #[trigger] u.live(k) by {
            assert(t.live(k));
        }
        assert forall|k: int, i: int|
            0 <= k < u.ids.len() && 0 <= i < l && (u.pending.contains(#[trigger] position(l, k, i))
                || u.claimed.contains(position(l, k, i))) implies u.live(k) by {
            let p = position(l, k, i);
            if p >= self.head() {
                if k < t.head_block {
                    lemma_position_order(l, k, t.head_block);
                }
                assert(t.live(k));
            } else {
                assert(t.live(k));
            }
        }
        assert forall|k: int| #[trigger] u.live(k) implies after.block_wf(k) by {
            assert(t.live(k));
            assert forall|i: int| 0 <= i < l implies (t.stored(l, #[trigger] position(l, k, i))
                <==> u.stored(l, position(l, k, i))) by {}
            self.lemma_block_kept(after, k);
        }
    }

    /// Published values that can be claimed in the head's own block.
    fn available(&self, chead: Head) -> (available: usize)
        requires
            self.wf(),
            self.trace@.ids.len() > 0,
            self.trace@.head_index < self.length(),
            chead == self.consumer_head(),
        ensures
            self.trace@.head_index + available <= self.length(),
            available == (if self.published() <= self.head() {
                0
            } else if self.trace@.head_block == self.trace@.published_block {
                self.published() - self.head()
            } else {
                self.length() - self.trace@.head_index
            }),
    {
        proof {
            self.lemma_words();
            if self.trace@.head_block < self.trace@.published_block {
                lemma_position_order(
                    self.length(),
                    self.trace@.head_block,
                    self.trace@.published_block,
                );
            }
        }
        let length: usize = self.block_length();
        // A set hint says that the block is full. Without it the producer head
        // has to be asked.
        if chead.has_next {
            return length - chead.index;
        }
        let phead = self.acquire_phead();
        if phead.block == chead.block {
            if phead.index > chead.index {
                phead.index - chead.index
            } else {
                0
            }
        } else {
            length - chead.index
        }
    }

    /// Claims the next `first` values, which are published and in one block.
    fn claim(&mut self, chead: Head, first: usize)
        requires
            old(self).wf(),
            old(self).trace@.ids.len() > 0,
            0 < first,
            old(self).trace@.head_index + first <= old(self).length(),
            old(self).head() + first <= old(self).published(),
            chead == old(self).consumer_head(),
        ensures
            final(self).wf(),
            final(self).head_codec == old(self).head_codec,
            final(self).blocks@.len() == old(self).blocks@.len(),
            final(self).pool@ == old(self).pool@,
            final(self).trace@ == (Trace {
                head_index: old(self).trace@.head_index + first,
                hint: final(self).trace@.hint,
                claimed: old(self).trace@.claimed.union(
                    span(old(self).head(), old(self).head() + first),
                ),
                ..old(self).trace@
            }),
    {
        let ghost t = self.trace@;
        let ghost from = self.head();
        let ghost to = from + first;
        proof {
            self.lemma_words();
        }
        let claimed = Head {
            block: chead.block,
            index: chead.index + first,
            has_next: chead.has_next,
        };
        let expected: usize = chead.to_usize(&self.head_codec);
        let _installed = self.compare_exchange_chead(expected, claimed);
        assert(self.head() == to);
        assert(t.pending.union(span(from, to)).difference(span(from, to)) =~= t.pending);
        if !chead.has_next {
            proof {
                self.lemma_words();
                assert(self.number_of(chead.block) == t.head_block);
                assert(t.live(t.head_block));
            }
            let _kept = self.resolve_speculative_claim(chead, claimed);
        }
    }

    /// Reserves up to `size` published values, the oldest first.
    ///
    /// The reservation belongs to the caller: its values stay in the queue
    /// until they are read through it, and no other reservation contains them.
    pub fn pop_batch(&mut self, size: usize) -> (iter: SPMCIter)
        requires
            old(self).wf(),
            old(self).trace().head_index < old(self).length(),
        ensures
            final(self).wf(),
            final(self).follows(old(self)),
            final(self).codec() == old(self).codec(),
            final(self).allocated() == old(self).allocated(),
            final(self).cached() == old(self).cached(),
            final(self).trace().head_index < final(self).length(),
            iter.remaining() == (if size <= old(self).waiting().len() {
                size as int
            } else {
                old(self).waiting().len() as int
            }),
            iter.reserved(final(self)),
            iter.remaining() > 0 ==> iter.start(final(self)) == old(self).head(),
            final(self).trace() == (Trace {
                head_block: final(self).trace().head_block,
                head_index: final(self).trace().head_index,
                hint: final(self).trace().hint,
                claimed: old(self).trace().claimed.union(
                    span(old(self).head(), old(self).head() + iter.remaining()),
                ),
                ..old(self).trace()
            }),
            final(self).head() == old(self).head() + iter.remaining(),
            final(self).waiting() == old(self).waiting().skip(iter.remaining()),
    {
        let ghost t = self.trace@;
        let ghost l = self.length();
        proof {
            self.lemma_words();
            assert(self.waiting().skip(0) =~= self.waiting());
            assert(t.claimed.union(span(self.head(), self.head())) =~= t.claimed);
        }
        if size == 0 {
            return SPMCIter::empty();
        }
        let length: usize = self.block_length();
        let chead = self.acquire_chead();
        if chead.is_zero() {
            return SPMCIter::empty();
        }
        let ghost from = self.head();
        let block: usize = self.head_codec.id_of(chead.block);
        let available: usize = self.available(chead);
        let first: usize = if available < size {
            available
        } else {
            size
        };
        if first == 0 {
            return SPMCIter::empty();
        }
        proof {
            if t.head_block < t.published_block {
                lemma_position_order(l, t.head_block, t.published_block);
            }
        }
        self.claim(chead, first);
        let mut len: usize = first;
        if chead.index + first == length {
            len = self.finish_boundary_claim(first, size);
        }
        proof {
            assert(self.trace@.claimed =~= t.claimed.union(span(from, from + len)));
            assert(self.waiting() =~= old(self).waiting().skip(len as int));
        }
        SPMCIter { block, index: chead.index, len, number: Ghost(t.head_block) }
    }
}

/// One state that can come after another can come after all that the other can
/// come after.
pub proof fn law_histories_join<T>(first: &SPMC<T>, second: &SPMC<T>, third: &SPMC<T>)
    requires
        second.follows(first),
        third.follows(second),
    ensures
        third.follows(first),
{
    let t = first.trace();
    let u = second.trace();
    let v = third.trace();
    assert forall|i: int| 0 <= i < t.log.len() implies t.log[i] == v.log[i] by {
        assert(u.log[i] == t.log[i]);
    }
    assert forall|i: int| 0 <= i < t.ids.len() implies t.ids[i] == v.ids[i] by {
        assert(u.ids[i] == t.ids[i]);
    }
    assert forall|p: int| first.is_read(p) implies #[trigger] third.is_read(p) by {
        assert(second.is_read(p));
    }
}

/// Whatever the producer and the consumers do meanwhile, the consumer that
/// holds a position reads what was pushed there.
pub proof fn law_a_position_keeps_its_value<T>(
    pushed: &SPMC<T>,
    later: &SPMC<T>,
    iter: &SPMCIter,
    p: int,
)
    requires
        later.wf(),
        later.follows(pushed),
        iter.reserved(later),
        0 <= p < pushed.trace().log.len(),
        iter.start(later) <= p < iter.start(later) + iter.remaining(),
    ensures
        iter.values(later)[p - iter.start(later)] == pushed.trace().log[p],
{
    iter.lemma_reserved_range(later);
    assert(later.trace().log[p] == pushed.trace().log[p]);
}

/// A position that was read is in no consumer's hands ever after.
pub proof fn law_a_position_is_read_once<T>(read: &SPMC<T>, later: &SPMC<T>, iter: &SPMCIter, p: int)
    requires
        read.is_read(p),
        later.follows(read),
        iter.reserved(later),
    ensures
        !(iter.start(later) <= p < iter.start(later) + iter.remaining()),
{
    assert(later.is_read(p));
}

/// A uniquely owned range of reserved positions.
pub struct SPMCIter {
    block: usize,
    index: usize,
    len: usize,
    number: Ghost<int>,
}

impl SPMCIter {
    /// Values left to read.
    pub closed spec fn remaining(&self) -> int {
        self.len as int
    }

    /// Position of the next value.
    pub closed spec fn start<T>(&self, queue: &SPMC<T>) -> int {
        position(queue.length(), self.number@, self.index as int)
    }

    /// Every position of the range is claimed in `queue` and still unread.
    pub closed spec fn reserved<T>(&self, queue: &SPMC<T>) -> bool {
        self.len > 0 ==> {
            &&& 0 <= self.number@ < queue.trace@.ids.len()
            &&& self.block == queue.trace@.ids[self.number@]
            &&& self.index < queue.length()
            &&& forall|p: int|
                self.start(queue) <= p < self.start(queue) + self.len
                    ==> #[trigger] queue.trace@.claimed.contains(p)
        }
    }

    /// Every position of the range is claimed in `queue`, or its claim is
    /// installed and not validated yet.
    pub closed spec fn installed<T>(&self, queue: &SPMC<T>) -> bool {
        self.len > 0 ==> {
            &&& 0 <= self.number@ < queue.trace@.ids.len()
            &&& self.block == queue.trace@.ids[self.number@]
            &&& self.index < queue.length()
            &&& forall|p: int|
                self.start(queue) <= p < self.start(queue) + self.len ==> (
                #[trigger] queue.trace@.claimed.contains(p)) || queue.trace@.pending.contains(p)
        }
    }

    /// The values that are left to read, in order.
    pub open spec fn values<T>(&self, queue: &SPMC<T>) -> Seq<T> {
        if self.remaining() == 0 {
            Seq::empty()
        } else {
            queue.trace().log.subrange(
                self.start(queue),
                self.start(queue) + self.remaining(),
            )
        }
    }

    fn empty() -> (iter: Self)
        ensures
            iter.len == 0,
    {
        SPMCIter { block: 0, index: 0, len: 0, number: Ghost(0) }
    }

    /// Number of values left to read.
    pub fn len(&self) -> (len: usize)
        ensures
            len == self.remaining(),
    {
        self.len
    }

    /// Reads the next value of the reservation.
    ///
    /// Whoever reads the last value of a block sends the block to the cache.
    pub fn next<T>(&mut self, queue: &mut SPMC<T>) -> (value: Option<T>)
        requires
            old(queue).wf(),
            old(self).reserved(old(queue)),
            old(self).remaining() > 0 ==> !old(queue).keeps_head(old(self).start(old(queue))),
        ensures
            final(queue).wf(),
            final(queue).follows(old(queue)),
            final(queue).codec() == old(queue).codec(),
            final(self).reserved(final(queue)),
            if old(self).remaining() == 0 {
                &&& value is None
                &&& *final(self) == *old(self)
                &&& *final(queue) == *old(queue)
            } else {
                let p = old(self).start(old(queue));
                &&& value == Some(old(queue).trace().log[p])
                &&& final(self).remaining() == old(self).remaining() - 1
                &&& final(self).start(final(queue)) == p + 1
                &&& final(queue).allocated() == old(queue).allocated()
                &&& final(queue).cached() == (if final(queue).is_finished(
                    p / old(queue).length(),
                ) {
                    old(queue).cached().push(old(queue).trace().ids[p / old(queue).length()])
                } else {
                    old(queue).cached()
                })
                &&& final(queue).trace() == (Trace {
                    owner: final(queue).trace().owner,
                    claimed: old(queue).trace().claimed.remove(p),
                    ..old(queue).trace()
                })
            },
    {
        if self.len == 0 {
            return None;
        }
        let length: usize = queue.block_length();
        let block: usize = self.block;
        let ghost number = self.number@;
        let ghost l = queue.length();
        proof {
            queue.lemma_claimed_slot(number, self.index as int);
            lemma_position_next(l, number);
            lemma_block_of(l, number, self.index as int);
        }
        let next: Option<usize> = queue.blocks[block].next;
        let value = queue.complete(block, self.index, Ghost(number));
        self.index = self.index + 1;
        self.len = self.len - 1;
        if self.index == length {
            self.block = match next {
                Some(next) => next,
                None => 0,
            };
            self.index = 0;
            self.number = Ghost(number + 1);
            proof {
                if self.len > 0 {
                    assert(queue.trace@.claimed.contains(position(l, number + 1, 0)));
                    assert(position(l, number + 1, 0) < queue.trace@.log.len());
                    let last = queue.trace@.ids.len() - 1;
                    if last <= number {
                        if last < number {
                            lemma_position_order(l, last, number);
                        }
                        assert(false);
                    }
                }
            }
        }
        Some(value)
    }
}

impl<T> SPMC<T> {
    /// A claimed position is in a live block, holds its value and lies in the
    /// published prefix of its block.
    proof fn lemma_claimed_slot(&self, k: int, i: int)
        requires
            self.wf(),
            0 <= k < self.trace@.ids.len(),
            0 <= i < self.length(),
            self.trace@.claimed.contains(position(self.length(), k, i)),
        ensures
            self.trace@.live(k),
            self.block_wf(k),
            ({
                let p = position(self.length(), k, i);
                let b = self.blocks@[self.trace@.ids[k] as int];
                &&& b.slots@[i] == Some(self.trace@.log[p])
                &&& p < self.trace@.log.len()
                &&& i < self.number_written(k)
                &&& i < b.produced
                &&& k < self.trace@.ids.len() - 1 ==> b.next == Some(self.trace@.ids[k + 1])
            }),
    {
        let t = self.trace@;
        let l = self.length();
        assert(t.live(k));
        assert(self.block_wf(k));
        assert(t.stored(l, position(l, k, i)));
        let last = t.ids.len() - 1;
        lemma_position_nonnegative(l, k, i);
        if t.published_block < last {
            lemma_position_order(l, t.published_block, last);
        }
    }

    /// Takes the value out of a claimed slot and counts it as consumed. The
    /// last one recycles the block.
    fn complete(&mut self, id: usize, index: usize, number: Ghost<int>) -> (value: T)
        requires
            old(self).wf(),
            !old(self).keeps_head(position(old(self).length(), number@, index as int)),
            0 <= number@ < old(self).trace@.ids.len(),
            id == old(self).trace@.ids[number@],
            index < old(self).length(),
            old(self).trace@.claimed.contains(
                position(old(self).length(), number@, index as int),
            ),
        ensures
            final(self).wf(),
            final(self).head_codec == old(self).head_codec,
            final(self).blocks@.len() == old(self).blocks@.len(),
            ({
                let p = position(old(self).length(), number@, index as int);
                &&& value == old(self).trace@.log[p]
                &&& final(self).pool@ == (if final(self).is_finished(number@) {
                    old(self).pool@.push(id)
                } else {
                    old(self).pool@
                })
                &&& final(self).trace@ == (Trace {
                    owner: final(self).trace@.owner,
                    claimed: old(self).trace@.claimed.remove(p),
                    ..old(self).trace@
                })
            }),
    {
        let ghost l = self.length();
        let ghost k = number@;
        let ghost p = position(l, k, index as int);
        proof {
            self.lemma_claimed_slot(k, index as int);
            self.lemma_words();
        }
        let length: usize = self.block_length();
        let value = self.blocks[id].slots[index].take().unwrap();
        let consumed: usize = self.blocks[id].consumed + 1;
        self.blocks[id].consumed = consumed;
        let ghost slots = self.blocks@[id as int].slots@;
        proof {
            let before = old(self).blocks@[id as int].slots@;
            let written = self.number_written(k);
            assert(slots =~= before.update(index as int, None));
            assert(slots.take(written) =~= before.take(written).update(index as int, None));
            lemma_vacant_take(before.take(written), index as int);
            lemma_vacant_bound(slots.take(written));
            assert forall|i: int| 0 <= i < written implies slots.take(written)[i] == slots[i] by {}
        }
        if consumed == length {
            // Every slot has been read: reset the block and cache it.
            self.blocks[id].next = None;
            self.blocks[id].produced = 0;
            self.blocks[id].consumed = 0;
            self.pool.push(id);
            self.trace = Ghost(
                Trace {
                    owner: self.trace@.owner.update(id as int, -1),
                    claimed: self.trace@.claimed.remove(p),
                    ..self.trace@
                },
            );
            assert forall|i: int| 0 <= i < l implies #[trigger] slots[i] is None by {
                assert(slots.take(l)[i] is None);
            }
            proof {
                let before = old(self).blocks@[id as int].slots@;
                assert forall|i: int| 0 <= i < l && i != index implies #[trigger] before[i] is None by {
                    assert(slots[i] == before[i]);
                }
                old(self).lemma_recycle(self, k, index as int);
                self.lemma_finished_by(old(self), k, index as int);
            }
        } else {
            self.trace = Ghost(
                Trace { claimed: self.trace@.claimed.remove(p), ..self.trace@ },
            );
            proof {
                old(self).lemma_consume(self, k, index as int);
                self.lemma_unfinished_after(k);
            }
        }
        value
    }

    /// A block whose only unread slot was read is finished.
    proof fn lemma_finished_by(&self, before: &Self, k: int, index: int)
        requires
            before.wf(),
            before.block_wf(k),
            0 <= k < before.trace@.ids.len(),
            0 <= index < before.length(),
            before.trace@.claimed.contains(position(before.length(), k, index)),
            before.number_written(k) == before.length(),
            self.head_codec == before.head_codec,
            self.trace@ == (Trace {
                owner: self.trace@.owner,
                claimed: before.trace@.claimed.remove(position(before.length(), k, index)),
                ..before.trace@
            }),
            forall|i: int|
                0 <= i < before.length() && i != index
                    ==> #[trigger] before.blocks@[before.trace@.ids[k] as int].slots@[i] is None,
        ensures
            self.is_finished(k),
    {
        let t = before.trace@;
        let l = before.length();
        let b = before.blocks@[t.ids[k] as int];
        let last = t.ids.len() - 1;
        if k < last {
            lemma_position_order(l, k, last);
        }
        assert forall|i: int| 0 <= i < l implies #[trigger] self.is_read(position(l, k, i)) by {
            lemma_position_nonnegative(l, k, i);
            if i != index {
                assert(b.slots@[i] is None);
                assert(position(l, k, i) < t.log.len());
            }
        }
    }

    /// A block that is still in use is not finished.
    proof fn lemma_unfinished_after(&self, k: int)
        requires
            self.wf(),
            self.trace@.live(k),
        ensures
            !self.is_finished(k),
    {
        let t = self.trace@;
        let l = self.length();
        let b = self.blocks@[t.ids[k] as int];
        let written = self.number_written(k);
        let last = t.ids.len() - 1;
        assert(self.block_wf(k));
        self.lemma_tail();
        lemma_vacant_bound(b.slots@.take(written));
        if written < l {
            assert(position(l, k, written) >= self.published());
            assert(!self.is_read(position(l, k, written)));
        } else {
            let i = choose|i: int| 0 <= i < written && b.slots@.take(written)[i] is Some;
            assert(b.slots@[i] is Some);
            assert(t.stored(l, position(l, k, i)));
            assert(!self.is_read(position(l, k, i)));
        }
    }

    /// Reading one claimed slot of a block that is not finished by it.
    proof fn lemma_consume(&self, after: &Self, k: int, index: int)
        requires
            self.wf(),
            !self.keeps_head(position(self.length(), k, index)),
            0 <= k < self.trace@.ids.len(),
            0 <= index < self.length(),
            self.trace@.claimed.contains(position(self.length(), k, index)),
            after.head_codec == self.head_codec,
            after.phead == self.phead,
            after.chead == self.chead,
            after.tail == self.tail,
            after.pool == self.pool,
            after.trace@ == (Trace {
                claimed: self.trace@.claimed.remove(position(self.length(), k, index)),
                ..self.trace@
            }),
            after.blocks@.len() == self.blocks@.len(),
            ({
                let id = self.trace@.ids[k] as int;
                let b = self.blocks@[id];
                let c = after.blocks@[id];
                &&& forall|other: int|
                    0 <= other < self.blocks@.len() && other != id ==> after.blocks@[other]
                        == self.blocks@[other]
                &&& c.next == b.next
                &&& c.produced == b.produced
                &&& c.slots@ == b.slots@.update(index, None)
                &&& c.consumed == vacant(c.slots@.take(self.number_written(k)))
                &&& c.consumed < self.length()
            }),
        ensures
            after.wf(),
    {
        let t = self.trace@;
        let u = after.trace@;
        let l = self.length();
        let p = position(l, k, index);
        self.lemma_claimed_slot(k, index);
        assert forall|m: int| #[trigger] u.live(m) == t.live(m) by {}
        assert forall|m: int| u.head_block <= m < u.ids.len() implies #[trigger] u.live(m) by {
            assert(t.live(m));
        }
        assert forall|j: int| 0 <= j < after.pool@.len() implies (#[trigger] after.pool@[j])
            < u.owner.len() && u.owner[after.pool@[j] as int] < 0 && after.blank(
            after.pool@[j] as int,
        ) by {
            assert(self.blank(self.pool@[j] as int));
        }
        assert forall|m: int| #[trigger] u.live(m) implies after.block_wf(m) by {
            self.lemma_consume_block(after, k, index, m);
        }
    }

    /// Reading slot `index` of block `k` keeps every block in agreement that
    /// stays live.
    proof fn lemma_consume_block(&self, after: &Self, k: int, index: int, m: int)
        requires
            self.wf(),
            0 <= k < self.trace@.ids.len(),
            0 <= index < self.length(),
            self.trace@.claimed.contains(position(self.length(), k, index)),
            self.trace@.live(m),
            after.head_codec == self.head_codec,
            after.tail == self.tail,
            after.trace@ == (Trace {
                owner: after.trace@.owner,
                claimed: self.trace@.claimed.remove(position(self.length(), k, index)),
                ..self.trace@
            }),
            after.blocks@.len() == self.blocks@.len(),
            m != k ==> after.blocks@[self.trace@.ids[m] as int]
                == self.blocks@[self.trace@.ids[m] as int],
            m == k ==> {
                let b = self.blocks@[self.trace@.ids[k] as int];
                let c = after.blocks@[self.trace@.ids[k] as int];
                &&& c.next == b.next
                &&& c.produced == b.produced
                &&& c.slots@ == b.slots@.update(index, None)
                &&& c.consumed == vacant(c.slots@.take(self.number_written(k)))
                &&& c.consumed < self.length()
            },
        ensures
            after.block_wf(m),
    {
        let t = self.trace@;
        let u = after.trace@;
        let l = self.length();
        let p = position(l, k, index);
        self.lemma_claimed_slot(k, index);
        assert(self.block_wf(m));
        let b = self.blocks@[t.ids[m] as int];
        let c = after.blocks@[t.ids[m] as int];
        assert forall|i: int| 0 <= i < l implies #[trigger] c.slots@[i] == (if u.stored(
            l,
            position(l, m, i),
        ) {
            Some(u.log[position(l, m, i)])
        } else {
            None
        }) by {
            let q = position(l, m, i);
            if q == p {
                lemma_position_injective(l, m, i, k, index);
            } else if m == k {
                assert(i != index);
                assert(b.slots@[i] == c.slots@[i]);
            } else {
                assert(b.slots@[i] == c.slots@[i]);
            }
        }
    }

    /// Reading the last unread slot of a block and caching the block.
    proof fn lemma_recycle(&self, after: &Self, k: int, index: int)
        requires
            self.wf(),
            !self.keeps_head(position(self.length(), k, index)),
            0 <= k < self.trace@.ids.len(),
            0 <= index < self.length(),
            self.trace@.claimed.contains(position(self.length(), k, index)),
            after.head_codec == self.head_codec,
            after.phead == self.phead,
            after.chead == self.chead,
            after.tail == self.tail,
            after.pool@ == self.pool@.push(self.trace@.ids[k]),
            after.trace@ == (Trace {
                owner: self.trace@.owner.update(self.trace@.ids[k] as int, -1),
                claimed: self.trace@.claimed.remove(position(self.length(), k, index)),
                ..self.trace@
            }),
            after.blocks@.len() == self.blocks@.len(),
            forall|other: int|
                0 <= other < self.blocks@.len() && other != self.trace@.ids[k]
                    ==> after.blocks@[other] == self.blocks@[other],
            after.blank(self.trace@.ids[k] as int),
            self.number_written(k) == self.length(),
            forall|i: int|
                0 <= i < self.length() && i != index
                    ==> #[trigger] self.blocks@[self.trace@.ids[k] as int].slots@[i] is None,
        ensures
            after.wf(),
    {
        let t = self.trace@;
        let u = after.trace@;
        let l = self.length();
        let id = t.ids[k] as int;
        let b = self.blocks@[id];
        self.lemma_claimed_slot(k, index);
        self.lemma_words();
        let last = t.ids.len() - 1;
        assert(k < last);
        // No position of the block is left, so the head is past it.
        assert forall|i: int| 0 <= i < l && i != index implies !t.stored(
            l,
            #[trigger] position(l, k, i),
        ) by {
            assert(b.slots@[i] is None);
        }
        assert(k < t.head_block) by {
            if k == t.head_block {
                lemma_position_order(l, k, last);
                let i = if t.head_index == l {
                    l - 1
                } else {
                    t.head_index
                };
                assert(t.stored(l, position(l, k, i)));
                assert(i == index);
            } else if k > t.head_block {
                lemma_position_order(l, t.head_block, k);
            }
        }
        assert forall|m: int| #[trigger] u.live(m) <==> (t.live(m) && m != k) by {
            if 0 <= m < t.ids.len() && t.ids[m] == id {
            }
        }
        assert forall|x: int| 0 <= x < u.owner.len() implies #[trigger] u.owner[x] < 0 || (
        u.owner[x] < u.ids.len() && u.ids[u.owner[x]] == x) by {
            assert(x == id || u.owner[x] == t.owner[x]);
        }
        assert forall|x: int| 0 <= x < u.owner.len() && #[trigger] u.owner[x] < 0 implies
            after.pool@.contains(x as usize) by {
            if x == id {
                assert(after.pool@[self.pool@.len() as int] == x as usize);
            } else {
                assert(t.owner[x] < 0);
                let j = choose|j: int| 0 <= j < self.pool@.len() && self.pool@[j] == x as usize;
                assert(after.pool@[j] == x as usize);
            }
        }
        assert forall|j: int| 0 <= j < after.pool@.len() implies (#[trigger] after.pool@[j])
            < u.owner.len() && u.owner[after.pool@[j] as int] < 0 && after.blank(
            after.pool@[j] as int,
        ) by {
            if j < self.pool@.len() {
                assert(self.pool@[j] == after.pool@[j]);
                assert(self.blank(self.pool@[j] as int));
            }
        }
        assert(after.pool@.no_duplicates()) by {
            assert forall|i: int, j: int|
                0 <= i < j < after.pool@.len() implies after.pool@[i] != after.pool@[j] by {
                assert(self.pool@[i] == after.pool@[i]);
                if j < self.pool@.len() {
                    assert(self.pool@[j] == after.pool@[j]);
                }
            }
        }
        assert forall|m: int| u.head_block <= m < u.ids.len() implies #[trigger] u.live(m) by {
            assert(t.live(m));
        }
        assert forall|m: int, i: int|
            0 <= m < u.ids.len() && 0 <= i < l && (u.pending.contains(#[trigger] position(l, m, i))
                || u.claimed.contains(position(l, m, i))) implies u.live(m) by {
            assert(t.live(m));
            if m == k {
                assert(i != index);
                assert(!t.stored(l, position(l, k, i)));
                lemma_position_order(l, k, last);
                lemma_position_nonnegative(l, k, i);
            }
        }
        assert forall|m: int| #[trigger] u.live(m) implies after.block_wf(m) by {
            assert(t.live(m) && m != k);
            self.lemma_consume_block(after, k, index, m);
        }
    }

    /// Removes the oldest value, if one is published.
    pub fn pop(&mut self) -> (value: Option<T>)
        requires
            old(self).wf(),
            old(self).trace().head_index < old(self).length(),
        ensures
            final(self).wf(),
            final(self).follows(old(self)),
            final(self).codec() == old(self).codec(),
            final(self).allocated() == old(self).allocated(),
            final(self).cached() == (if old(self).waiting().len() > 0 && final(self).is_finished(
                old(self).head() / old(self).length(),
            ) {
                old(self).cached().push(
                    old(self).trace().ids[old(self).head() / old(self).length()],
                )
            } else {
                old(self).cached()
            }),
            final(self).trace().head_index < final(self).length(),
            final(self).trace().log == old(self).trace().log,
            final(self).trace().pending == old(self).trace().pending,
            final(self).trace().claimed == old(self).trace().claimed,
            final(self).published() == old(self).published(),
            if old(self).waiting().len() == 0 {
                value is None && final(self).waiting() == old(self).waiting()
            } else {
                value == Some(old(self).waiting()[0]) && final(self).waiting() == old(
                    self,
                ).waiting().skip(1)
            },
    {
        let mut iter = self.pop_batch(1);
        let ghost between = *self;
        let value = iter.next(self);
        proof {
            law_histories_join(old(self), &between, self);
            old(self).lemma_words();
            let claimed = old(self).trace@.claimed;
            let from = old(self).head();
            assert(!claimed.contains(from));
            assert(claimed.union(span(from, from)) =~= claimed);
            assert(claimed.union(span(from, from + 1)).remove(from) =~= claimed);
            assert(old(self).waiting().skip(0) =~= old(self).waiting());
        }
        value
    }

    /// A reservation over positions that were claimed from `original` on. Where
    /// the claim is not validated yet, the values must not be read before it is.
    pub fn reservation(&self, original: Head, len: usize) -> (iter: SPMCIter)
        requires
            self.wf(),
            original.index < self.length(),
            ({
                let k = self.number_of(original.block);
                let from = position(self.length(), k, original.index as int);
                &&& self.trace().live(k)
                &&& original.block == self.codec().address(self.trace().ids[k] as int)
                &&& forall|p: int|
                    from <= p < from + len ==> (#[trigger] self.trace().claimed.contains(p))
                        || self.trace().pending.contains(p)
            }),
        ensures
            iter.remaining() == len,
            iter.installed(self),
            (forall|p: int|
                iter.start(self) <= p < iter.start(self) + len
                    ==> #[trigger] self.trace().claimed.contains(p)) ==> iter.reserved(self),
            iter.start(self) == position(
                self.length(),
                self.number_of(original.block),
                original.index as int,
            ),
    {
        let ghost k = self.number_of(original.block);
        proof {
            self.head_codec.lemma_address(self.trace@.ids[k] as int);
        }
        SPMCIter {
            block: self.head_codec.id_of(original.block),
            index: original.index,
            len,
            number: Ghost(k),
        }
    }

    /// The published prefix of a live block tells how far its values are
    /// published.
    proof fn lemma_produced(&self, k: int)
        requires
            self.wf(),
            self.trace@.live(k),
        ensures
            self.block_wf(k),
            ({
                let l = self.length();
                let produced = self.blocks@[self.trace@.ids[k] as int].produced as int;
                &&& forall|i: int|
                    0 <= i <= l ==> (i <= produced <==> #[trigger] position(l, k, i)
                        <= self.published() || i == 0)
                &&& produced == l ==> k < self.trace@.ids.len() - 1
            }),
    {
        let t = self.trace@;
        let l = self.length();
        let last = t.ids.len() - 1;
        assert(self.block_wf(k));
        lemma_position_injective(
            l,
            t.published_block,
            t.published_index,
            last,
            self.tail.index as int,
        );
        if k < last {
            lemma_position_order(l, k, last);
        }
    }

    /// Checks the published prefix of every block that a claim covers: whether
    /// all of its positions are published. A reservation never fails this
    /// check; a claim that is not validated yet can.
    pub fn validate_claim(&self, iter: &SPMCIter) -> (valid: bool)
        requires
            self.wf(),
            iter.reserved(self) || iter.installed(self),
        ensures
            valid == (iter.remaining() == 0 || iter.start(self) + iter.remaining()
                <= self.published()),
            iter.reserved(self) ==> valid,
    {
        let length: usize = self.block_length();
        let mut block: usize = iter.block;
        let mut index: usize = iter.index;
        let mut len: usize = iter.len;
        let ghost mut number = iter.number@;
        let ghost l = self.length();
        let ghost end = iter.start(self) + iter.len;
        proof {
            if iter.len > 0 && iter.reserved(self) {
                assert(self.trace@.claimed.contains(end - 1));
            }
        }
        while len != 0
            invariant
                self.wf(),
                l == self.length(),
                length == l,
                iter.len > 0 ==> end == position(l, number, index as int) + len || len == 0,
                iter.len > 0 && len == 0 ==> end <= self.published(),
                len > 0 ==> iter.len > 0,
                len > 0 ==> {
                    &&& 0 <= number < self.trace@.ids.len()
                    &&& block == self.trace@.ids[number]
                    &&& index < l
                },
                forall|p: int|
                    position(l, number, index as int) <= p < position(l, number, index as int) + len
                        ==> (#[trigger] self.trace@.claimed.contains(p))
                        || self.trace@.pending.contains(p),
                end == iter.start(self) + iter.len,
                iter.len > 0 && iter.reserved(self) ==> end <= self.published(),
            decreases len,
        {
            let rest: usize = length - index;
            let quantity: usize = if len < rest {
                len
            } else {
                rest
            };
            let ghost from = position(l, number, index as int);
            proof {
                assert(self.trace@.claimed.contains(from) || self.trace@.pending.contains(from));
                assert(self.trace@.live(number));
                self.lemma_produced(number);
                assert(position(l, number, index + quantity) == from + quantity);
            }
            if index + quantity > self.blocks[block].produced {
                return false;
            }
            len = len - quantity;
            if len != 0 {
                proof {
                    lemma_position_next(l, number);
                    number = number + 1;
                }
                block = match self.blocks[block].next {
                    Some(next) => next,
                    None => return false,
                };
                index = 0;
            }
        }
        true
    }
}

/// The block of a position.
proof fn lemma_block_of(l: int, k: int, i: int)
    requires
        0 <= i < l,
    ensures
        position(l, k, i) / l == k,
{
    vstd::arithmetic::div_mod::lemma_fundamental_div_mod_converse(position(l, k, i), l, k, i);
}

/// The next position is in the same block or in the next.
proof fn lemma_next_block(l: int, p: int)
    requires
        0 < l,
    ensures
        (p + 1) / l == p / l || (p + 1) / l == p / l + 1,
{
    let q = p / l;
    let r = p % l;
    vstd::arithmetic::div_mod::lemma_fundamental_div_mod(p, l);
    vstd::arithmetic::div_mod::lemma_mod_bound(p, l);
    assert(p == q * l + r) by (nonlinear_arith)
        requires
            p == l * q + r,
    ;
    if r + 1 < l {
        lemma_block_of(l, q, r + 1);
    } else {
        assert((q + 1) * l == q * l + l) by (nonlinear_arith);
        lemma_block_of(l, q + 1, 0);
    }
}

impl<T> SPMC<T> {
    /// Reading a position finishes no block but its own.
    proof fn lemma_finished_same(&self, before: &Self, p: int, from: int, to: int)
        requires
            0 < before.length(),
            self.codec() == before.codec(),
            self.trace() == (Trace {
                owner: self.trace().owner,
                claimed: before.trace().claimed.remove(p),
                ..before.trace()
            }),
            to <= p / before.length(),
        ensures
            self.finished(from, to) == before.finished(from, to),
        decreases to - from,
    {
        let l = before.length();
        if from < to {
            self.lemma_finished_same(before, p, from, to - 1);
            assert forall|i: int| 0 <= i < l implies #[trigger] self.is_read(
                position(l, to - 1, i),
            ) == before.is_read(position(l, to - 1, i)) by {
                lemma_block_of(l, to - 1, i);
            }
            if before.is_finished(to - 1) {
                assert forall|i: int| 0 <= i < l implies #[trigger] self.is_read(
                    position(l, to - 1, i),
                ) by {
                    assert(before.is_read(position(l, to - 1, i)));
                }
            }
            if self.is_finished(to - 1) {
                assert forall|i: int| 0 <= i < l implies #[trigger] before.is_read(
                    position(l, to - 1, i),
                ) by {
                    assert(self.is_read(position(l, to - 1, i)));
                }
            }
        }
    }

    /// The finished blocks of a run of positions that grows by `p`.
    proof fn lemma_finished_next(&self, before: &Self, from: int, p: int)
        requires
            0 < before.length(),
            0 <= from <= p,
            before.trace().claimed.contains(p),
            self.codec() == before.codec(),
            self.trace() == (Trace {
                owner: self.trace().owner,
                claimed: before.trace().claimed.remove(p),
                ..before.trace()
            }),
        ensures
            ({
                let l = before.length();
                let so_far = before.finished(
                    from / l,
                    if p == from {
                        from / l
                    } else {
                        (p - 1) / l + 1
                    },
                );
                self.finished(from / l, p / l + 1) == (if self.is_finished(p / l) {
                    so_far.push(before.trace().ids[p / l])
                } else {
                    so_far
                })
            }),
    {
        let l = before.length();
        let k = p / l;
        vstd::arithmetic::div_mod::lemma_div_is_ordered(from, p, l);
        self.lemma_finished_same(before, p, from / l, k);
        if p > from {
            lemma_next_block(l, p - 1);
            if (p - 1) / l == k {
                vstd::arithmetic::div_mod::lemma_fundamental_div_mod(p, l);
                vstd::arithmetic::div_mod::lemma_mod_bound(p, l);
                assert(p == position(l, k, p % l)) by (nonlinear_arith)
                    requires
                        p == l * k + p % l,
                        position(l, k, p % l) == k * l + p % l,
                ;
                assert(!before.is_read(position(l, k, p % l)));
                assert(!before.is_finished(k));
            }
        }
    }
}

impl SPMCIter {
    /// Moves the whole reservation to the end of `values` and returns how many
    /// values that were.
    pub fn append_to_vec<T>(self, queue: &mut SPMC<T>, values: &mut Vec<T>) -> (moved: usize)
        requires
            old(queue).wf(),
            old(queue).trace().head_index < old(queue).length(),
            self.reserved(old(queue)),
        ensures
            final(queue).wf(),
            final(queue).follows(old(queue)),
            final(queue).codec() == old(queue).codec(),
            final(queue).allocated() == old(queue).allocated(),
            self.remaining() == 0 ==> final(queue).cached() == old(queue).cached(),
            self.remaining() > 0 ==> final(queue).cached() == old(queue).cached()
                + final(queue).finished(
                self.start(old(queue)) / old(queue).length(),
                (self.start(old(queue)) + self.remaining() - 1) / old(queue).length() + 1,
            ),
            moved == self.remaining(),
            final(values)@ == old(values)@ + self.values(old(queue)),
            final(queue).trace() == (Trace {
                owner: final(queue).trace().owner,
                claimed: old(queue).trace().claimed.difference(
                    span(
                        self.start(old(queue)),
                        self.start(old(queue)) + self.remaining(),
                    ),
                ),
                ..old(queue).trace()
            }),
    {
        let mut iter = self;
        let moved: usize = iter.len;
        let ghost from = self.start(queue);
        let ghost first = *queue;
        let ghost claimed = queue.trace@.claimed;
        proof {
            assert(claimed.difference(span(from, from)) =~= claimed);
            self.lemma_reserved_range(queue);
        }
        if moved == 0 {
            assert(old(values)@ + self.values(queue) =~= old(values)@);
            return 0;
        }
        assert(old(values)@ + queue.trace@.log.subrange(from, from) =~= old(values)@);
        let ghost l = first.length();
        proof {
            first.codec().lemma_length();
            assert(first.cached() + queue.finished(from / l, from / l) =~= first.cached());
        }
        while iter.len != 0
            invariant
                first.wf(),
                first == *old(queue),
                l == first.length(),
                l > 0,
                queue.cached() == first.cached() + queue.finished(
                    from / l,
                    if moved == iter.len {
                        from / l
                    } else {
                        (from + (moved - iter.len) - 1) / l + 1
                    },
                ),
                0 <= from,
                from + moved <= first.trace@.log.len(),
                queue.wf(),
                queue.codec() == first.codec(),
                queue.allocated() == first.allocated(),
                queue.trace().head_index < queue.length(),
                iter.reserved(queue),
                0 <= iter.len <= moved,
                iter.start(queue) == from + (moved - iter.len),
                claimed == first.trace@.claimed,
                queue.trace() == (Trace {
                    owner: queue.trace().owner,
                    claimed: claimed.difference(span(from, from + (moved - iter.len))),
                    ..first.trace()
                }),
                values@ == old(values)@ + first.trace@.log.subrange(
                    from,
                    from + (moved - iter.len),
                ),
            decreases iter.len,
        {
            let ghost done = moved - iter.len;
            let ghost middle = *queue;
            if let Some(value) = iter.next(queue) {
                values.push(value);
            }
            proof {
                queue.lemma_finished_next(&middle, from, from + done);
                assert(first.trace@.log.subrange(from, from + done + 1)
                    =~= first.trace@.log.subrange(from, from + done).push(
                    first.trace@.log[from + done],
                ));
                assert(claimed.difference(span(from, from + done)).remove(from + done)
                    =~= claimed.difference(span(from, from + done + 1)));
            }
        }
        moved
    }

    /// Reads and discards whatever is left of the reservation.
    pub fn drain<T>(self, queue: &mut SPMC<T>)
        requires
            old(queue).wf(),
            old(queue).trace().head_index < old(queue).length(),
            self.reserved(old(queue)),
        ensures
            final(queue).wf(),
            final(queue).follows(old(queue)),
            final(queue).codec() == old(queue).codec(),
            final(queue).allocated() == old(queue).allocated(),
            self.remaining() == 0 ==> final(queue).cached() == old(queue).cached(),
            self.remaining() > 0 ==> final(queue).cached() == old(queue).cached()
                + final(queue).finished(
                self.start(old(queue)) / old(queue).length(),
                (self.start(old(queue)) + self.remaining() - 1) / old(queue).length() + 1,
            ),
            final(queue).trace() == (Trace {
                owner: final(queue).trace().owner,
                claimed: old(queue).trace().claimed.difference(
                    span(
                        self.start(old(queue)),
                        self.start(old(queue)) + self.remaining(),
                    ),
                ),
                ..old(queue).trace()
            }),
    {
        let mut values: Vec<T> = Vec::new();
        let _moved = self.append_to_vec(queue, &mut values);
    }

    /// A reservation lies inside the written history.
    pub proof fn lemma_reserved_range<T>(&self, queue: &SPMC<T>)
        requires
            queue.wf(),
            self.reserved(queue),
        ensures
            self.remaining() > 0 ==> 0 <= self.start(queue) && self.start(queue) + self.remaining()
                <= queue.head() && self.start(queue) + self.remaining() <= queue.trace().log.len(),
    {
        if self.len > 0 {
            assert(queue.trace@.claimed.contains(self.start(queue)));
            assert(queue.trace@.claimed.contains(self.start(queue) + self.len - 1));
        }
    }

    /// A reservation stays valid, with the same positions, as long as blocks
    /// are only added to the chain and its positions stay claimed.
    pub proof fn lemma_reserved_kept<T>(&self, before: &SPMC<T>, after: &SPMC<T>)
        requires
            self.reserved(before),
            after.codec() == before.codec(),
            before.trace().ids.is_prefix_of(after.trace().ids),
            forall|p: int|
                self.start(before) <= p < self.start(before) + self.remaining()
                    ==> #[trigger] after.trace().claimed.contains(p),
        ensures
            self.reserved(after),
            self.start(after) == self.start(before),
    {
    }
}

} // verus!
