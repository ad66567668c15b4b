//! An unbounded queue whose blocks are as long as the batches need.
//!
//! A batch reserves its positions in one step. Where it runs past the linked
//! blocks, the producer first makes a private chain of blocks, from the pool
//! and new ones, and links it when it has the reservation. Consumers reserve
//! batches below the producer head. A block that has been read completely goes
//! back to the pool if there is a free place, and is dropped otherwise.
//!
//! A head that was seen earlier may be outdated; the token in it tells whether
//! the block is still the same.
use vstd::prelude::*;

use crate::dynamic::block::Block;
use crate::dynamic::heads::{
    law_chead_words, law_phead_words, zero_chead, zero_phead, CHead, Excess, PHead,
    MAX_BLOCK_LENGTH,
};
use crate::dynamic::stock::{given, lemma_first_free, lemma_first_kept, total, Stock};
use crate::dynamic::util::usize_as_u16_or_max;
use crate::position::span;
use crate::queue::{announced, lead, present, reversed, TryNext};

verus! {

/// Where a block is.
pub enum Place {
    /// Linked, with a number.
    Live(int),
    /// In nobody's hands but the current call's.
    Loose,
    /// In the private chain of a producer.
    Chain,
    /// In a place of the pool.
    Pool(int),
    /// Dropped.
    Spare,
}

/// The history behind a queue's words and blocks.
pub struct Trace<T> {
    /// What was reserved so far, by position: a value, or nothing for a
    /// skipped position.
    pub log: Seq<Option<T>>,
    /// Reserved positions that have been neither written nor skipped yet.
    pub pending: Set<int>,
    /// The block used for each linked block number.
    pub ids: Seq<usize>,
    /// The first position of each linked block, and the first position behind
    /// them all.
    pub starts: Seq<int>,
    pub owner: Seq<Place>,
    /// The consumer head and its block number.
    pub head_block: int,
    pub head: CHead,
    /// The producer head and its block number.
    pub tail_block: int,
    pub tail: PHead,
    /// Reserved positions that have not been read yet.
    pub claimed: Set<int>,
}

impl<T> Trace<T> {
    /// Position of a slot of a block.
    pub open spec fn at(&self, k: int, i: int) -> int {
        self.starts[k] + i
    }

    /// Length of a block.
    pub open spec fn size(&self, k: int) -> int {
        self.starts[k + 1] - self.starts[k]
    }

    /// The first position behind the linked blocks.
    pub open spec fn limit(&self) -> int {
        self.starts[self.ids.len() as int]
    }

    /// The lengths of the linked blocks.
    pub open spec fn lengths(&self) -> Seq<int> {
        Seq::new(self.ids.len(), |k: int| self.size(k))
    }

    pub open spec fn head_pos(&self) -> int {
        self.at(self.head_block, self.head.index as int)
    }

    pub open spec fn tail_pos(&self) -> int {
        self.at(self.tail_block, self.tail.index as int)
    }

    /// A position that has not been read.
    pub open spec fn unread(&self, p: int) -> bool {
        p >= self.head_pos() || self.claimed.contains(p)
    }

    /// Every position of a block has been read.
    pub open spec fn is_finished(&self, k: int) -> bool {
        forall|i: int| 0 <= i < self.size(k) ==> !#[trigger] self.unread(self.at(k, i))
    }

    /// A block is linked and not recycled.
    pub open spec fn live(&self, k: int) -> bool {
        &&& 0 <= k < self.ids.len()
        &&& self.ids[k] < self.owner.len()
        &&& self.owner[self.ids[k] as int] == Place::Live(k)
    }

    /// The blocks follow one another.
    pub open spec fn ordered(&self) -> bool {
        &&& self.starts.len() == self.ids.len() + 1
        &&& self.starts[0] == 0
        &&& increasing(self.starts)
    }
}

/// What the pool holds after some positions were read: the blocks that were
/// read completely by that went to it, in their order. Of the blocks only the
/// first `n` are looked at.
pub open spec fn recycled<T>(
    pool: Seq<Option<int>>,
    before: Trace<T>,
    after: Trace<T>,
    n: int,
) -> Seq<Option<int>>
    decreases n,
{
    if n <= 0 {
        pool
    } else {
        let fewer = recycled(pool, before, after, n - 1);
        if !before.is_finished(n - 1) && after.is_finished(n - 1) {
            given(fewer, after.size(n - 1))
        } else {
            fewer
        }
    }
}

/// `after` is `before` with the position `p` of block `k` read.
spec fn reads_one<T>(before: Trace<T>, after: Trace<T>, k: int, p: int) -> bool {
    &&& before.ordered()
    &&& 0 <= k < before.ids.len()
    &&& before.starts[k] <= p < before.starts[k + 1]
    &&& before.claimed.contains(p)
    &&& after == (Trace { owner: after.owner, claimed: before.claimed.remove(p), ..before })
}

/// Which blocks are finished does not depend on where they are.
proof fn lemma_finished_same<T>(before: Trace<T>, after: Trace<T>, k: int)
    requires
        before.is_finished(k),
        after == (Trace { owner: after.owner, ..before }),
    ensures
        after.is_finished(k),
{
    assert forall|i: int| 0 <= i < after.size(k) implies !#[trigger] after.unread(
        after.at(k, i),
    ) by {
        assert(!before.unread(before.at(k, i)));
    }
}

/// Reading a position finishes no block but its own.
proof fn lemma_finished_one<T>(before: Trace<T>, after: Trace<T>, k: int, p: int, j: int)
    requires
        reads_one(before, after, k, p),
        0 <= j < before.ids.len(),
    ensures
        !before.is_finished(k),
        j != k ==> before.is_finished(j) == after.is_finished(j),
{
    assert(before.at(k, p - before.starts[k]) == p);
    assert(before.unread(before.at(k, p - before.starts[k])));
    if j != k {
        assert forall|i: int| 0 <= i < before.size(j) implies before.unread(before.at(j, i))
            == #[trigger] after.unread(after.at(j, i)) by {
            if j < k {
                assert(before.starts[j + 1] <= before.starts[k]);
            } else {
                assert(before.starts[k + 1] <= before.starts[j]);
            }
        }
        if before.is_finished(j) {
            assert forall|i: int| 0 <= i < after.size(j) implies !#[trigger] after.unread(
                after.at(j, i),
            ) by {
                assert(!before.unread(before.at(j, i)));
            }
        }
        if after.is_finished(j) {
            assert forall|i: int| 0 <= i < before.size(j) implies !#[trigger] before.unread(
                before.at(j, i),
            ) by {
                assert(!after.unread(after.at(j, i)));
            }
        }
    }
}

proof fn lemma_recycled_none<T>(pool: Seq<Option<int>>, trace: Trace<T>, n: int)
    ensures
        recycled(pool, trace, trace, n) == pool,
    decreases n,
{
    if n > 0 {
        lemma_recycled_none(pool, trace, n - 1);
    }
}

/// One position that is read gives at most its own block to the pool.
proof fn lemma_recycled_one<T>(
    pool: Seq<Option<int>>,
    before: Trace<T>,
    after: Trace<T>,
    k: int,
    p: int,
    n: int,
)
    requires
        reads_one(before, after, k, p),
        0 <= n <= before.ids.len(),
    ensures
        recycled(pool, before, after, n) == (if k < n && after.is_finished(k) {
            given(pool, after.size(k))
        } else {
            pool
        }),
    decreases n,
{
    if n > 0 {
        lemma_recycled_one(pool, before, after, k, p, n - 1);
        lemma_finished_one(before, after, k, p, n - 1);
    }
}

/// Reading on from where one has read to gives the blocks to the pool in their
/// order.
proof fn lemma_recycled_join<T>(
    pool: Seq<Option<int>>,
    first: Trace<T>,
    before: Trace<T>,
    after: Trace<T>,
    from: int,
    k: int,
    p: int,
    n: int,
)
    requires
        reads_one(before, after, k, p),
        from <= p,
        first.claimed.contains(p),
        before == (Trace {
            owner: before.owner,
            claimed: first.claimed.difference(span(from, p)),
            ..first
        }),
        0 <= n <= before.ids.len(),
    ensures
        recycled(pool, first, after, n) == (if k < n && after.is_finished(k) {
            given(recycled(pool, first, before, n), after.size(k))
        } else {
            recycled(pool, first, before, n)
        }),
    decreases n,
{
    if n > 0 {
        let j = n - 1;
        lemma_recycled_join(pool, first, before, after, from, k, p, n - 1);
        lemma_finished_one(before, after, k, p, j);
        if j == k {
            assert(first.at(k, p - first.starts[k]) == p);
            assert(first.unread(first.at(k, p - first.starts[k])));
        } else if j > k && before.is_finished(j) {
            assert forall|i: int| 0 <= i < first.size(j) implies !#[trigger] first.unread(
                first.at(j, i),
            ) by {
                assert(first.starts[k + 1] <= first.starts[j]);
                assert(!before.unread(before.at(j, i)));
            }
        }
    }
}

/// Each number is larger than those before it.
pub open spec fn increasing(starts: Seq<int>) -> bool {
    forall|a: int, b: int|
        0 <= a < b < starts.len() ==> #[trigger] starts[a] < #[trigger] starts[b]
}

/// Blocks that are owned by one push and not linked into the queue yet.
pub struct BlockChain {
    blocks: Vec<usize>,
    /// How many slots they have.
    cap: usize,
    starts: Ghost<Seq<int>>,
}

/// An unbounded queue with blocks of varying length.
pub struct DUBQ<T> {
    phead: u128,
    chead: u128,
    min_block_size: usize,
    pool: Vec<Option<usize>>,
    blocks: Vec<Block<T>>,
    /// Blocks that were dropped.
    spare: Vec<usize>,
    trace: Ghost<Trace<T>>,
}

/// The pointer in the heads for a block.
pub open spec fn pointer(id: int) -> u64 {
    (id + 1) as u64
}

impl<T> DUBQ<T> {
    pub closed spec fn trace(&self) -> Trace<T> {
        self.trace@
    }

    /// The least length of a new block.
    pub closed spec fn min_block(&self) -> int {
        self.min_block_size as int
    }

    /// How many blocks the pool can keep.
    pub closed spec fn pool_size(&self) -> int {
        self.pool@.len() as int
    }

    /// The length of the block in each place of the pool.
    pub closed spec fn pool(&self) -> Seq<Option<int>> {
        Seq::new(
            self.pool@.len(),
            |j: int|
                match self.pool@[j] {
                    Some(id) => Some(self.blocks@[id as int].slots().len() as int),
                    None => None,
                },
        )
    }

    /// The pool and a chain, by the lengths of their blocks.
    spec fn stock(&self, chain: &BlockChain) -> Stock {
        Stock { pool: self.pool(), chain: chain.lengths() }
    }

    /// The linked blocks end before the end of a batch.
    pub open spec fn is_short_of(&self, len: int) -> bool {
        self.trace().ids.len() == 0 || self.trace().limit() <= self.tail() + len
    }

    /// The chain that a producer prepares for a batch, with `seen` the head as
    /// it was seen last, and what it leaves in the pool. An outdated head tells
    /// of other successors, and the chain is made long enough once more.
    pub open spec fn prepared(&self, seen: PHead, len: int) -> Stock {
        let stock = Stock { pool: self.pool(), chain: Seq::empty() };
        let first = if seen != zero_phead() && seen.index >= seen.block_length {
            stock
        } else {
            stock.ensured(seen.excess.slots(), len, self.min_block())
        };
        if seen == self.trace().tail {
            first
        } else {
            first.ensured(self.trace().tail.excess.slots(), len, self.min_block())
        }
    }

    /// The blocks of `before` and those that a batch added: the prepared chain
    /// if the linked blocks were too short, and none otherwise.
    pub open spec fn grown(&self, before: &Self, seen: PHead, len: int) -> bool {
        &&& self.pool() == before.prepared(seen, len).pool
        &&& self.trace().lengths() == before.trace().lengths() + (if before.is_short_of(len) {
            before.prepared(seen, len).chain
        } else {
            Seq::empty()
        })
    }

    /// How many blocks there have been at once.
    pub closed spec fn allocated(&self) -> int {
        self.blocks@.len() as int
    }

    /// Position of the consumer head.
    pub open spec fn head(&self) -> int {
        self.trace().head_pos()
    }

    /// Position of the producer head.
    pub open spec fn tail(&self) -> int {
        self.trace().tail_pos()
    }

    /// Positions that no consumer has reserved, oldest first.
    pub open spec fn waiting(&self) -> Seq<Option<T>> {
        self.trace().log.subrange(self.head(), self.tail())
    }

    spec fn arena_wf(&self) -> bool {
        let t = self.trace@;
        &&& self.blocks@.len() == t.owner.len()
        &&& t.owner.len() < usize::MAX
        &&& 1 <= self.min_block_size <= MAX_BLOCK_LENGTH
        &&& forall|id: int|
            0 <= id < t.owner.len() ==> match #[trigger] t.owner[id] {
                Place::Live(k) => 0 <= k < t.ids.len() && t.ids[k] == id,
                Place::Loose => self.blocks@[id].blank() && self.blocks@[id].link() is None,
                Place::Chain => self.blocks@[id].blank(),
                Place::Pool(j) => {
                    &&& 0 <= j < self.pool@.len()
                    &&& self.pool@[j] == Some(id as usize)
                    &&& self.blocks@[id].blank()
                    &&& self.blocks@[id].link() is None
                },
                Place::Spare => true,
            }
        &&& forall|j: int|
            0 <= j < self.pool@.len() ==> match #[trigger] self.pool@[j] {
                Some(id) => id < t.owner.len() && t.owner[id as int] == Place::Pool(j),
                None => true,
            }
        &&& self.spare@.no_duplicates()
        &&& forall|j: int|
            0 <= j < self.spare@.len() ==> (#[trigger] self.spare@[j]) < t.owner.len()
                && t.owner[self.spare@[j] as int] == Place::Spare
    }

    spec fn slot_wf(&self, k: int, i: int) -> bool {
        let t = self.trace@;
        let b = self.blocks@[t.ids[k] as int];
        let p = t.at(k, i);
        &&& b.flags()[i] == !t.unread(p)
        &&& if p >= t.log.len() || t.pending.contains(p) {
            b.slots()[i].fresh()
        } else {
            b.slots()[i].holds(
                if t.unread(p) {
                    t.log[p]
                } else {
                    None
                },
            )
        }
    }

    spec fn block_wf(&self, k: int) -> bool {
        let t = self.trace@;
        let b = self.blocks@[t.ids[k] as int];
        &&& b.wf()
        &&& b.slots().len() == t.size(k)
        &&& 1 <= t.size(k) <= MAX_BLOCK_LENGTH
        &&& b.flags().len() == t.size(k)
        &&& exists|i: int| 0 <= i < t.size(k) && !#[trigger] b.flags()[i]
        &&& b.link() == (if k < t.ids.len() - 1 {
            Some(t.ids[k + 1])
        } else {
            None::<usize>
        })
        &&& forall|i: int| 0 <= i < t.size(k) ==> #[trigger] self.slot_wf(k, i)
    }

    spec fn heads_wf(&self) -> bool {
        let t = self.trace@;
        &&& self.phead == t.tail.wide()
        &&& self.chead == t.head.wide()
        &&& t.head.valid()
        &&& t.log.len() == t.tail_pos()
        &&& forall|p: int| #[trigger]
            t.pending.contains(p) ==> 0 <= p < t.log.len() && t.unread(p)
        &&& if t.ids.len() == 0 {
            &&& t.tail == zero_phead()
            &&& t.head == zero_chead()
            &&& t.head_block == 0
            &&& t.tail_block == 0
            &&& t.claimed =~= Set::empty()
        } else {
            &&& 0 <= t.head_block <= t.tail_block < t.ids.len()
            &&& t.head.ptr == pointer(t.ids[t.head_block] as int)
            &&& t.head.block_length == t.size(t.head_block)
            &&& t.head.index < t.head.block_length
            &&& t.tail.ptr == pointer(t.ids[t.tail_block] as int)
            &&& t.tail.block_length == t.size(t.tail_block)
            &&& t.tail.index < t.tail.block_length
            &&& t.tail.excess.slots() <= t.limit() - t.starts[t.tail_block + 1]
            &&& t.head_pos() <= t.log.len()
            &&& t.head.has_next ==> t.head_block < t.tail_block
            &&& forall|p: int| #[trigger] t.claimed.contains(p) ==> 0 <= p < t.head_pos()
        }
    }

    spec fn chain_wf(&self) -> bool {
        let t = self.trace@;
        &&& t.ordered()
        &&& forall|k: int| 0 <= k < t.ids.len() ==> (#[trigger] t.ids[k]) < t.owner.len()
        &&& forall|k: int| t.head_block <= k < t.ids.len() ==> #[trigger] t.live(k)
        &&& forall|k: int, i: int|
            0 <= k < t.ids.len() && 0 <= i < t.size(k) && t.claimed.contains(
                #[trigger] t.at(k, i),
            ) ==> t.live(k)
        &&& forall|k: int| #[trigger] t.live(k) ==> self.block_wf(k)
    }

    spec fn inv(&self) -> bool {
        &&& self.arena_wf()
        &&& self.heads_wf()
        &&& self.chain_wf()
    }

    /// The queue agrees with its history.
    pub closed spec fn wf(&self) -> bool {
        self.inv()
    }

    /// No position is reserved and not written yet.
    pub open spec fn quiet(&self) -> bool {
        self.trace().pending == Set::<int>::empty()
    }

    /// This state can come after `before`: positions and blocks are only added,
    /// what was written stays written, and what was read is never claimed
    /// again.
    pub open spec fn follows(&self, before: &Self) -> bool {
        let t = before.trace();
        let u = self.trace();
        &&& self.extends(before)
        &&& t.log.is_prefix_of(u.log)
        &&& before.head() <= self.head()
        &&& forall|p: int|
            0 <= p < t.log.len() && !t.pending.contains(p) ==> !#[trigger] u.pending.contains(p)
        &&& forall|p: int|
            p < before.head() && !t.claimed.contains(p) ==> !#[trigger] u.claimed.contains(p)
    }

    /// The chain holds blank blocks that are linked in order.
    spec fn chained(&self, chain: &BlockChain) -> bool {
        let c = chain.blocks@;
        let s = chain.starts@;
        &&& s.len() == c.len() + 1
        &&& s[0] == 0
        &&& increasing(s)
        &&& chain.cap == s[c.len() as int]
        &&& c.no_duplicates()
        &&& forall|j: int|
            0 <= j < c.len() ==> {
                let id = #[trigger] c[j] as int;
                &&& id < self.trace@.owner.len()
                &&& self.trace@.owner[id] is Chain
                &&& self.blocks@[id].slots().len() == s[j + 1] - s[j]
                &&& self.blocks@[id].link() == (if j < c.len() - 1 {
                    Some(c[j + 1])
                } else {
                    None
                })
            }
    }

    /// Nothing but blocks outside the queue changed.
    spec fn same_live(&self, before: &Self) -> bool {
        let t = before.trace@;
        let u = self.trace@;
        &&& self.phead == before.phead
        &&& self.chead == before.chead
        &&& self.min_block_size == before.min_block_size
        &&& self.pool@.len() == before.pool@.len()
        &&& u == (Trace { owner: u.owner, ..t })
        &&& t.owner.len() <= u.owner.len()
        &&& forall|id: int|
            0 <= id < t.owner.len() && #[trigger] t.owner[id] is Live ==> u.owner[id] == t.owner[id]
                && self.blocks@[id] == before.blocks@[id]
        &&& forall|id: int|
            0 <= id < u.owner.len() && #[trigger] u.owner[id] is Live ==> id < t.owner.len()
                && t.owner[id] is Live
    }

    proof fn lemma_same_live(&self, before: &Self)
        requires
            before.inv(),
            self.same_live(before),
            self.arena_wf(),
        ensures
            self.inv(),
    {
        let t = before.trace@;
        let u = self.trace@;
        assert forall|k: int| #[trigger] u.live(k) == t.live(k) by {
            if 0 <= k < t.ids.len() {
                let id = t.ids[k] as int;
                assert(id < t.owner.len());
                assert(u.owner[id] is Live ==> t.owner[id] is Live);
                assert(t.owner[id] is Live ==> u.owner[id] == t.owner[id]);
            }
        }
        assert forall|k: int| u.head_block <= k < u.ids.len() implies #[trigger] u.live(k) by {
            assert(t.live(k));
        }
        assert forall|k: int, i: int|
            0 <= k < u.ids.len() && 0 <= i < u.size(k) && u.claimed.contains(
                #[trigger] u.at(k, i),
            ) implies u.live(k) by {
            assert(t.claimed.contains(t.at(k, i)));
            assert(t.live(k));
        }
        assert forall|k: int| #[trigger] u.live(k) implies self.block_wf(k) by {
            assert(t.live(k));
            assert(before.block_wf(k));
            assert(self.blocks@[t.ids[k] as int] == before.blocks@[t.ids[k] as int]) by {
                assert(t.owner[t.ids[k] as int] is Live);
            }
            assert forall|i: int| 0 <= i < u.size(k) implies #[trigger] self.slot_wf(k, i) by {
                assert(before.slot_wf(k, i));
            }
        }
    }

    /// A queue without blocks. The pool can keep `pool_size` of them.
    pub fn new(pool_size: usize, min_block_size: u16) -> (queue: Self)
        ensures
            queue.wf(),
            queue.waiting() == Seq::<Option<T>>::empty(),
            queue.trace().log == Seq::<Option<T>>::empty(),
            queue.trace().claimed == Set::<int>::empty(),
            queue.quiet(),
            queue.pool_size() == pool_size,
            queue.min_block() == (if min_block_size == 0 {
                1
            } else {
                min_block_size as int
            }),
            queue.allocated() == 0,
            queue.pool() == Seq::new(pool_size as nat, |j: int| None::<int>),
            queue.trace().lengths() == Seq::<int>::empty(),
    {
        let least: usize = if min_block_size == 0 {
            1
        } else {
            min_block_size as usize
        };
        let mut pool: Vec<Option<usize>> = Vec::new();
        let mut made: usize = 0;
        while made < pool_size
            invariant
                made <= pool_size,
                pool@.len() == made,
                forall|j: int| 0 <= j < made ==> #[trigger] pool@[j] is None,
            decreases pool_size - made,
        {
            pool.push(None);
            made = made + 1;
        }
        let phead = PHead::zero();
        let chead = CHead::zero();
        let queue = DUBQ {
            phead: phead.pack_u128(),
            chead: chead.pack_u128(),
            min_block_size: least,
            pool,
            blocks: Vec::new(),
            spare: Vec::new(),
            trace: Ghost(
                Trace {
                    log: Seq::empty(),
                    pending: Set::empty(),
                    ids: Seq::empty(),
                    starts: seq![0int],
                    owner: Seq::empty(),
                    head_block: 0,
                    head: zero_chead(),
                    tail_block: 0,
                    tail: zero_phead(),
                    claimed: Set::empty(),
                },
            ),
        };
        assert(queue.waiting() =~= Seq::<Option<T>>::empty());
        assert(queue.pool() =~= Seq::new(pool_size as nat, |j: int| None::<int>));
        assert(queue.trace().lengths() =~= Seq::<int>::empty());
        queue
    }

    /// The producer head.
    pub fn acquire_phead(&self) -> (head: PHead)
        requires
            self.wf(),
        ensures
            head == self.trace().tail,
            (head == zero_phead()) == (self.trace().ids.len() == 0),
    {
        self.producer_head()
    }

    fn producer_head(&self) -> (head: PHead)
        requires
            self.inv(),
        ensures
            head == self.trace@.tail,
            (head == zero_phead()) == (self.trace@.ids.len() == 0),
    {
        let head = PHead::from_u128(self.phead);
        proof {
            law_phead_words(head, self.trace@.tail);
        }
        head
    }

    /// The consumer head.
    pub fn acquire_chead(&self) -> (head: CHead)
        requires
            self.wf(),
        ensures
            head == self.trace().head,
            (head == zero_chead()) == (self.trace().ids.len() == 0),
    {
        let head = CHead::from_u128(self.chead);
        proof {
            law_chead_words(head, self.trace@.head);
        }
        head
    }
}

impl BlockChain {
    /// The lengths of the blocks.
    spec fn lengths(&self) -> Seq<int> {
        Seq::new(self.blocks@.len(), |j: int| self.starts@[j + 1] - self.starts@[j])
    }

    fn new() -> (chain: BlockChain)
        ensures
            chain.blocks@.len() == 0,
            chain.cap == 0,
            chain.starts@ == seq![0int],
            chain.lengths() == Seq::<int>::empty(),
    {
        let chain = BlockChain {
            blocks: Vec::new(),
            cap: 0,
            starts: Ghost(Seq::<int>::empty().push(0)),
        };
        assert(chain.lengths() =~= Seq::<int>::empty());
        chain
    }
}

/// The lengths between some starts add up to the last.
proof fn lemma_lengths(starts: Seq<int>, lengths: Seq<int>)
    requires
        starts.len() == lengths.len() + 1,
        starts[0] == 0,
        forall|j: int| 0 <= j < lengths.len() ==> #[trigger] lengths[j] == starts[j + 1] - starts[j],
    ensures
        total(lengths) == starts.last(),
    decreases lengths.len(),
{
    if lengths.len() > 0 {
        let fewer = lengths.drop_last();
        assert forall|j: int| 0 <= j < fewer.len() implies #[trigger] fewer[j] == starts.drop_last()[j
            + 1] - starts.drop_last()[j] by {
            assert(lengths[j] == fewer[j]);
        }
        lemma_lengths(starts.drop_last(), fewer);
        assert(lengths[lengths.len() - 1] == starts.last() - starts.drop_last().last());
    }
}

impl<T> DUBQ<T> {
    /// A new block that nothing holds yet.
    fn obtain(&mut self, len: usize, chain: &BlockChain) -> (id: usize)
        requires
            old(self).inv(),
            old(self).chained(chain),
            1 <= len <= MAX_BLOCK_LENGTH,
            old(self).blocks@.len() + 1 < usize::MAX,
        ensures
            final(self).inv(),
            final(self).chained(chain),
            final(self).same_live(old(self)),
            final(self).blocks@.len() <= old(self).blocks@.len() + 1,
            final(self).pool() == old(self).pool(),
            id < final(self).trace@.owner.len(),
            final(self).trace@.owner[id as int] is Loose,
            final(self).blocks@[id as int].slots().len() == len,
    {
        let block: Block<T> = Block::new(len);
        let id: usize = match self.spare.pop() {
            Some(id) => {
                assert(old(self).spare@[old(self).spare@.len() - 1] == id);
                assert(self.spare@ =~= old(self).spare@.drop_last());
                self.blocks[id] = block;
                id
            },
            None => {
                let id: usize = self.blocks.len();
                self.blocks.push(block);
                id
            },
        };
        let ghost t = old(self).trace@;
        let ghost owner = if id < t.owner.len() {
            t.owner.update(id as int, Place::Loose)
        } else {
            t.owner.push(Place::Loose)
        };
        self.trace = Ghost(Trace { owner, ..t });
        proof {
            assert forall|j: int| 0 <= j < self.spare@.len() implies (#[trigger] self.spare@[j])
                < owner.len() && owner[self.spare@[j] as int] == Place::Spare by {
                assert(self.spare@[j] == old(self).spare@[j]);
            }
            assert(self.spare@.no_duplicates());
            assert forall|x: int| 0 <= x < t.owner.len() && x != id implies owner[x] == t.owner[x]
                && self.blocks@[x] == old(self).blocks@[x] by {}
            assert(self.arena_wf());
            self.lemma_same_live(old(self));
            assert forall|j: int| 0 <= j < chain.blocks@.len() implies chain.blocks@[j] != id by {}
            old(self).lemma_pool_kept(self);
        }
        id
    }

    /// The pool is the same where its places and the blocks in them are.
    proof fn lemma_pool_kept(&self, after: &Self)
        requires
            self.arena_wf(),
            after.pool@ == self.pool@,
            forall|id: int|
                0 <= id < self.trace@.owner.len() && #[trigger] self.trace@.owner[id] is Pool
                    ==> after.blocks@[id].slots().len() == self.blocks@[id].slots().len(),
        ensures
            after.pool() == self.pool(),
    {
        assert forall|j: int| 0 <= j < self.pool@.len() implies after.pool()[j]
            == self.pool()[j] by {
            if let Some(id) = self.pool@[j] {
                assert(self.trace@.owner[id as int] is Pool);
            }
        }
        assert(after.pool() =~= self.pool());
    }

    /// Takes the first block that the pool has.
    fn take_block(&mut self, chain: &BlockChain) -> (taken: Option<usize>)
        requires
            old(self).inv(),
            old(self).chained(chain),
        ensures
            final(self).inv(),
            final(self).chained(chain),
            final(self).same_live(old(self)),
            final(self).blocks@ == old(self).blocks@,
            match taken {
                Some(id) => {
                    &&& id < final(self).trace@.owner.len()
                    &&& final(self).trace@.owner[id as int] is Loose
                    &&& final(self).blocks@[id as int].blank()
                    &&& lead(old(self).pool()) < old(self).pool().len()
                    &&& old(self).pool()[lead(old(self).pool())] == Some(
                        final(self).blocks@[id as int].slots().len() as int,
                    )
                    &&& final(self).pool() == old(self).pool().update(lead(old(self).pool()), None)
                },
                None => {
                    &&& lead(old(self).pool()) == old(self).pool().len()
                    &&& forall|j: int|
                        0 <= j < old(self).pool@.len() ==> #[trigger] old(self).pool@[j] is None
                    &&& final(self).pool@ == old(self).pool@
                },
            },
    {
        let mut j: usize = 0;
        while j < self.pool.len()
            invariant
                *self == *old(self),
                self.inv(),
                self.chained(chain),
                j <= self.pool@.len(),
                forall|i: int| 0 <= i < j ==> #[trigger] self.pool@[i] is None,
            decreases self.pool@.len() - j,
        {
            if let Some(id) = self.pool[j] {
                let ghost t = self.trace@;
                assert(t.owner[id as int] == Place::Pool(j as int));
                self.pool.set(j, None);
                let ghost owner = t.owner.update(id as int, Place::Loose);
                self.trace = Ghost(Trace { owner, ..t });
                proof {
                    assert forall|i: int| 0 <= i < self.pool@.len() implies match (
                    #[trigger] self.pool@[i]) {
                        Some(x) => x < owner.len() && owner[x as int] == Place::Pool(i),
                        None => true,
                    } by {
                        if i != j {
                            assert(self.pool@[i] == old(self).pool@[i]);
                        }
                    }
                    assert forall|x: int| 0 <= x < owner.len() implies match #[trigger] owner[x] {
                        Place::Live(k) => 0 <= k < t.ids.len() && t.ids[k] == x,
                        Place::Loose => self.blocks@[x].blank() && self.blocks@[x].link() is None,
                        Place::Chain => self.blocks@[x].blank(),
                        Place::Pool(i) => {
                            &&& 0 <= i < self.pool@.len()
                            &&& self.pool@[i] == Some(x as usize)
                            &&& self.blocks@[x].blank()
                            &&& self.blocks@[x].link() is None
                        },
                        Place::Spare => true,
                    } by {
                        assert(x == id || owner[x] == t.owner[x]);
                    }
                    assert(self.arena_wf());
                    self.lemma_same_live(old(self));
                    let pool = old(self).pool();
                    assert forall|i: int| 0 <= i < j implies #[trigger] pool[i] is None by {
                        assert(old(self).pool@[i] is None);
                    }
                    lemma_first_kept(pool, j as int);
                    assert(self.pool() =~= pool.update(j as int, None));
                }
                return Some(id);
            }
            j = j + 1;
        }
        proof {
            let pool = self.pool();
            assert forall|i: int| 0 <= i < j implies #[trigger] pool[i] is None by {
                assert(self.pool@[i] is None);
            }
            lemma_first_kept(pool, j as int);
        }
        None
    }

    /// Adds a block to the end of a chain.
    fn append(&mut self, chain: &mut BlockChain, id: usize)
        requires
            old(self).inv(),
            old(self).chained(old(chain)),
            id < old(self).trace@.owner.len(),
            old(self).trace@.owner[id as int] is Loose,
            old(chain).cap + MAX_BLOCK_LENGTH <= usize::MAX,
        ensures
            final(self).inv(),
            final(self).chained(final(chain)),
            final(self).same_live(old(self)),
            final(self).blocks@.len() == old(self).blocks@.len(),
            final(chain).blocks@ == old(chain).blocks@.push(id),
            final(chain).cap == old(chain).cap + old(self).blocks@[id as int].slots().len(),
            final(chain).lengths() == old(chain).lengths().push(
                old(self).blocks@[id as int].slots().len() as int,
            ),
            final(self).pool() == old(self).pool(),
    {
        let ghost c = chain.blocks@;
        let ghost s = chain.starts@;
        let ghost t = self.trace@;
        let count: usize = chain.blocks.len();
        if count > 0 {
            let last: usize = chain.blocks[count - 1];
            assert(t.owner[last as int] is Chain);
            self.blocks[last].set_next(Some(id));
        }
        let len: usize = self.blocks[id].len();
        chain.blocks.push(id);
        chain.cap = chain.cap + len;
        chain.starts = Ghost(s.push(s[c.len() as int] + len));
        let ghost owner = t.owner.update(id as int, Place::Chain);
        self.trace = Ghost(Trace { owner, ..t });
        proof {
            assert forall|x: int| 0 <= x < owner.len() implies match #[trigger] owner[x] {
                Place::Live(k) => 0 <= k < t.ids.len() && t.ids[k] == x,
                Place::Loose => self.blocks@[x].blank() && self.blocks@[x].link() is None,
                Place::Chain => self.blocks@[x].blank(),
                Place::Pool(i) => {
                    &&& 0 <= i < self.pool@.len()
                    &&& self.pool@[i] == Some(x as usize)
                    &&& self.blocks@[x].blank()
                    &&& self.blocks@[x].link() is None
                },
                Place::Spare => true,
            } by {
                assert(x == id || owner[x] == t.owner[x]);
            }
            assert(self.arena_wf());
            self.lemma_same_live(old(self));
            let d = chain.blocks@;
            let r = chain.starts@;
            assert forall|j: int| 0 <= j < d.len() implies {
                let x = #[trigger] d[j] as int;
                &&& x < owner.len()
                &&& owner[x] is Chain
                &&& self.blocks@[x].slots().len() == r[j + 1] - r[j]
                &&& self.blocks@[x].link() == (if j < d.len() - 1 {
                    Some(d[j + 1])
                } else {
                    None
                })
            } by {
                if j < c.len() {
                    assert(d[j] == c[j]);
                    assert(c[j] != id);
                    if j < c.len() - 1 {
                        assert(c[j] != c[c.len() - 1]);
                    }
                }
            }
            old(self).lemma_pool_kept(self);
            assert(chain.lengths() =~= old(chain).lengths().push(len as int));
        }
    }

    /// Fills an empty chain from the pool, until it holds `request` slots or
    /// the pool is empty.
    fn take_from_pool(&mut self, chain: &mut BlockChain, request: usize)
        requires
            old(self).inv(),
            old(self).chained(old(chain)),
            request + MAX_BLOCK_LENGTH <= usize::MAX,
        ensures
            final(self).inv(),
            final(self).chained(final(chain)),
            final(self).same_live(old(self)),
            final(self).blocks@.len() == old(self).blocks@.len(),
            old(chain).blocks@.is_prefix_of(final(chain).blocks@),
            old(chain).blocks@.len() <= request ==> final(chain).blocks@.len() <= request,
            final(chain).cap >= request || forall|j: int|
                0 <= j < final(self).pool@.len() ==> #[trigger] final(self).pool@[j] is None,
            final(self).stock(final(chain)) == old(self).stock(old(chain)).refilled(
                request as int,
            ),
    {
        while chain.cap < request
            invariant
                self.stock(chain).refilled(request as int) == old(self).stock(
                    old(chain),
                ).refilled(request as int),
                self.inv(),
                self.chained(chain),
                self.same_live(old(self)),
                self.blocks@.len() == old(self).blocks@.len(),
                old(chain).blocks@.is_prefix_of(chain.blocks@),
                old(chain).blocks@.len() <= request ==> chain.blocks@.len() <= request,
                request + MAX_BLOCK_LENGTH <= usize::MAX,
            ensures
                chain.cap >= request || forall|j: int|
                    0 <= j < self.pool@.len() ==> #[trigger] self.pool@[j] is None,
            decreases
                    if chain.cap < request {
                        request - chain.cap
                    } else {
                        0
                    },
        {
            let ghost before = self.stock(chain);
            proof {
                lemma_lengths(chain.starts@, chain.lengths());
            }
            match self.take_block(chain) {
                None => {
                    assert(self.stock(chain) =~= before);
                    break;
                },
                Some(id) => {
                    proof {
                        self.lemma_chain_bound(chain);
                    }
                    self.append(chain, id);
                    assert(self.stock(chain) =~= (Stock {
                        pool: before.pool.update(lead(before.pool), None),
                        chain: before.chain.push(before.pool[lead(before.pool)]->0),
                    }));
                },
            }
        }
        proof {
            lemma_lengths(chain.starts@, chain.lengths());
            if chain.cap < request {
                let pool = self.pool();
                assert forall|j: int| 0 <= j < pool.len() implies #[trigger] pool[j] is None by {
                    assert(self.pool@[j] is None);
                }
                lemma_first_kept(pool, pool.len() as int);
            }
        }
    }

    /// A chain has no more blocks than slots.
    proof fn lemma_chain_bound(&self, chain: &BlockChain)
        requires
            self.chained(chain),
        ensures
            chain.blocks@.len() <= chain.cap,
    {
        lemma_increasing_bound(chain.starts@, chain.blocks@.len() as int);
    }

    /// Makes a chain long enough for a batch of `len` values behind a head
    /// that knows of `excess` slots in later blocks.
    ///
    /// One slot more than the values is asked for, so that the head always
    /// ends on a slot.
    fn ensure_ext(&mut self, ext: &mut BlockChain, excess: Excess, len: usize)
        requires
            old(self).inv(),
            old(self).chained(old(ext)),
            len + 0x20000 <= usize::MAX,
            old(self).blocks@.len() + len + 1 - old(ext).blocks@.len() < usize::MAX,
            old(ext).blocks@.len() <= len + 1,
        ensures
            final(self).inv(),
            final(self).chained(final(ext)),
            final(self).same_live(old(self)),
            final(ext).cap + excess.slots() > len,
            old(ext).blocks@.is_prefix_of(final(ext).blocks@),
            old(ext).cap + excess.slots() > len ==> final(ext).cap == old(ext).cap,
            final(self).blocks@.len() - old(self).blocks@.len() <= final(ext).blocks@.len() - old(
                ext,
            ).blocks@.len(),
            final(ext).blocks@.len() <= len + 1,
            final(self).stock(final(ext)) == old(self).stock(old(ext)).ensured(
                excess.slots(),
                len as int,
                old(self).min_block(),
            ),
    {
        proof {
            lemma_lengths(ext.starts@, ext.lengths());
        }
        let target: usize = len + 1;
        let known: usize = excess.known_slots();
        let req: usize = if target >= known {
            target - known
        } else {
            0
        };
        if req == 0 || ext.cap >= req {
            return;
        }
        if ext.blocks.len() == 0 {
            self.take_from_pool(ext, req);
        }
        while ext.cap < req
            invariant
                self.stock(ext).grown(req as int, self.min_block()) == old(self).stock(
                    old(ext),
                ).ensured(excess.slots(), len as int, self.min_block()),
                self.inv(),
                self.chained(ext),
                self.same_live(old(self)),
                old(ext).blocks@.is_prefix_of(ext.blocks@),
                req <= len + 1,
                len + 0x20000 <= usize::MAX,
                old(self).blocks@.len() + len + 1 - old(ext).blocks@.len() < usize::MAX,
                self.blocks@.len() - old(self).blocks@.len() <= ext.blocks@.len() - old(
                    ext,
                ).blocks@.len(),
                ext.blocks@.len() <= len + 1,
            decreases
                    if ext.cap < req {
                        req - ext.cap
                    } else {
                        0
                    },
        {
            let missing: usize = req - ext.cap;
            let size: usize = if missing < self.min_block_size {
                self.min_block_size
            } else if missing > MAX_BLOCK_LENGTH {
                MAX_BLOCK_LENGTH
            } else {
                missing
            };
            let ghost before = self.stock(ext);
            proof {
                self.lemma_chain_bound(ext);
                lemma_lengths(ext.starts@, ext.lengths());
            }
            let id: usize = self.obtain(size, ext);
            self.append(ext, id);
            assert(self.stock(ext) =~= (Stock { chain: before.chain.push(size as int), ..before }));
        }
        proof {
            lemma_lengths(ext.starts@, ext.lengths());
        }
    }

    /// Drops the blocks of a chain that was not used: their slots are freed, and
    /// their places in the arena can be used again. Nothing else changes.
    fn release(&mut self, chain: BlockChain)
        requires
            old(self).inv(),
            old(self).chained(&chain),
        ensures
            final(self).inv(),
            final(self).same_live(old(self)),
            final(self).blocks@.len() == old(self).blocks@.len(),
            final(self).pool@ == old(self).pool@,
            final(self).pool() == old(self).pool(),
            final(self).spare@ == old(self).spare@ + chain.blocks@,
            final(self).trace@ == (Trace {
                owner: freed(old(self).trace@.owner, chain.blocks@),
                ..old(self).trace@
            }),
            forall|j: int|
                0 <= j < chain.blocks@.len() ==> final(self).blocks@[(
                #[trigger] chain.blocks@[j]) as int].slots().len() == 0,
            forall|x: int|
                0 <= x < old(self).blocks@.len() && !chain.blocks@.contains(x as usize)
                    ==> #[trigger] final(self).blocks@[x] == old(self).blocks@[x],
    {
        let ghost c = chain.blocks@;
        let mut i: usize = 0;
        proof {
            assert(self.spare@ =~= self.spare@ + c.take(0));
            assert(self.trace@.owner =~= freed(self.trace@.owner, c.take(0)));
        }
        while i < chain.blocks.len()
            invariant
                self.inv(),
                self.same_live(old(self)),
                self.blocks@.len() == old(self).blocks@.len(),
                i <= c.len(),
                c == chain.blocks@,
                c.no_duplicates(),
                self.pool@ == old(self).pool@,
                self.spare@ == old(self).spare@ + c.take(i as int),
                self.trace@ == (Trace {
                    owner: freed(old(self).trace@.owner, c.take(i as int)),
                    ..old(self).trace@
                }),
                forall|j: int| 0 <= j < c.len() ==> (#[trigger] c[j]) < old(self).blocks@.len(),
                forall|j: int|
                    0 <= j < i ==> self.blocks@[(#[trigger] c[j]) as int].slots().len() == 0,
                forall|x: int|
                    0 <= x < old(self).blocks@.len() && !c.contains(x as usize)
                        ==> #[trigger] self.blocks@[x] == old(self).blocks@[x],
                forall|j: int|
                    i <= j < c.len() ==> (#[trigger] c[j]) < self.trace@.owner.len()
                        && self.trace@.owner[c[j] as int] is Chain,
            decreases c.len() - i,
        {
            let ghost before = *self;
            let id: usize = chain.blocks[i];
            self.discard(id);
            proof {
                assert(c.contains(id));
                assert(c.take(i + 1) =~= c.take(i as int).push(id));
                lemma_freed_push(old(self).trace@.owner, c.take(i as int), id);
                assert forall|j: int| 0 <= j < i + 1 implies self.blocks@[(
                #[trigger] c[j]) as int].slots().len() == 0 by {
                    if j < i {
                        assert(c[j] != id);
                        assert(self.blocks@[c[j] as int] == before.blocks@[c[j] as int]);
                    }
                }
            }
            i = i + 1;
        }
        assert(c.take(i as int) =~= c);
        proof {
            assert forall|id: int|
                0 <= id < old(self).trace@.owner.len()
                    && #[trigger] old(self).trace@.owner[id] is Pool implies
                self.blocks@[id].slots().len() == old(self).blocks@[id].slots().len() by {
                if c.contains(id as usize) {
                    let j = c.index_of(id as usize);
                    assert(old(self).trace@.owner[c[j] as int] is Chain);
                }
            }
            old(self).lemma_pool_kept(self);
        }
    }

    /// Drops a block that is not linked, or not any more.
    fn discard(&mut self, id: usize)
        requires
            old(self).inv(),
            id < old(self).trace@.owner.len(),
            old(self).trace@.owner[id as int] is Chain || old(
                self,
            ).trace@.owner[id as int] is Loose,
        ensures
            final(self).inv(),
            final(self).same_live(old(self)),
            final(self).blocks@.len() == old(self).blocks@.len(),
            final(self).pool@ == old(self).pool@,
            final(self).spare@ == old(self).spare@.push(id),
            final(self).trace@ == (Trace {
                owner: old(self).trace@.owner.update(id as int, Place::Spare),
                ..old(self).trace@
            }),
            final(self).blocks@[id as int].slots().len() == 0,
            forall|x: int|
                0 <= x < old(self).blocks@.len() && x != id ==> #[trigger] final(self).blocks@[x]
                    == old(self).blocks@[x],
    {
        let ghost t = self.trace@;
        self.blocks[id].clear();
        self.spare.push(id);
        let ghost owner = t.owner.update(id as int, Place::Spare);
        self.trace = Ghost(Trace { owner, ..t });
        proof {
            assert forall|j: int| 0 <= j < self.spare@.len() implies (#[trigger] self.spare@[j])
                < owner.len() && owner[self.spare@[j] as int] == Place::Spare by {
                if j < old(self).spare@.len() {
                    assert(self.spare@[j] == old(self).spare@[j]);
                }
            }
            assert forall|x: int| 0 <= x < owner.len() implies match #[trigger] owner[x] {
                Place::Live(k) => 0 <= k < t.ids.len() && t.ids[k] == x,
                Place::Loose => self.blocks@[x].blank() && self.blocks@[x].link() is None,
                Place::Chain => self.blocks@[x].blank(),
                Place::Pool(i) => {
                    &&& 0 <= i < self.pool@.len()
                    &&& self.pool@[i] == Some(x as usize)
                    &&& self.blocks@[x].blank()
                    &&& self.blocks@[x].link() is None
                },
                Place::Spare => true,
            } by {
                assert(x == id || owner[x] == t.owner[x]);
            }
            assert(self.arena_wf());
            self.lemma_same_live(old(self));
        }
    }
}

/// The places of the blocks after some were dropped.
spec fn freed(owner: Seq<Place>, dropped: Seq<usize>) -> Seq<Place> {
    Seq::new(
        owner.len(),
        |id: int|
            if dropped.contains(id as usize) {
                Place::Spare
            } else {
                owner[id]
            },
    )
}

proof fn lemma_freed_push(owner: Seq<Place>, dropped: Seq<usize>, id: usize)
    requires
        id < owner.len() <= usize::MAX,
    ensures
        freed(owner, dropped.push(id)) == freed(owner, dropped).update(id as int, Place::Spare),
{
    let more = dropped.push(id);
    assert forall|x: int| 0 <= x < owner.len() implies #[trigger] freed(owner, more)[x] == freed(
        owner,
        dropped,
    ).update(id as int, Place::Spare)[x] by {
        if x == id {
            assert(more[dropped.len() as int] == id);
        }
        if dropped.contains(x as usize) {
            let j = dropped.index_of(x as usize);
            assert(more[j] == x as usize);
        }
    }
    assert(freed(owner, more) =~= freed(owner, dropped).update(id as int, Place::Spare));
}

/// Increasing numbers from zero are at least as large as their index.
proof fn lemma_increasing_bound(starts: Seq<int>, n: int)
    requires
        increasing(starts),
        starts.len() > 0,
        starts[0] == 0,
        0 <= n < starts.len(),
    ensures
        n <= starts[n],
    decreases n,
{
    if n > 0 {
        lemma_increasing_bound(starts, n - 1);
        assert(starts[n - 1] < starts[n]);
    }
}

/// The starts of blocks followed by those of more blocks.
pub open spec fn joined_starts(starts: Seq<int>, more: Seq<int>) -> Seq<int> {
    Seq::new(
        (starts.len() + more.len() - 1) as nat,
        |k: int|
            if k < starts.len() {
                starts[k]
            } else {
                starts.last() + more[k - (starts.len() - 1)]
            },
    )
}

/// The lengths of blocks followed by those of more blocks.
proof fn lemma_joined_lengths<T>(before: Trace<T>, after: Trace<T>, chain: &BlockChain)
    requires
        before.ordered(),
        chain.starts@.len() == chain.blocks@.len() + 1,
        chain.starts@[0] == 0,
        after.ids == before.ids + chain.blocks@,
        after.starts == joined_starts(before.starts, chain.starts@),
    ensures
        after.lengths() == before.lengths() + chain.lengths(),
{
    assert(after.lengths() =~= before.lengths() + chain.lengths());
}

proof fn lemma_same_lengths<T>(before: Trace<T>, after: Trace<T>)
    requires
        after.ids == before.ids,
        after.starts == before.starts,
    ensures
        after.lengths() == before.lengths() + Seq::<int>::empty(),
{
    assert(after.lengths() =~= before.lengths() + Seq::<int>::empty());
}

impl<T> DUBQ<T> {
    /// The places of the blocks after a chain was linked.
    spec fn attached_owner(&self, c: Seq<usize>) -> Seq<Place> {
        let t = self.trace@;
        Seq::new(
            t.owner.len(),
            |id: int|
                if c.contains(id as usize) {
                    Place::Live(t.ids.len() + c.index_of(id as usize))
                } else {
                    t.owner[id]
                },
        )
    }

    /// `after` is this queue with a chain linked behind the last block, or as
    /// the first blocks.
    spec fn attaches(&self, after: &Self, chain: &BlockChain) -> bool {
        let t = self.trace@;
        let u = after.trace@;
        let c = chain.blocks@;
        let s = chain.starts@;
        let n = t.ids.len() as int;
        &&& c.len() > 0
        &&& after.pool == self.pool
        &&& after.spare == self.spare
        &&& after.min_block_size == self.min_block_size
        &&& u == (Trace {
            ids: t.ids + c,
            starts: joined_starts(t.starts, s),
            owner: self.attached_owner(c),
            head: u.head,
            tail: u.tail,
            ..t
        })
        &&& after.blocks@.len() == self.blocks@.len()
        &&& if n > 0 {
            let b = self.blocks@[t.ids[n - 1] as int];
            let d = after.blocks@[t.ids[n - 1] as int];
            &&& d.link() == Some(c[0])
            &&& d.slots() == b.slots()
            &&& d.flags() == b.flags()
            &&& d.wf() == b.wf()
            &&& u.head == t.head
            &&& u.tail == t.tail
            &&& after.phead == self.phead
            &&& after.chead == self.chead
        } else {
            &&& u.head == (CHead {
                ptr: pointer(c[0] as int),
                block_length: s[1] as u16,
                ..zero_chead()
            })
            &&& u.tail == (PHead {
                ptr: pointer(c[0] as int),
                block_length: s[1] as u16,
                excess: u.tail.excess,
                ..zero_phead()
            })
            &&& u.tail.excess.slots() <= chain.cap - s[1]
            &&& after.phead == u.tail.wide()
            &&& after.chead == u.head.wide()
        }
        &&& forall|id: int|
            0 <= id < self.blocks@.len() && !(n > 0 && id == t.ids[n - 1])
                ==> #[trigger] after.blocks@[id] == self.blocks@[id]
    }

    /// The blocks of a chain get consecutive numbers.
    proof fn lemma_attach_chain(&self, after: &Self, chain: &BlockChain)
        requires
            self.chained(chain),
            self.arena_wf(),
            self.trace@.ordered(),
            self.attaches(after, chain),
        ensures
            ({
                let t = self.trace@;
                let u = after.trace@;
                let c = chain.blocks@;
                let n = t.ids.len() as int;
                &&& u.ordered()
                &&& u.ids.len() == n + c.len()
                &&& u.limit() == t.limit() + chain.cap
                &&& forall|j: int|
                    0 <= j < c.len() ==> (#[trigger] c[j]) < t.owner.len()
                        && t.owner[c[j] as int] is Chain && u.owner[c[j] as int] == Place::Live(
                        n + j,
                    )
                &&& forall|id: int|
                    0 <= id < t.owner.len() && !(t.owner[id] is Chain) ==> #[trigger] u.owner[id]
                        == t.owner[id]
                &&& forall|k: int| 0 <= k < n ==> #[trigger] u.ids[k] == t.ids[k]
                &&& forall|k: int| 0 <= k <= n ==> #[trigger] u.starts[k] == t.starts[k]
                &&& forall|k: int| n <= k < u.ids.len() ==> #[trigger] u.ids[k] == c[k - n]
                &&& forall|k: int|
                    n <= k <= u.ids.len() ==> #[trigger] u.starts[k] == t.limit()
                        + chain.starts@[k - n]
            }),
    {
        let t = self.trace@;
        let u = after.trace@;
        let c = chain.blocks@;
        let s = chain.starts@;
        let n = t.ids.len() as int;
        assert forall|j: int| 0 <= j < c.len() implies (#[trigger] c[j]) < t.owner.len()
            && t.owner[c[j] as int] is Chain && u.owner[c[j] as int] == Place::Live(n + j) by {
            assert(c.contains(c[j]));
            assert(c.index_of(c[j]) == j);
        }
        assert forall|id: int| 0 <= id < t.owner.len() && !(t.owner[id] is Chain) implies
            #[trigger] u.owner[id] == t.owner[id] by {
            if c.contains(id as usize) {
                let j = c.index_of(id as usize);
                assert(t.owner[c[j] as int] is Chain);
            }
        }
        assert forall|k: int| n <= k <= u.ids.len() implies #[trigger] u.starts[k] == t.limit()
            + s[k - n] by {}
        assert forall|a: int, b: int| 0 <= a < b < u.starts.len() implies #[trigger] u.starts[a]
            < #[trigger] u.starts[b] by {
            if b <= n {
                assert(t.starts[a] < t.starts[b]);
            } else {
                assert(s[0] < s[b - n]);
                if a < n {
                    assert(t.starts[a] < t.starts[n]);
                } else {
                    assert(s[a - n] < s[b - n]);
                }
            }
        }
    }

    proof fn lemma_attach_arena(&self, after: &Self, chain: &BlockChain)
        requires
            self.inv(),
            self.chained(chain),
            self.attaches(after, chain),
        ensures
            after.arena_wf(),
    {
        let t = self.trace@;
        let u = after.trace@;
        let c = chain.blocks@;
        let n = t.ids.len() as int;
        self.lemma_attach_chain(after, chain);
        if n > 0 {
            assert(t.live(n - 1));
        }
        assert forall|id: int| 0 <= id < u.owner.len() implies match #[trigger] u.owner[id] {
            Place::Live(k) => 0 <= k < u.ids.len() && u.ids[k] == id,
            Place::Loose => after.blocks@[id].blank() && after.blocks@[id].link() is None,
            Place::Chain => after.blocks@[id].blank(),
            Place::Pool(j) => {
                &&& 0 <= j < after.pool@.len()
                &&& after.pool@[j] == Some(id as usize)
                &&& after.blocks@[id].blank()
                &&& after.blocks@[id].link() is None
            },
            Place::Spare => true,
        } by {
            if c.contains(id as usize) {
                let j = c.index_of(id as usize);
                assert(c[j] == id as usize);
                assert(u.ids[n + j] == c[j]);
            } else {
                assert(u.owner[id] == t.owner[id]);
                if n > 0 && id == t.ids[n - 1] {
                    assert(t.owner[id] == Place::Live(n - 1));
                    assert(u.ids[n - 1] == t.ids[n - 1]);
                } else if t.owner[id] is Live {
                    assert(u.ids[t.owner[id]->Live_0] == t.ids[t.owner[id]->Live_0]);
                } else if t.owner[id] is Chain {
                    assert(after.blocks@[id] == self.blocks@[id]);
                } else {
                    assert(after.blocks@[id] == self.blocks@[id]);
                }
            }
        }
        assert forall|j: int| 0 <= j < after.pool@.len() implies match #[trigger] after.pool@[j] {
            Some(id) => id < u.owner.len() && u.owner[id as int] == Place::Pool(j),
            None => true,
        } by {
            if let Some(id) = self.pool@[j] {
                assert(t.owner[id as int] == Place::Pool(j));
                assert(u.owner[id as int] == t.owner[id as int]);
            }
        }
        assert forall|j: int| 0 <= j < after.spare@.len() implies (#[trigger] after.spare@[j])
            < u.owner.len() && u.owner[after.spare@[j] as int] == Place::Spare by {
            assert(t.owner[self.spare@[j] as int] == Place::Spare);
            assert(u.owner[self.spare@[j] as int] == t.owner[self.spare@[j] as int]);
        }
    }

    proof fn lemma_attach_live(&self, after: &Self, chain: &BlockChain, k: int)
        requires
            self.inv(),
            self.chained(chain),
            self.attaches(after, chain),
            0 <= k < after.trace@.ids.len(),
        ensures
            k < self.trace@.ids.len() ==> after.trace@.live(k) == self.trace@.live(k),
            k >= self.trace@.ids.len() ==> after.trace@.live(k),
            after.trace@.ids[k] < after.trace@.owner.len(),
    {
        let t = self.trace@;
        let u = after.trace@;
        let c = chain.blocks@;
        let n = t.ids.len() as int;
        self.lemma_attach_chain(after, chain);
        if k >= n {
            assert(u.ids[k] == c[k - n]);
            assert(u.owner[c[k - n] as int] == Place::Live(k));
        } else {
            let id = t.ids[k];
            assert(u.ids[k] == id);
            if c.contains(id) {
                let j = c.index_of(id);
                assert(c[j] == id);
                assert(u.owner[c[j] as int] == Place::Live(n + j));
            } else {
                assert(u.owner[id as int] == t.owner[id as int]);
            }
        }
    }

    /// A linked block after the linking: an old one keeps its slots, a new one
    /// is blank.
    proof fn lemma_attach_block(&self, after: &Self, chain: &BlockChain, k: int)
        requires
            self.inv(),
            self.chained(chain),
            self.attaches(after, chain),
            after.trace@.live(k),
        ensures
            after.block_wf(k),
    {
        let t = self.trace@;
        let u = after.trace@;
        let c = chain.blocks@;
        let n = t.ids.len() as int;
        self.lemma_attach_chain(after, chain);
        self.lemma_attach_live(after, chain, k);
        if n > 0 {
            assert(t.live(n - 1));
        }
        if k < n {
            let id = t.ids[k] as int;
            assert(self.block_wf(k));
            assert(u.ids[k] == t.ids[k]);
            assert(u.starts[k] == t.starts[k] && u.starts[k + 1] == t.starts[k + 1]);
            assert(u.size(k) == t.size(k));
            if k < n - 1 {
                assert(u.ids[k + 1] == t.ids[k + 1]);
                assert(t.ids[k] != t.ids[n - 1]) by {
                    assert(t.owner[t.ids[k] as int] == Place::Live(k));
                }
            } else {
                assert(u.ids[k + 1] == c[0]);
            }
            let b = self.blocks@[id];
            let d = after.blocks@[id];
            assert(d.slots() == b.slots() && d.flags() == b.flags() && d.wf() == b.wf());
            if n > 0 {
                assert(u.starts[t.head_block] == t.starts[t.head_block]);
                assert(u.head_pos() == t.head_pos());
            }
            let free = choose|i: int| 0 <= i < t.size(k) && !#[trigger] b.flags()[i];
            assert(!d.flags()[free]);
            assert forall|i: int| 0 <= i < u.size(k) implies #[trigger] after.slot_wf(k, i) by {
                assert(self.slot_wf(k, i));
                assert(u.at(k, i) == t.at(k, i));
            }
        } else {
            let id = c[k - n] as int;
            assert(u.ids[k] == c[k - n]);
            assert(u.starts[k] == t.limit() + chain.starts@[k - n]);
            assert(u.starts[k + 1] == t.limit() + chain.starts@[k + 1 - n]);
            assert(after.blocks@[id] == self.blocks@[id]) by {
                if n > 0 && id == t.ids[n - 1] {
                    assert(t.owner[id] is Live);
                }
            }
            if k < u.ids.len() - 1 {
                assert(u.ids[k + 1] == c[k + 1 - n]);
            }
            assert(chain.starts@[0] <= chain.starts@[k - n]);
            assert(t.log.len() <= t.limit()) by {
                if n > 0 {
                    assert(t.starts[t.tail_block + 1] <= t.starts[n]);
                }
            }
            let b = after.blocks@[id];
            assert(b.blank());
            assert(!b.flags()[0]);
            assert forall|i: int| 0 <= i < u.size(k) implies #[trigger] after.slot_wf(k, i) by {
                assert(u.at(k, i) >= t.log.len());
                assert(b.slots()[i].fresh());
                assert(!b.flags()[i]);
            }
        }
    }

    /// Linking a chain keeps the queue well formed.
    proof fn lemma_attach(&self, after: &Self, chain: &BlockChain)
        requires
            self.inv(),
            self.chained(chain),
            self.attaches(after, chain),
        ensures
            after.inv(),
    {
        let t = self.trace@;
        let u = after.trace@;
        let c = chain.blocks@;
        let s = chain.starts@;
        let n = t.ids.len() as int;
        self.lemma_attach_chain(after, chain);
        self.lemma_attach_arena(after, chain);
        assert forall|k: int| 0 <= k < u.ids.len() implies (#[trigger] u.ids[k]) < u.owner.len() by {
            self.lemma_attach_live(after, chain, k);
        }
        assert forall|k: int| u.head_block <= k < u.ids.len() implies #[trigger] u.live(k) by {
            self.lemma_attach_live(after, chain, k);
            if k < n {
                assert(t.live(k));
            }
        }
        assert forall|k: int, i: int|
            0 <= k < u.ids.len() && 0 <= i < u.size(k) && u.claimed.contains(
                #[trigger] u.at(k, i),
            ) implies u.live(k) by {
            self.lemma_attach_live(after, chain, k);
            if k < n {
                assert(u.starts[k] == t.starts[k] && u.starts[k + 1] == t.starts[k + 1]);
                assert(t.claimed.contains(t.at(k, i)));
                assert(t.live(k));
            }
        }
        assert forall|k: int| #[trigger] u.live(k) implies after.block_wf(k) by {
            self.lemma_attach_block(after, chain, k);
        }
        if n > 0 {
            assert(u.ids[t.head_block] == t.ids[t.head_block]);
            assert(u.ids[t.tail_block] == t.ids[t.tail_block]);
            assert(u.starts[t.head_block] == t.starts[t.head_block]);
            assert(u.starts[t.head_block + 1] == t.starts[t.head_block + 1]);
            assert(u.starts[t.tail_block] == t.starts[t.tail_block]);
            assert(u.starts[t.tail_block + 1] == t.starts[t.tail_block + 1]);
        } else {
            assert(u.live(0));
            assert(after.block_wf(0));
            assert(u.ids[0] == c[0]);
            assert(u.starts[0] == 0 && u.starts[1] == s[1]);
        }
    }

    /// Links a chain behind the last block.
    fn attach(&mut self, chain: &mut BlockChain, last: usize)
        requires
            old(self).inv(),
            old(self).chained(old(chain)),
            old(chain).blocks@.len() > 0,
            old(self).trace@.ids.len() > 0,
            last == old(self).trace@.ids[old(self).trace@.ids.len() - 1],
        ensures
            final(self).inv(),
            final(self).chained(final(chain)),
            final(chain).cap == 0,
            final(self).blocks@.len() == old(self).blocks@.len(),
            final(self).min_block_size == old(self).min_block_size,
            final(self).pool@.len() == old(self).pool@.len(),
            final(self).trace@ == (Trace {
                ids: old(self).trace@.ids + old(chain).blocks@,
                starts: joined_starts(old(self).trace@.starts, old(chain).starts@),
                owner: final(self).trace@.owner,
                ..old(self).trace@
            }),
            final(self).trace@.limit() == old(self).trace@.limit() + old(chain).cap,
            final(self).trace@.lengths() == old(self).trace@.lengths() + old(chain).lengths(),
            final(self).pool() == old(self).pool(),
            final(chain).blocks@.len() == 0,
    {
        let ghost t = self.trace@;
        proof {
            assert(t.live(t.ids.len() - 1));
        }
        let first: usize = chain.blocks[0];
        self.blocks[last].set_next(Some(first));
        self.trace = Ghost(
            Trace {
                ids: t.ids + chain.blocks@,
                starts: joined_starts(t.starts, chain.starts@),
                owner: old(self).attached_owner(chain.blocks@),
                ..t
            },
        );
        proof {
            old(self).lemma_attach_chain(self, old(chain));
            old(self).lemma_attach(self, old(chain));
            old(self).lemma_pool_kept(self);
            assert(self.trace@.lengths() =~= t.lengths() + old(chain).lengths());
        }
        *chain = BlockChain::new();
    }

    /// Links a chain as the first blocks and sets both heads to its start.
    fn attach_root(&mut self, chain: &mut BlockChain)
        requires
            old(self).inv(),
            old(self).chained(old(chain)),
            old(chain).blocks@.len() > 0,
            old(self).trace@.ids.len() == 0,
        ensures
            final(self).inv(),
            final(self).chained(final(chain)),
            final(chain).cap == 0,
            final(self).blocks@.len() == old(self).blocks@.len(),
            final(self).min_block_size == old(self).min_block_size,
            final(self).pool@.len() == old(self).pool@.len(),
            final(self).trace@ == (Trace {
                ids: old(chain).blocks@,
                starts: old(chain).starts@,
                owner: final(self).trace@.owner,
                head: final(self).trace@.head,
                tail: final(self).trace@.tail,
                ..old(self).trace@
            }),
            final(self).trace@.limit() == old(chain).cap,
            final(self).trace@.tail.index == 0,
            final(self).trace@.head.index == 0,
            final(self).trace@.lengths() == old(chain).lengths(),
            final(self).pool() == old(self).pool(),
            final(chain).blocks@.len() == 0,
    {
        let ghost t = self.trace@;
        let ghost c = chain.blocks@;
        let ghost s = chain.starts@;
        let root: usize = chain.blocks[0];
        assert(t.owner[c[0] as int] is Chain);
        let length: usize = self.blocks[root].len();
        assert(s[1] <= s[c.len() as int]);
        let start = PHead::from_ptr(root as u64 + 1, length as u16);
        let successors: usize = chain.cap - length;
        let first = PHead { excess: start.excess.add_capacity(successors), ..start };
        let chead = CHead::from_ptr(root as u64 + 1, length as u16);
        self.phead = first.pack_u128();
        self.chead = chead.pack_u128();
        self.trace = Ghost(
            Trace {
                ids: t.ids + c,
                starts: joined_starts(t.starts, s),
                owner: old(self).attached_owner(c),
                head: chead,
                tail: first,
                ..t
            },
        );
        proof {
            old(self).lemma_attach_chain(self, old(chain));
            old(self).lemma_attach(self, old(chain));
            assert(self.trace@.ids =~= c);
            assert(self.trace@.starts =~= s);
            assert(self.trace@.lengths() =~= old(chain).lengths());
            old(self).lemma_pool_kept(self);
        }
        *chain = BlockChain::new();
    }
}

impl<T> DUBQ<T> {
    /// Moving the producer head over a run of free positions.
    proof fn lemma_reserve(&self, after: &Self, run: Seq<Option<T>>)
        requires
            self.inv(),
            self.trace@.ids.len() > 0,
            after.blocks == self.blocks,
            after.pool == self.pool,
            after.spare == self.spare,
            after.min_block_size == self.min_block_size,
            after.chead == self.chead,
            after.phead == after.trace@.tail.wide(),
            ({
                let t = self.trace@;
                let u = after.trace@;
                &&& u == (Trace {
                    log: t.log + run,
                    pending: t.pending.union(span(t.tail_pos(), t.tail_pos() + run.len())),
                    tail_block: u.tail_block,
                    tail: u.tail,
                    ..t
                })
                &&& t.tail_block <= u.tail_block < t.ids.len()
                &&& u.tail.ptr == pointer(t.ids[u.tail_block] as int)
                &&& u.tail.block_length == t.size(u.tail_block)
                &&& u.tail.index < u.tail.block_length
                &&& u.tail.excess.slots() <= t.limit() - t.starts[u.tail_block + 1]
                &&& u.tail_pos() == t.tail_pos() + run.len()
            }),
        ensures
            after.inv(),
    {
        let t = self.trace@;
        let u = after.trace@;
        assert forall|k: int| #[trigger] u.live(k) == t.live(k) by {}
        assert forall|k: int| u.head_block <= k < u.ids.len() implies #[trigger] u.live(k) by {
            assert(t.live(k));
        }
        assert forall|k: int, i: int|
            0 <= k < u.ids.len() && 0 <= i < u.size(k) && u.claimed.contains(
                #[trigger] u.at(k, i),
            ) implies u.live(k) by {
            assert(t.claimed.contains(t.at(k, i)));
            assert(t.live(k));
        }
        assert forall|k: int| #[trigger] u.live(k) implies after.block_wf(k) by {
            assert(t.live(k));
            assert(self.block_wf(k));
            assert forall|i: int| 0 <= i < u.size(k) implies #[trigger] after.slot_wf(k, i) by {
                assert(self.slot_wf(k, i));
                let p = t.at(k, i);
                assert(u.at(k, i) == p);
                assert(t.starts[0] <= t.starts[k]);
                if p < t.log.len() {
                    assert(u.log[p] == t.log[p]);
                }
            }
        }
    }

    /// What a reservation leaves alone.
    pub open spec fn extends(&self, before: &Self) -> bool {
        let t = before.trace();
        let u = self.trace();
        &&& t.ids.is_prefix_of(u.ids)
        &&& t.starts.is_prefix_of(u.starts)
    }

    /// Moves the producer head by a whole batch, from `start` across the
    /// blocks, and links the chain where the linked blocks end.
    ///
    /// A batch that ends with a block leaves the head at the start of the next
    /// block.
    #[verifier::spinoff_prover]
    #[verifier::rlimit(60)]
    fn finish_boundary(
        &mut self,
        start: PHead,
        len: usize,
        ext: &mut BlockChain,
        run: Ghost<Seq<Option<T>>>,
    )
        requires
            old(self).inv(),
            old(self).chained(old(ext)),
            old(self).trace@.ids.len() > 0,
            start == old(self).trace@.tail,
            run@.len() == len,
            old(self).trace@.limit() + old(ext).cap > old(self).trace@.tail_pos() + len,
        ensures
            final(self).inv(),
            final(self).chained(final(ext)),
            final(self).extends(old(self)),
            final(self).blocks@.len() == old(self).blocks@.len(),
            final(self).min_block_size == old(self).min_block_size,
            final(self).pool@.len() == old(self).pool@.len(),
            ({
                let t = old(self).trace@;
                let u = final(self).trace@;
                &&& u == (Trace {
                    log: t.log + run@,
                    pending: t.pending.union(span(t.tail_pos(), t.tail_pos() + len)),
                    ids: u.ids,
                    starts: u.starts,
                    owner: u.owner,
                    tail_block: u.tail_block,
                    tail: u.tail,
                    ..t
                })
                &&& u.tail_pos() == t.tail_pos() + len
                &&& u.lengths() == t.lengths() + (if t.limit() <= t.tail_pos() + len {
                    old(ext).lengths()
                } else {
                    Seq::empty()
                })
            }),
            final(self).pool() == old(self).pool(),
    {
        let ghost t = self.trace@;
        let ghost mut attached = false;
        let ghost target = t.tail_pos() + len;
        let mut end = start;
        let mut remaining: usize = len;
        let ghost mut number = t.tail_block;
        loop
            invariant
                self.inv(),
                self.chained(ext),
                t == old(self).trace@,
                old(self).inv(),
                t.ids.len() > 0,
                self.blocks@.len() == old(self).blocks@.len(),
                self.min_block_size == old(self).min_block_size,
                self.pool@.len() == old(self).pool@.len(),
                self.extends(old(self)),
                run@.len() == len,
                target == t.tail_pos() + len,
                self.trace@ == (Trace {
                    ids: self.trace@.ids,
                    starts: self.trace@.starts,
                    owner: self.trace@.owner,
                    ..t
                }),
                t.tail_block <= number < self.trace@.ids.len(),
                end.ptr == pointer(self.trace@.ids[number] as int),
                end.block_length == self.trace@.size(number),
                end.index < end.block_length,
                end.excess.slots() <= self.trace@.limit() - self.trace@.starts[number + 1],
                self.trace@.at(number, end.index as int) + remaining == target,
                self.trace@.limit() + ext.cap > target,
                self.pool() == old(self).pool(),
                old(self).chained(old(ext)),
                attached ==> t.limit() <= target && ext.cap == 0,
                !attached ==> *ext == *old(ext),
                self.trace@.ids == (if attached {
                    t.ids + old(ext).blocks@
                } else {
                    t.ids
                }),
                self.trace@.starts == (if attached {
                    joined_starts(t.starts, old(ext).starts@)
                } else {
                    t.starts
                }),
            decreases remaining,
        {
            let available: usize = (end.block_length - end.index) as usize;
            proof {
                assert(self.trace@.live(number));
                assert(self.block_wf(number));
            }
            if remaining < available {
                let ghost before = *self;
                end = PHead { index: end.index + remaining as u16, ..end };
                self.phead = end.pack_u128();
                self.trace = Ghost(
                    Trace {
                        log: t.log + run@,
                        pending: t.pending.union(span(target - len, target)),
                        tail_block: number,
                        tail: end,
                        ..self.trace@
                    },
                );
                proof {
                    assert(before.trace@.starts[t.tail_block] == t.starts[t.tail_block]);
                    before.lemma_reserve(self, run@);
                    before.lemma_pool_kept(self);
                    if attached {
                        lemma_joined_lengths(t, self.trace@, old(ext));
                    } else {
                        if number + 1 < t.ids.len() {
                            assert(t.starts[number + 1] < t.starts[t.ids.len() as int]);
                        }
                        assert(target < t.limit());
                        lemma_same_lengths(t, self.trace@);
                    }
                }
                return;
            }
            remaining = remaining - available;
            let id: usize = (end.ptr - 1) as usize;
            let next: usize = match self.blocks[id].next() {
                Some(next) => next,
                None => {
                    let ghost before = *self;
                    proof {
                        assert(number == before.trace@.ids.len() - 1);
                        if ext.blocks@.len() == 0 {
                            assert(ext.cap == 0);
                        }
                    }
                    let first: usize = ext.blocks[0];
                    let added: usize = ext.cap;
                    self.attach(ext, id);
                    proof {
                        let u = self.trace@;
                        let b = before.trace@;
                        assert forall|k: int| 0 <= k < b.ids.len() implies u.ids[k] == b.ids[k] by {}
                        assert forall|k: int| 0 <= k < b.starts.len() implies u.starts[k]
                            == b.starts[k] by {}
                        assert(t.ids.is_prefix_of(u.ids));
                        assert(t.starts.is_prefix_of(u.starts));
                        assert(u.ids[number + 1] == first);
                        attached = true;
                    }
                    end = PHead { excess: end.excess.add_capacity(added), ..end };
                    first
                },
            };
            proof {
                let u = self.trace@;
                assert(u.live(number));
                assert(self.block_wf(number));
                assert(next == u.ids[number + 1]);
                assert(u.live(number + 1));
                assert(self.block_wf(number + 1));
                number = number + 1;
            }
            let length: usize = self.blocks[next].len();
            end = end.with_block(next as u64 + 1, length as u16);
            proof {
                let u = self.trace@;
                if number < u.ids.len() - 1 {
                    assert(u.starts[number + 1] < u.starts[u.ids.len() as int]);
                }
            }
        }
    }

    /// A producer head that may have been seen, now or earlier: one with the
    /// current token has the current pointer.
    pub open spec fn seen_phead(&self, seen: PHead) -> bool {
        seen == zero_phead() || (self.trace().ids.len() > 0 && (seen.token
            == self.trace().tail.token ==> seen.ptr == self.trace().tail.ptr))
    }

    /// The producer head, after its low word turned out to be `found` and not
    /// that of `obs`. The pointer is still the same if the token is.
    pub fn recover_phead(&self, obs: PHead, found: u64) -> (head: PHead)
        requires
            self.wf(),
            self.trace().ids.len() > 0,
            self.seen_phead(obs),
            obs != zero_phead(),
            found == self.trace().tail.narrow(),
        ensures
            head == self.trace().tail,
    {
        self.recovered_phead(obs, found)
    }

    fn recovered_phead(&self, obs: PHead, found: u64) -> (head: PHead)
        requires
            self.inv(),
            self.trace@.ids.len() > 0,
            self.seen_phead(obs),
            obs != zero_phead(),
            found == self.trace@.tail.narrow(),
        ensures
            head == self.trace@.tail,
    {
        let low = PHead::from_u64(found);
        proof {
            law_phead_words(self.trace@.tail, low);
        }
        if obs.token == low.token {
            PHead { ptr: obs.ptr, ..low }
        } else {
            self.producer_head()
        }
    }

    /// There is room for a batch of `len` values.
    pub open spec fn room_for(&self, len: int) -> bool {
        &&& self.allocated() + len + 1 < usize::MAX
        &&& len + 0x20000 <= usize::MAX
    }

    /// Starts a queue that has no blocks, and reserves the first batch. The
    /// head of a queue that has blocks is handed back.
    fn try_init(
        &mut self,
        len: usize,
        len16: u16,
        ext: &mut BlockChain,
        run: Ghost<Seq<Option<T>>>,
    ) -> (start: Result<PHead, PHead>)
        requires
            old(self).inv(),
            old(self).chained(old(ext)),
            0 < len,
            run@.len() == len,
            old(ext).cap > len,
            len16 == (if len <= u16::MAX {
                len as int
            } else {
                u16::MAX as int
            }),
        ensures
            final(self).inv(),
            final(self).chained(final(ext)),
            final(self).blocks@.len() == old(self).blocks@.len(),
            final(self).min_block_size == old(self).min_block_size,
            final(self).pool@.len() == old(self).pool@.len(),
            match start {
                Ok(start) => {
                    let t = old(self).trace@;
                    let u = final(self).trace@;
                    &&& t.ids.len() == 0
                    &&& u.ids.len() > 0
                    &&& start.ptr == pointer(u.ids[0] as int)
                    &&& start.block_length == u.size(0)
                    &&& start.index == 0
                    &&& u == (Trace {
                        log: t.log + run@,
                        pending: t.pending.union(span(t.tail_pos(), t.tail_pos() + len)),
                        ids: u.ids,
                        starts: u.starts,
                        owner: u.owner,
                        head: u.head,
                        tail_block: u.tail_block,
                        tail: u.tail,
                        ..t
                    })
                    &&& u.head.index == 0
                    &&& u.lengths() == old(ext).lengths()
                    &&& final(self).pool() == old(self).pool()
                },
                Err(found) => {
                    &&& old(self).trace@.ids.len() > 0
                    &&& found == old(self).trace@.tail
                    &&& *final(self) == *old(self)
                    &&& *final(ext) == *old(ext)
                },
            },
    {
        let current = self.producer_head();
        if !current.is_zero() {
            return Err(current);
        }
        proof {
            if ext.blocks@.len() == 0 {
                assert(ext.cap == 0);
            }
        }
        self.attach_root(ext);
        let ghost rooted = *self;
        let start = self.producer_head();
        let marker = PHead { index: len16, ..start };
        if marker.index >= marker.block_length {
            self.finish_boundary(start, len, ext, run);
            proof {
                assert(self.trace@.ids[0] == rooted.trace@.ids[0]);
                assert(self.trace@.starts[0] == rooted.trace@.starts[0]);
                assert(self.trace@.starts[1] == rooted.trace@.starts[1]);
                assert(self.trace@.lengths() =~= rooted.trace@.lengths());
            }
        } else {
            self.phead = marker.pack_u128();
            self.trace = Ghost(
                Trace {
                    log: self.trace@.log + run@,
                    pending: self.trace@.pending.union(
                        span(self.trace@.tail_pos(), self.trace@.tail_pos() + len),
                    ),
                    tail: marker,
                    ..self.trace@
                },
            );
            proof {
                rooted.lemma_reserve(self, run@);
                rooted.lemma_pool_kept(self);
                assert(self.trace@.lengths() =~= rooted.trace@.lengths());
            }
        }
        Ok(start)
    }

    /// Reserves `len` positions and returns the head they start at. `seen` is
    /// the producer head as it was seen last.
    #[verifier::spinoff_prover]
    #[verifier::rlimit(60)]
    fn reserve_batch(&mut self, seen: PHead, len: usize, run: Ghost<Seq<Option<T>>>) -> (start:
        PHead)
        requires
            old(self).wf(),
            old(self).seen_phead(seen),
            0 < len,
            run@.len() == len,
            old(self).room_for(len as int),
        ensures
            final(self).inv(),
            final(self).extends(old(self)),
            final(self).allocated() <= old(self).allocated() + len + 1,
            final(self).min_block_size == old(self).min_block_size,
            final(self).pool@.len() == old(self).pool@.len(),
            ({
                let t = old(self).trace@;
                let u = final(self).trace@;
                let k = t.tail_block;
                &&& u.ids.len() > 0
                &&& start.ptr == pointer(u.ids[k] as int)
                &&& start.block_length == u.size(k)
                &&& start.index == t.tail.index
                &&& start.index < start.block_length
                &&& u == (Trace {
                    log: t.log + run@,
                    pending: t.pending.union(span(t.tail_pos(), t.tail_pos() + len)),
                    ids: u.ids,
                    starts: u.starts,
                    owner: u.owner,
                    head: u.head,
                    tail_block: u.tail_block,
                    tail: u.tail,
                    ..t
                })
                &&& u.head.index == t.head.index
                &&& t.ids.len() > 0 ==> u.head == t.head
            }),
            final(self).grown(old(self), seen, len as int),
    {
        let len16: u16 = usize_as_u16_or_max(len);
        let mut ext = BlockChain::new();
        let mut obs = seen;
        let ghost t = self.trace@;
        let ghost stock = Stock { pool: self.pool(), chain: Seq::empty() };
        let ghost first = if seen != zero_phead() && seen.index >= seen.block_length {
            stock
        } else {
            stock.ensured(seen.excess.slots(), len as int, self.min_block())
        };
        assert(self.stock(&ext) =~= stock);
        loop
            invariant
                first == (if seen != zero_phead() && seen.index >= seen.block_length {
                    stock
                } else {
                    stock.ensured(seen.excess.slots(), len as int, old(self).min_block())
                }),
                stock == (Stock { pool: old(self).pool(), chain: Seq::empty() }),
                self.stock(&ext) == if obs == seen {
                    stock
                } else {
                    first
                },
                obs != seen ==> obs == t.tail,
                self.inv(),
                self.chained(&ext),
                self.same_live(old(self)),
                old(self).wf(),
                t == old(self).trace@,
                0 < len,
                run@.len() == len,
                old(self).room_for(len as int),
                self.seen_phead(obs),
                ext.blocks@.len() <= len + 1,
                self.blocks@.len() - old(self).blocks@.len() <= ext.blocks@.len(),
                len16 == (if len <= u16::MAX {
                    len as int
                } else {
                    u16::MAX as int
                }),
            decreases
                    if obs == t.tail {
                        0int
                    } else {
                        1int
                    },
        {
            if !obs.is_zero() && obs.index >= obs.block_length {
                obs = self.producer_head();
                continue;
            }
            self.ensure_ext(&mut ext, obs.excess, len);
            let ghost ready = self.stock(&ext);
            assert(obs == t.tail ==> ready == old(self).prepared(seen, len as int));
            if obs.is_zero() {
                match self.try_init(len, len16, &mut ext, run) {
                    Ok(start) => {
                        let ghost before = *self;
                        proof {
                            assert(self.trace@.starts[0] == 0);
                            assert(old(self).trace@.starts =~= Seq::<int>::empty().push(0));
                            assert(old(self).trace@.ids =~= Seq::<usize>::empty());
                        }
                        self.release(ext);
                        assert(self.trace@.lengths() =~= t.lengths() + ready.chain);
                        return start;
                    },
                    Err(found) => {
                        obs = found;
                        continue;
                    },
                }
            }
            let current = self.producer_head();
            let found: u64 = current.pack_u64();
            if found == obs.pack_u64() {
                proof {
                    law_phead_words(obs, current);
                    assert(obs == t.tail);
                    assert(self.trace@.live(t.tail_block));
                    assert(self.block_wf(t.tail_block));
                }
                let ghost before = *self;
                let index: u16 = if obs.index > u16::MAX - len16 {
                    u16::MAX
                } else {
                    obs.index + len16
                };
                let marker = PHead { index, ..obs };
                if marker.index >= marker.block_length {
                    self.finish_boundary(obs, len, &mut ext, run);
                    proof {
                        assert(self.trace@.ids[t.tail_block] == t.ids[t.tail_block]);
                        assert(self.trace@.starts[t.tail_block] == t.starts[t.tail_block]);
                        assert(self.trace@.starts[t.tail_block + 1] == t.starts[t.tail_block + 1]);
                    }
                } else {
                    self.phead = marker.pack_u128();
                    self.trace = Ghost(
                        Trace {
                            log: self.trace@.log + run@,
                            pending: self.trace@.pending.union(
                                span(self.trace@.tail_pos(), self.trace@.tail_pos() + len),
                            ),
                            tail: marker,
                            ..self.trace@
                        },
                    );
                    proof {
                        before.lemma_reserve(self, run@);
                        before.lemma_pool_kept(self);
                        if t.tail_block + 1 < t.ids.len() {
                            assert(t.starts[t.tail_block + 1] < t.starts[t.ids.len() as int]);
                        }
                        assert(!old(self).is_short_of(len as int));
                    }
                }
                let ghost linked = self.trace@;
                self.release(ext);
                proof {
                    assert(self.trace@.lengths() =~= linked.lengths());
                    assert(linked.lengths() =~= t.lengths() + (if old(self).is_short_of(
                        len as int,
                    ) {
                        ready.chain
                    } else {
                        Seq::empty()
                    }));
                }
                return obs;
            }
            obs = self.recovered_phead(obs, found);
        }
    }
}

impl<T> DUBQ<T> {
    /// Two slots with one position are one slot.
    proof fn lemma_same_slot(&self, a: int, i: int, b: int, j: int)
        requires
            self.trace@.ordered(),
            0 <= a < self.trace@.ids.len(),
            0 <= b < self.trace@.ids.len(),
            0 <= i < self.trace@.size(a),
            0 <= j < self.trace@.size(b),
            self.trace@.at(a, i) == self.trace@.at(b, j),
        ensures
            a == b,
            i == j,
    {
        let s = self.trace@.starts;
        if a < b {
            assert(s[a + 1] <= s[b]);
        } else if b < a {
            assert(s[b + 1] <= s[a]);
        }
    }

    /// The block of a reserved position that is not written is linked.
    proof fn lemma_pending_block(&self, number: int, index: int)
        requires
            self.inv(),
            0 <= number < self.trace@.ids.len(),
            0 <= index < self.trace@.size(number),
            self.trace@.pending.contains(self.trace@.at(number, index)),
        ensures
            self.trace@.live(number),
    {
        let t = self.trace@;
        let p = t.at(number, index);
        if t.claimed.contains(p) {
            assert(t.live(number));
        } else {
            assert(p >= t.head_pos());
            if number < t.head_block {
                assert(t.starts[number + 1] <= t.starts[t.head_block]);
            }
            assert(t.live(number));
        }
    }

    /// Writes or skips a reserved position.
    fn fill_one(&mut self, id: usize, index: usize, number: Ghost<int>, value: Option<T>)
        requires
            old(self).inv(),
            0 <= number@ < old(self).trace@.ids.len(),
            index < old(self).trace@.size(number@),
            id == old(self).trace@.ids[number@],
            old(self).trace@.pending.contains(old(self).trace@.at(number@, index as int)),
            old(self).trace@.log[old(self).trace@.at(number@, index as int)] == value,
        ensures
            final(self).inv(),
            final(self).blocks@.len() == old(self).blocks@.len(),
            final(self).min_block_size == old(self).min_block_size,
            final(self).pool() == old(self).pool(),
            final(self).pool == old(self).pool,
            final(self).trace@ == (Trace {
                pending: old(self).trace@.pending.remove(
                    old(self).trace@.at(number@, index as int),
                ),
                ..old(self).trace@
            }),
    {
        let ghost t = self.trace@;
        let ghost n = number@;
        let ghost p = t.at(n, index as int);
        proof {
            self.lemma_pending_block(n, index as int);
            assert(self.block_wf(n));
            assert(self.slot_wf(n, index as int));
        }
        self.blocks[id].write(index, value);
        self.trace = Ghost(Trace { pending: t.pending.remove(p), ..t });
        proof {
            let u = self.trace@;
            assert forall|k: int| #[trigger] u.live(k) == t.live(k) by {}
            assert forall|k: int| u.head_block <= k < u.ids.len() implies #[trigger] u.live(k) by {
                assert(t.live(k));
            }
            assert forall|k: int, i: int|
                0 <= k < u.ids.len() && 0 <= i < u.size(k) && u.claimed.contains(
                    #[trigger] u.at(k, i),
                ) implies u.live(k) by {
                assert(t.claimed.contains(t.at(k, i)));
                assert(t.live(k));
            }
            assert forall|k: int| #[trigger] u.live(k) implies self.block_wf(k) by {
                assert(t.live(k));
                assert(old(self).block_wf(k));
                if k == n {
                    let b = old(self).blocks@[id as int];
                    let free = choose|i: int| 0 <= i < t.size(k) && !#[trigger] b.flags()[i];
                    assert(!self.blocks@[id as int].flags()[free]);
                } else {
                    assert(t.ids[k] != id) by {
                        assert(t.owner[t.ids[k] as int] == Place::Live(k));
                    }
                }
                assert forall|i: int| 0 <= i < u.size(k) implies #[trigger] self.slot_wf(k, i) by {
                    assert(old(self).slot_wf(k, i));
                    assert(u.at(k, i) == t.at(k, i));
                    if t.at(k, i) == p {
                        old(self).lemma_same_slot(k, i, n, index as int);
                    }
                }
            }
            assert(t.owner[id as int] is Live);
            old(self).lemma_pool_kept(self);
        }
    }

    /// A block that is reserved to its end and beyond has a successor.
    proof fn lemma_next_block(&self, number: int)
        requires
            self.inv(),
            0 <= number < self.trace@.ids.len(),
            self.trace@.starts[number + 1] < self.trace@.log.len(),
            self.trace@.pending.contains(self.trace@.starts[number + 1]),
            self.trace@.live(number),
        ensures
            number + 1 < self.trace@.ids.len(),
            self.trace@.live(number + 1),
            self.trace@.ids[number] < self.blocks@.len(),
            self.trace@.ids[number + 1] < self.blocks@.len(),
            self.blocks@[self.trace@.ids[number] as int].link() == Some(
                self.trace@.ids[number + 1],
            ),
            self.blocks@[self.trace@.ids[number + 1] as int].slots().len() == self.trace@.size(
                number + 1,
            ),
            1 <= self.trace@.size(number + 1) <= MAX_BLOCK_LENGTH,
    {
        let t = self.trace@;
        if number >= t.tail_block {
            assert(t.starts[t.tail_block + 1] <= t.starts[number + 1]);
        }
        assert(number < t.tail_block);
        assert(t.starts[number + 1] < t.starts[number + 2]);
        assert(t.at(number + 1, 0) == t.starts[number + 1]);
        self.lemma_pending_block(number + 1, 0);
        assert(self.block_wf(number));
        assert(self.block_wf(number + 1));
    }

    /// Consumers see the same claims and the same head position as before.
    pub open spec fn same_consumers(&self, before: &Self) -> bool {
        &&& self.trace().head_block == before.trace().head_block
        &&& self.trace().head.index == before.trace().head.index
        &&& before.trace().ids.len() > 0 ==> self.trace().head == before.trace().head
        &&& self.trace().claimed == before.trace().claimed
    }

    /// Reserves `len` positions for the values of `items`, with `seen` the
    /// producer head as it was seen last. The caller then writes them one at a
    /// time.
    ///
    /// The first positions are for the values in order, and those for which no
    /// value comes are to be skipped. Values beyond the announced number are
    /// dropped. Others may push and pop meanwhile: the positions are taken.
    pub fn reserve_seen(&mut self, seen: PHead, items: Vec<T>, len: usize) -> (batch: Batch<T>)
        requires
            old(self).wf(),
            old(self).seen_phead(seen),
            old(self).room_for(len as int),
        ensures
            final(self).wf(),
            final(self).follows(old(self)),
            final(self).allocated() <= old(self).allocated() + len + 1,
            final(self).min_block() == old(self).min_block(),
            final(self).pool_size() == old(self).pool_size(),
            final(self).trace().log == old(self).trace().log + announced(items@, len as int),
            final(self).trace().pending == old(self).trace().pending.union(
                span(old(self).tail(), old(self).tail() + len),
            ),
            final(self).same_consumers(old(self)),
            final(self).waiting() == old(self).waiting() + announced(items@, len as int),
            batch.held(final(self)),
            batch.remaining() == len,
            len > 0 ==> batch.start(final(self)) == old(self).tail(),
            batch.values() == announced(items@, len as int),
            if len == 0 {
                &&& final(self).pool() == old(self).pool()
                &&& final(self).trace().lengths() == old(self).trace().lengths()
            } else {
                final(self).grown(old(self), seen, len as int)
            },
    {
        let ghost run = announced(items@, len as int);
        let ghost t = self.trace@;
        let rest = reversed(items);
        if len == 0 {
            proof {
                assert(run =~= Seq::<Option<T>>::empty());
                assert(t.log + run =~= t.log);
                assert(self.waiting() + run =~= self.waiting());
                assert(t.pending.union(span(t.tail_pos(), t.tail_pos())) =~= t.pending);
            }
            return Batch { rest, cursor: PHead::zero(), left: 0, number: Ghost(0) };
        }
        let start = self.reserve_batch(seen, len, Ghost(run));
        let batch = Batch { rest, cursor: start, left: len, number: Ghost(t.tail_block) };
        proof {
            let u = self.trace@;
            assert(u.starts[t.tail_block] == t.starts[t.tail_block]);
            assert(u.starts[t.head_block] == t.starts[t.head_block]);
            assert(t.head_pos() >= 0) by {
                assert(t.starts[0] <= t.starts[t.head_block]);
            }
            assert(batch.values() =~= run);
            assert(self.waiting() =~= old(self).waiting() + run);
        }
        batch
    }

    /// Pushes the values of `items` as one batch, with `len` announced
    /// beforehand and `seen` the producer head as it was seen last.
    ///
    /// Exactly `len` positions are reserved: the first ones get the values in
    /// order, and those for which no value comes are skipped. Values beyond
    /// the announced number are dropped.
    #[verifier::spinoff_prover]
    #[verifier::rlimit(40)]
    pub fn push_batch_seen(&mut self, seen: PHead, items: Vec<T>, len: usize)
        requires
            old(self).wf(),
            old(self).seen_phead(seen),
            old(self).room_for(len as int),
        ensures
            final(self).wf(),
            final(self).follows(old(self)),
            final(self).allocated() <= old(self).allocated() + len + 1,
            final(self).min_block() == old(self).min_block(),
            final(self).pool_size() == old(self).pool_size(),
            final(self).trace().log == old(self).trace().log + announced(items@, len as int),
            final(self).trace().pending == old(self).trace().pending,
            final(self).same_consumers(old(self)),
            final(self).waiting() == old(self).waiting() + announced(items@, len as int),
            if len == 0 {
                &&& final(self).pool() == old(self).pool()
                &&& final(self).trace().lengths() == old(self).trace().lengths()
            } else {
                final(self).grown(old(self), seen, len as int)
            },
    {
        let ghost t = self.trace@;
        let ghost from = self.tail();
        let mut batch = self.reserve_seen(seen, items, len);
        let ghost reserved = *self;
        proof {
            assert(reserved.trace@.pending =~= t.pending.union(span(from, from + len)));
            assert forall|p: int| t.pending.contains(p) implies p < from by {}
        }
        while batch.left > 0
            invariant
                self.wf(),
                batch.held(self),
                0 <= batch.left <= len,
                batch.left > 0 ==> batch.start(self) == from + (len - batch.left),
                self.blocks@.len() == reserved.blocks@.len(),
                self.min_block_size == reserved.min_block_size,
                self.pool() == reserved.pool(),
                self.pool@.len() == reserved.pool@.len(),
                forall|p: int| t.pending.contains(p) ==> p < from,
                self.trace@ == (Trace {
                    pending: t.pending.union(span(from + (len - batch.left), from + len)),
                    ..reserved.trace@
                }),
            decreases batch.left,
        {
            let ghost at = from + (len - batch.left);
            batch.write(self);
            proof {
                assert(t.pending.union(span(at, from + len)).remove(at) =~= t.pending.union(
                    span(at + 1, from + len),
                ));
            }
        }
        proof {
            assert(self.trace@.pending =~= t.pending);
            assert(self.waiting() =~= reserved.waiting());
            assert(self.trace@.lengths() =~= reserved.trace@.lengths());
        }
    }

    /// Pushes the values of `items` as one batch, with `len` announced
    /// beforehand.
    pub fn push_announced(&mut self, items: Vec<T>, len: usize)
        requires
            old(self).wf(),
            old(self).room_for(len as int),
        ensures
            final(self).wf(),
            final(self).follows(old(self)),
            final(self).allocated() <= old(self).allocated() + len + 1,
            final(self).min_block() == old(self).min_block(),
            final(self).pool_size() == old(self).pool_size(),
            final(self).trace().log == old(self).trace().log + announced(items@, len as int),
            final(self).trace().pending == old(self).trace().pending,
            final(self).same_consumers(old(self)),
            final(self).waiting() == old(self).waiting() + announced(items@, len as int),
            if len == 0 {
                &&& final(self).pool() == old(self).pool()
                &&& final(self).trace().lengths() == old(self).trace().lengths()
            } else {
                final(self).grown(old(self), old(self).trace().tail, len as int)
            },
    {
        let seen = self.acquire_phead();
        self.push_batch_seen(seen, items, len);
    }

    /// Pushes values as one batch: no other value comes between them.
    pub fn push_batch(&mut self, items: Vec<T>)
        requires
            old(self).wf(),
            old(self).room_for(items@.len() as int),
        ensures
            final(self).wf(),
            final(self).follows(old(self)),
            final(self).allocated() <= old(self).allocated() + items@.len() + 1,
            final(self).min_block() == old(self).min_block(),
            final(self).pool_size() == old(self).pool_size(),
            final(self).trace().log == old(self).trace().log + items@.map_values(
                |value: T| Some(value),
            ),
            final(self).trace().pending == old(self).trace().pending,
            final(self).same_consumers(old(self)),
            final(self).waiting() == old(self).waiting() + items@.map_values(
                |value: T| Some(value),
            ),
            if items@.len() == 0 {
                &&& final(self).pool() == old(self).pool()
                &&& final(self).trace().lengths() == old(self).trace().lengths()
            } else {
                final(self).grown(old(self), old(self).trace().tail, items@.len() as int)
            },
    {
        let len: usize = items.len();
        assert(announced(items@, len as int) =~= items@.map_values(|value: T| Some(value)));
        self.push_announced(items, len);
    }
}

/// The index of a head after `request` more positions, up to what the field
/// can hold.
pub open spec fn moved_index(index: u16, request: u16) -> u16 {
    if index + request <= u16::MAX {
        (index + request) as u16
    } else {
        u16::MAX
    }
}

/// How a consumer wants to move the head `start` with the producer head at
/// `tail`: up to the producer head if it is in the same block, and not at all
/// if it is at the same slot. Where the producers are in a later block, the
/// new head says so.
pub open spec fn planned(tail: PHead, start: CHead, request: u16) -> Option<CHead> {
    let end = CHead { index: moved_index(start.index, request), ..start };
    if start.has_next {
        Some(end)
    } else if start.ptr != tail.ptr {
        Some(CHead { has_next: true, ..end })
    } else if start.index == tail.index {
        None
    } else if end.index < tail.index {
        Some(end)
    } else {
        Some(CHead { index: tail.index, ..end })
    }
}

/// The positions that a consumer reserved.
struct PopReservation {
    start: CHead,
    end: CHead,
    slots: usize,
}

impl<T> DUBQ<T> {
    /// The block-local plan of a pop.
    pub fn plan_pop_end(&self, start: CHead, request: u16) -> (end: Option<CHead>)
        requires
            self.wf(),
        ensures
            end == planned(self.trace().tail, start, request),
    {
        let index: u16 = if start.index > u16::MAX - request {
            u16::MAX
        } else {
            start.index + request
        };
        let end = CHead { index, ..start };
        if start.has_next {
            return Some(end);
        }
        let phead = self.acquire_phead();
        if start.ptr != phead.ptr {
            Some(CHead { has_next: true, ..end })
        } else if start.index == phead.index {
            None
        } else if end.index < phead.index {
            Some(end)
        } else {
            Some(CHead { index: phead.index, ..end })
        }
    }

    /// A consumer head that may have been seen, now or earlier: one with the
    /// current token has the current pointer.
    pub open spec fn seen_chead(&self, seen: CHead) -> bool {
        &&& seen.valid()
        &&& seen == zero_chead() || (self.trace().ids.len() > 0 && (seen.token
            == self.trace().head.token ==> seen.ptr == self.trace().head.ptr))
    }

    /// The consumer head, after its low word turned out to be `found` and not
    /// that of `obs`. The pointer is still the same if the token is.
    pub fn recover_chead(&self, obs: CHead, found: u64) -> (head: CHead)
        requires
            self.wf(),
            self.trace().ids.len() > 0,
            self.seen_chead(obs),
            obs != zero_chead(),
            found == self.trace().head.narrow(),
        ensures
            head == self.trace().head,
    {
        let low = CHead::from_u64(found);
        proof {
            law_chead_words(self.trace@.head, low);
        }
        if obs.token == low.token {
            CHead { ptr: obs.ptr, ..low }
        } else {
            self.acquire_chead()
        }
    }

    /// Which head is to be moved, and where to: nothing if there is nothing to
    /// reserve. `seen` is the consumer head as it was seen last.
    fn claim_pop_batch(&self, seen: CHead, request: u16) -> (claim: Option<(CHead, CHead)>)
        requires
            self.wf(),
            self.seen_chead(seen),
        ensures
            match claim {
                Some((start, end)) => {
                    &&& self.trace@.ids.len() > 0
                    &&& start == self.trace@.head
                    &&& planned(self.trace@.tail, start, request) == Some(end)
                    &&& !self.gives_up(seen, request)
                },
                None => self.gives_up(seen, request) || self.gives_up(self.trace@.head, request),
            },
    {
        let mut start = seen;
        if start.is_zero() {
            return None;
        }
        loop
            invariant
                self.wf(),
                self.seen_chead(start),
                start != zero_chead(),
                self.trace@.ids.len() > 0,
                start == seen || (start == self.trace@.head && !self.gives_up(seen, request)),
            decreases
                    if start == self.trace@.head {
                        0int
                    } else {
                        1int
                    },
        {
            if start.index >= start.block_length {
                start = self.acquire_chead();
                continue;
            }
            let end = match self.plan_pop_end(start, request) {
                Some(end) => end,
                None => {
                    return None;
                },
            };
            let current = self.acquire_chead();
            let found: u64 = current.pack_u64();
            if found == start.pack_u64() {
                proof {
                    law_chead_words(start, current);
                }
                return Some((start, end));
            }
            start = self.recover_chead(start, found);
        }
    }

    /// A consumer that saw this head reserves nothing.
    pub open spec fn gives_up(&self, seen: CHead, request: u16) -> bool {
        seen == zero_chead() || (seen.index < seen.block_length && planned(
            self.trace().tail,
            seen,
            request,
        ) is None)
    }

    /// Moving the consumer head forward with everything it passes claimed.
    proof fn lemma_advance(&self, after: &Self)
        requires
            self.wf(),
            self.trace@.ids.len() > 0,
            after.blocks == self.blocks,
            after.pool == self.pool,
            after.spare == self.spare,
            after.min_block_size == self.min_block_size,
            after.phead == self.phead,
            after.chead == after.trace@.head.wide(),
            ({
                let t = self.trace@;
                let u = after.trace@;
                &&& u == (Trace {
                    head_block: u.head_block,
                    head: u.head,
                    claimed: t.claimed.union(span(t.head_pos(), u.head_pos())),
                    ..t
                })
                &&& t.head_pos() <= u.head_pos() <= t.tail_pos()
                &&& t.head_block <= u.head_block <= t.tail_block
                &&& u.head.valid()
                &&& u.head.ptr == pointer(t.ids[u.head_block] as int)
                &&& u.head.block_length == t.size(u.head_block)
                &&& u.head.index < u.head.block_length
                &&& u.head.has_next ==> u.head_block < t.tail_block
            }),
        ensures
            after.wf(),
    {
        let t = self.trace@;
        let u = after.trace@;
        assert forall|k: int| #[trigger] u.live(k) == t.live(k) by {}
        assert forall|k: int| u.head_block <= k < u.ids.len() implies #[trigger] u.live(k) by {
            assert(t.live(k));
        }
        assert(t.head_pos() >= 0) by {
            assert(t.starts[0] <= t.starts[t.head_block]);
        }
        assert forall|k: int, i: int|
            0 <= k < u.ids.len() && 0 <= i < u.size(k) && u.claimed.contains(
                #[trigger] u.at(k, i),
            ) implies u.live(k) by {
            let p = t.at(k, i);
            if p >= t.head_pos() {
                if k < t.head_block {
                    assert(t.starts[k + 1] <= t.starts[t.head_block]);
                }
            } else {
                assert(t.claimed.contains(t.at(k, i)));
            }
            assert(t.live(k));
        }
        assert forall|k: int| #[trigger] u.live(k) implies after.block_wf(k) by {
            assert(t.live(k));
            assert(self.block_wf(k));
            assert forall|i: int| 0 <= i < u.size(k) implies #[trigger] after.slot_wf(k, i) by {
                assert(self.slot_wf(k, i));
                assert(u.at(k, i) == t.at(k, i));
                assert(u.unread(t.at(k, i)) == t.unread(t.at(k, i)));
            }
        }
    }

    /// Moves the consumer head past the end of its block, by `request`
    /// positions or up to the producer head.
    fn finish_pop_boundary(&mut self, start: CHead, request: usize) -> (claim: (CHead, usize))
        requires
            old(self).wf(),
            old(self).trace@.ids.len() > 0,
            start == old(self).trace@.head,
            old(self).trace@.head_block < old(self).trace@.tail_block,
            start.index + request >= start.block_length,
        ensures
            final(self).wf(),
            final(self).blocks@ == old(self).blocks@,
            final(self).pool == old(self).pool,
            final(self).min_block_size == old(self).min_block_size,
            ({
                let t = old(self).trace@;
                let u = final(self).trace@;
                &&& claim.0 == u.head
                &&& claim.1 == (if request <= t.tail_pos() - t.head_pos() {
                    request as int
                } else {
                    t.tail_pos() - t.head_pos()
                })
                &&& u.head_pos() == t.head_pos() + claim.1
                &&& u == (Trace {
                    head_block: u.head_block,
                    head: u.head,
                    claimed: t.claimed.union(span(t.head_pos(), u.head_pos())),
                    ..t
                })
            }),
    {
        let ghost t = self.trace@;
        let ghost from = t.head_pos();
        let first: usize = (start.block_length - start.index) as usize;
        let mut remaining: usize = request - first;
        let mut reserved: usize = first;
        let phead = self.acquire_phead();
        let mut cursor = self.await_next_head(start, Ghost(t.head_block));
        let ghost mut number = t.head_block + 1;
        loop
            invariant
                self.wf(),
                *self == *old(self),
                t == self.trace@,
                t.ids.len() > 0,
                from == t.head_pos(),
                phead == t.tail,
                t.head_block < number <= t.tail_block,
                cursor.valid(),
                cursor.ptr == pointer(t.ids[number] as int),
                cursor.block_length == t.size(number),
                cursor.index == 0,
                reserved + remaining == request,
                t.starts[number] == from + reserved,
                t.starts[number] <= t.tail_pos(),
            decreases t.tail_block - number,
        {
            proof {
                assert(t.live(number));
                assert(t.live(t.tail_block));
                assert(self.block_wf(number));
                if cursor.ptr == phead.ptr {
                    assert(t.ids[number] == t.ids[t.tail_block]);
                    assert(t.owner[t.ids[number] as int] == Place::Live(number));
                    assert(number == t.tail_block);
                } else {
                    assert(number < t.tail_block);
                    assert(t.starts[number + 1] <= t.starts[t.tail_block]);
                }
            }
            if cursor.ptr == phead.ptr {
                let take: usize = if remaining < phead.index as usize {
                    remaining
                } else {
                    phead.index as usize
                };
                let end = CHead { index: take as u16, has_next: false, ..cursor };
                self.chead = end.pack_u128();
                self.trace = Ghost(
                    Trace {
                        head_block: number,
                        head: end,
                        claimed: t.claimed.union(span(from, t.at(number, take as int))),
                        ..t
                    },
                );
                proof {
                    old(self).lemma_advance(self);
                }
                return (end, reserved + take);
            }
            let length: usize = cursor.block_length as usize;
            if remaining < length {
                let end = CHead { index: remaining as u16, has_next: true, ..cursor };
                self.chead = end.pack_u128();
                self.trace = Ghost(
                    Trace {
                        head_block: number,
                        head: end,
                        claimed: t.claimed.union(span(from, t.at(number, remaining as int))),
                        ..t
                    },
                );
                proof {
                    old(self).lemma_advance(self);
                }
                return (end, reserved + remaining);
            }
            remaining = remaining - length;
            reserved = reserved + length;
            cursor = self.await_next_head(cursor, Ghost(number));
            proof {
                number = number + 1;
            }
        }
    }

    /// The start of the block behind that of a head.
    fn await_next_head(&self, head: CHead, number: Ghost<int>) -> (next: CHead)
        requires
            self.inv(),
            self.trace@.head_block <= number@ < self.trace@.ids.len() - 1,
            0 <= number@,
            head.valid(),
            head.ptr == pointer(self.trace@.ids[number@] as int),
        ensures
            next.valid(),
            next.ptr == pointer(self.trace@.ids[number@ + 1] as int),
            next.block_length == self.trace@.size(number@ + 1),
            next.index == 0,
            !next.has_next,
    {
        proof {
            assert(self.trace@.live(number@));
            assert(self.trace@.live(number@ + 1));
            assert(self.block_wf(number@));
            assert(self.block_wf(number@ + 1));
        }
        let id: usize = (head.ptr - 1) as usize;
        match self.blocks[id].next() {
            Some(next) => {
                let length: usize = self.blocks[next].len();
                head.with_block(next as u64 + 1, length as u16)
            },
            None => head,
        }
    }

    /// Reserves up to `request` positions. `seen` is the consumer head as it
    /// was seen last.
    fn reserve_pop_batch(&mut self, seen: CHead, request: usize) -> (claim: Option<PopReservation>)
        requires
            old(self).wf(),
            old(self).seen_chead(seen),
        ensures
            final(self).wf(),
            final(self).blocks@ == old(self).blocks@,
            final(self).pool == old(self).pool,
            final(self).min_block_size == old(self).min_block_size,
            ({
                let t = old(self).trace@;
                let u = final(self).trace@;
                match claim {
                    Some(claim) => {
                        &&& t.ids.len() > 0
                        &&& claim.start == t.head
                        &&& claim.end == u.head
                        &&& claim.slots > 0
                        &&& claim.slots == old(self).granted(seen, request)
                        &&& u.head_pos() == t.head_pos() + claim.slots
                        &&& u == (Trace {
                            head_block: u.head_block,
                            head: u.head,
                            claimed: t.claimed.union(span(t.head_pos(), u.head_pos())),
                            ..t
                        })
                    },
                    None => old(self).granted(seen, request) == 0 && u == t,
                }
            }),
    {
        if request == 0 {
            return None;
        }
        let request16: u16 = usize_as_u16_or_max(request);
        let ghost t = self.trace@;
        proof {
            self.lemma_empty(t.head, request16);
        }
        let (start, marker) = match self.claim_pop_batch(seen, request16) {
            Some(claim) => claim,
            None => {
                return None;
            },
        };
        proof {
            assert(t.live(t.head_block));
            assert(t.live(t.tail_block));
            assert(self.block_wf(t.head_block));
            assert(t.head.ptr == t.tail.ptr ==> t.head_block == t.tail_block) by {
                if t.head.ptr == t.tail.ptr {
                    assert(t.owner[t.ids[t.head_block] as int] == Place::Live(t.head_block));
                }
            }
            if t.head_block < t.tail_block {
                assert(t.starts[t.head_block + 1] <= t.starts[t.tail_block]);
            }
        }
        if marker.index >= marker.block_length {
            let (end, slots) = self.finish_pop_boundary(start, request);
            Some(PopReservation { start, end, slots })
        } else {
            self.chead = marker.pack_u128();
            let slots: usize = (marker.index - start.index) as usize;
            self.trace = Ghost(
                Trace {
                    head: marker,
                    claimed: t.claimed.union(span(t.head_pos(), t.head_pos() + slots)),
                    ..t
                },
            );
            proof {
                old(self).lemma_advance(self);
            }
            Some(PopReservation { start, end: marker, slots })
        }
    }

    /// How many positions a pop of `request` gets that saw the consumer head
    /// as `seen`.
    pub open spec fn granted(&self, seen: CHead, request: usize) -> int {
        let short = if request <= u16::MAX {
            request as u16
        } else {
            u16::MAX
        };
        if request == 0 || self.gives_up(seen, short) {
            0
        } else if request <= self.tail() - self.head() {
            request as int
        } else {
            self.tail() - self.head()
        }
    }

    /// With the current head a consumer gives up only where nothing waits.
    proof fn lemma_empty(&self, seen: CHead, request: u16)
        requires
            self.wf(),
            seen == self.trace@.head,
        ensures
            self.gives_up(seen, request) <==> self.head() == self.tail(),
            self.head() <= self.tail(),
    {
        let t = self.trace@;
        if t.ids.len() > 0 {
            assert(t.live(t.head_block));
            assert(t.live(t.tail_block));
            if t.head_block < t.tail_block {
                assert(t.starts[t.head_block + 1] <= t.starts[t.tail_block]);
                assert(t.owner[t.ids[t.head_block] as int] == Place::Live(t.head_block));
                assert(t.ids[t.head_block] != t.ids[t.tail_block]);
            }
        }
    }
}

/// A run of positions that one producer has reserved and has to write.
pub struct Batch<T> {
    /// The values that are not written yet, the last one first.
    rest: Vec<T>,
    cursor: PHead,
    left: usize,
    number: Ghost<int>,
}

impl<T> Batch<T> {
    /// Positions left to write.
    pub closed spec fn remaining(&self) -> int {
        self.left as int
    }

    /// The next position.
    pub closed spec fn start(&self, queue: &DUBQ<T>) -> int {
        queue.trace().at(self.number@, self.cursor.index as int)
    }

    /// What goes to the positions that are left.
    pub closed spec fn values(&self) -> Seq<Option<T>> {
        announced(self.rest@.reverse(), self.left as int)
    }

    /// Every position of the run is reserved in `queue`, for these values, and
    /// none is written.
    pub closed spec fn held(&self, queue: &DUBQ<T>) -> bool {
        let t = queue.trace();
        self.left > 0 ==> {
            &&& 0 <= self.number@ < t.ids.len()
            &&& self.cursor.ptr == pointer(t.ids[self.number@] as int)
            &&& self.cursor.block_length == t.size(self.number@)
            &&& self.cursor.index < self.cursor.block_length
            &&& forall|p: int|
                self.start(queue) <= p < self.start(queue) + self.left
                    ==> #[trigger] t.pending.contains(p)
            &&& forall|p: int|
                self.start(queue) <= p < self.start(queue) + self.left ==> #[trigger] t.log[p]
                    == self.values()[p - self.start(queue)]
        }
    }

    /// Positions left to write.
    pub fn size_hint(&self) -> (left: usize)
        ensures
            left == self.remaining(),
    {
        self.left
    }

    /// Writes the next position, or skips it if no value is left. From here on
    /// a consumer that holds the position can read it.
    #[verifier::rlimit(30)]
    pub fn write(&mut self, queue: &mut DUBQ<T>)
        requires
            old(queue).wf(),
            old(self).held(old(queue)),
            old(self).remaining() > 0,
        ensures
            final(queue).wf(),
            final(queue).follows(old(queue)),
            final(queue).allocated() == old(queue).allocated(),
            final(queue).min_block() == old(queue).min_block(),
            final(queue).pool() == old(queue).pool(),
            final(queue).pool_size() == old(queue).pool_size(),
            final(self).held(final(queue)),
            final(self).remaining() == old(self).remaining() - 1,
            final(self).remaining() > 0 ==> final(self).start(final(queue)) == old(self).start(
                old(queue),
            ) + 1,
            final(self).values() == old(self).values().skip(1),
            final(queue).trace() == (Trace {
                pending: old(queue).trace().pending.remove(old(self).start(old(queue))),
                ..old(queue).trace()
            }),
    {
        let ghost t = queue.trace@;
        let ghost number = self.number@;
        let ghost p = self.start(queue);
        let ghost all = self.rest@.reverse();
        let ghost values = self.values();
        let cursor = self.cursor;
        let id: usize = (cursor.ptr - 1) as usize;
        proof {
            assert(t.ids[number] < t.owner.len());
            assert(t.pending.contains(p));
            assert(t.log[p] == values[0]);
            queue.lemma_pending_block(number, cursor.index as int);
        }
        let moved = PHead { index: cursor.index + 1, ..cursor };
        self.left = self.left - 1;
        self.cursor = moved;
        if self.left > 0 && moved.index >= moved.block_length {
            proof {
                assert(t.pending.contains(p + 1));
                assert(t.starts[number + 1] == p + 1);
                queue.lemma_next_block(number);
            }
            if let Some(next) = queue.blocks[id].next() {
                let length: usize = queue.blocks[next].len();
                self.cursor = moved.with_block(next as u64 + 1, length as u16);
                self.number = Ghost(number + 1);
            }
        }
        let value = self.rest.pop();
        proof {
            let after = self.rest@.reverse();
            if all.len() > 0 {
                assert(value == Some(all[0]));
                assert(after =~= all.skip(1));
            } else {
                assert(after =~= all);
            }
            assert(self.values() =~= values.skip(1));
        }
        queue.fill_one(id, cursor.index as usize, Ghost(number), value);
        proof {
            assert forall|q: int|
                self.left > 0 && self.start(queue) <= q < self.start(queue) + self.left implies (
            #[trigger] queue.trace@.pending.contains(q)) by {
                assert(t.pending.contains(q));
            }
            assert forall|q: int|
                self.left > 0 && self.start(queue) <= q < self.start(queue)
                    + self.left implies #[trigger] queue.trace@.log[q] == self.values()[q
                - self.start(queue)] by {
                assert(t.log[q] == values[q - p]);
            }
        }
    }

    /// A run stays reserved, with the same positions, as long as blocks and
    /// positions are only added and its own positions are not written.
    pub proof fn lemma_held_kept(&self, before: &DUBQ<T>, after: &DUBQ<T>)
        requires
            self.held(before),
            before.wf(),
            after.extends(before),
            before.trace().log.is_prefix_of(after.trace().log),
            forall|p: int|
                self.start(before) <= p < self.start(before) + self.remaining()
                    ==> #[trigger] after.trace().pending.contains(p),
        ensures
            self.held(after),
            self.remaining() > 0 ==> self.start(after) == self.start(before),
    {
        let t = before.trace();
        let u = after.trace();
        if self.left > 0 {
            assert(u.starts[self.number@] == t.starts[self.number@]);
            assert(u.starts[self.number@ + 1] == t.starts[self.number@ + 1]);
            assert forall|p: int|
                self.start(before) <= p < self.start(before) + self.left implies (
            #[trigger] after.trace@.log[p]) == self.values()[p - self.start(before)] by {
                assert(before.trace@.pending.contains(p));
                assert(before.trace@.log[p] == self.values()[p - self.start(before)]);
            }
        }
    }
}

/// One state that can come after another can come after all that the other can
/// come after.
pub proof fn law_histories_join<T>(first: &DUBQ<T>, second: &DUBQ<T>, third: &DUBQ<T>)
    requires
        second.follows(first),
        third.follows(second),
    ensures
        third.follows(first),
{
    let t = first.trace();
    let u = second.trace();
    let v = third.trace();
    assert forall|i: int| 0 <= i < t.log.len() implies t.log[i] == v.log[i] by {
        assert(u.log[i] == t.log[i]);
    }
    assert forall|i: int| 0 <= i < t.ids.len() implies t.ids[i] == v.ids[i] by {
        assert(u.ids[i] == t.ids[i]);
    }
    assert forall|i: int| 0 <= i < t.starts.len() implies t.starts[i] == v.starts[i] by {
        assert(u.starts[i] == t.starts[i]);
    }
    assert forall|p: int|
        0 <= p < t.log.len() && !t.pending.contains(p) implies !#[trigger] v.pending.contains(
        p,
    ) by {
        assert(!u.pending.contains(p));
    }
    assert forall|p: int|
        p < first.head() && !t.claimed.contains(p) implies !#[trigger] v.claimed.contains(p) by {
        assert(!u.claimed.contains(p));
    }
}

/// Whatever producers and consumers do meanwhile, the consumer that holds a
/// position reads what was pushed there.
pub proof fn law_a_position_keeps_its_value<T>(
    pushed: &DUBQ<T>,
    later: &DUBQ<T>,
    iter: &DUBQIter,
    p: int,
)
    requires
        later.wf(),
        later.follows(pushed),
        iter.reserved(later),
        0 <= p < pushed.trace().log.len(),
        iter.first(later) <= p < iter.first(later) + iter.remaining(),
    ensures
        iter.run(later)[p - iter.first(later)] == pushed.trace().log[p],
{
    iter.lemma_exhausted(later);
    assert(later.trace().log[p] == pushed.trace().log[p]);
}

/// A position that was read is in no consumer's hands ever after.
pub proof fn law_a_position_is_read_once<T>(
    read: &DUBQ<T>,
    later: &DUBQ<T>,
    iter: &DUBQIter,
    p: int,
)
    requires
        p < read.head(),
        !read.trace().claimed.contains(p),
        later.follows(read),
        iter.reserved(later),
    ensures
        !(iter.first(later) <= p < iter.first(later) + iter.remaining()),
{
    assert(!later.trace().claimed.contains(p));
}

/// A uniquely owned run of reserved positions.
pub struct DUBQIter {
    start: CHead,
    end: CHead,
    left: usize,
    /// The block numbers of the two heads.
    number: Ghost<int>,
    goal: Ghost<int>,
}

impl<T> DUBQ<T> {
    /// Reserves up to `request` positions, with `seen` the consumer head as it
    /// was seen last.
    pub fn pop_batch_seen(&mut self, seen: CHead, request: usize) -> (iter: DUBQIter)
        requires
            old(self).wf(),
            old(self).seen_chead(seen),
        ensures
            final(self).wf(),
            final(self).allocated() == old(self).allocated(),
            final(self).min_block() == old(self).min_block(),
            final(self).pool_size() == old(self).pool_size(),
            final(self).pool() == old(self).pool(),
            final(self).trace().lengths() == old(self).trace().lengths(),
            final(self).follows(old(self)),
            iter.reserved(final(self)),
            iter.remaining() == old(self).granted(seen, request),
            iter.remaining() > 0 ==> iter.first(final(self)) == old(self).head(),
            final(self).head() == old(self).head() + iter.remaining(),
            final(self).tail() == old(self).tail(),
            final(self).trace().log == old(self).trace().log,
            final(self).trace().pending == old(self).trace().pending,
            final(self).trace().claimed == old(self).trace().claimed.union(
                span(old(self).head(), old(self).head() + iter.remaining()),
            ),
            final(self).waiting() == old(self).waiting().skip(iter.remaining()),
    {
        let ghost t = self.trace@;
        proof {
            self.lemma_empty(t.head, 0);
            if t.ids.len() > 0 {
                assert(t.starts[0] <= t.starts[t.head_block]);
            }
        }
        match self.reserve_pop_batch(seen, request) {
            None => {
                proof {
                    assert(t.claimed.union(span(t.head_pos(), t.head_pos())) =~= t.claimed);
                    assert(self.waiting() =~= old(self).waiting().skip(0));
                }
                DUBQIter::empty()
            },
            Some(claim) => {
                let iter = DUBQIter {
                    start: claim.start,
                    end: claim.end,
                    left: claim.slots,
                    number: Ghost(t.head_block),
                    goal: Ghost(self.trace@.head_block),
                };
                proof {
                    let u = self.trace@;
                    assert forall|k: int| t.head_block <= k < u.head_block implies #[trigger] u.ids[k]
                        != u.ids[u.head_block] by {
                        assert(t.live(k));
                        assert(t.live(u.head_block));
                        assert(t.owner[t.ids[k] as int] == Place::Live(k));
                    }
                    if u.head_block < t.head_block {
                        assert(t.starts[u.head_block + 1] <= t.starts[t.head_block]);
                    }
                    assert(self.waiting() =~= old(self).waiting().skip(iter.remaining()));
                }
                iter
            },
        }
    }

    /// Reserves up to `request` positions from the front of the queue.
    pub fn pop_batch(&mut self, request: usize) -> (iter: DUBQIter)
        requires
            old(self).wf(),
        ensures
            final(self).wf(),
            final(self).allocated() == old(self).allocated(),
            final(self).min_block() == old(self).min_block(),
            final(self).pool_size() == old(self).pool_size(),
            final(self).pool() == old(self).pool(),
            final(self).trace().lengths() == old(self).trace().lengths(),
            final(self).follows(old(self)),
            iter.reserved(final(self)),
            iter.remaining() == (if request <= old(self).waiting().len() {
                request as int
            } else {
                old(self).waiting().len() as int
            }),
            iter.remaining() > 0 ==> iter.first(final(self)) == old(self).head(),
            final(self).head() == old(self).head() + iter.remaining(),
            final(self).trace().log == old(self).trace().log,
            final(self).trace().pending == old(self).trace().pending,
            final(self).trace().claimed == old(self).trace().claimed.union(
                span(old(self).head(), old(self).head() + iter.remaining()),
            ),
            final(self).waiting() == old(self).waiting().skip(iter.remaining()),
            iter.run(final(self)) == old(self).waiting().take(iter.remaining()),
    {
        let seen = self.acquire_chead();
        proof {
            let t = self.trace@;
            self.lemma_empty(
                seen,
                if request <= u16::MAX {
                    request as u16
                } else {
                    u16::MAX
                },
            );
            if t.ids.len() > 0 {
                assert(t.starts[0] <= t.starts[t.head_block]);
            }
            assert(self.waiting().len() == self.tail() - self.head());
        }
        let iter = self.pop_batch_seen(seen, request);
        assert(iter.run(self) =~= old(self).waiting().take(iter.remaining()));
        iter
    }

    /// A claimed position is in a live block and reserved.
    proof fn lemma_claimed_slot(&self, k: int, i: int)
        requires
            self.wf(),
            0 <= k < self.trace@.ids.len(),
            0 <= i < self.trace@.size(k),
            self.trace@.claimed.contains(self.trace@.at(k, i)),
        ensures
            self.trace@.live(k),
            self.block_wf(k),
            self.slot_wf(k, i),
            0 <= self.trace@.at(k, i) < self.trace@.log.len(),
            self.trace@.at(k, i) < self.trace@.head_pos(),
    {
        assert(self.trace@.claimed.contains(self.trace@.at(k, i)));
        assert(self.trace@.live(k));
        assert(self.block_wf(k));
        assert(self.slot_wf(k, i));
    }

    /// Reading one claimed position changes nothing else in a live block.
    proof fn lemma_consume_block(&self, after: &Self, k: int, index: int, m: int)
        requires
            self.wf(),
            0 <= k < self.trace@.ids.len(),
            0 <= index < self.trace@.size(k),
            self.trace@.claimed.contains(self.trace@.at(k, index)),
            !self.trace@.pending.contains(self.trace@.at(k, index)),
            self.trace@.live(m),
            after.trace@ == (Trace {
                owner: after.trace@.owner,
                claimed: self.trace@.claimed.remove(self.trace@.at(k, index)),
                ..self.trace@
            }),
            m != k ==> after.blocks@[self.trace@.ids[m] as int]
                == self.blocks@[self.trace@.ids[m] as int],
            m == k ==> {
                let b = self.blocks@[self.trace@.ids[k] as int];
                let c = after.blocks@[self.trace@.ids[k] as int];
                &&& c.wf()
                &&& c.link() == b.link()
                &&& c.flags() == b.flags().update(index, true)
                &&& exists|i: int| 0 <= i < b.flags().len() && !#[trigger] c.flags()[i]
                &&& c.slots().len() == b.slots().len()
                &&& forall|i: int|
                    0 <= i < b.slots().len() && i != index ==> #[trigger] c.slots()[i]
                        == b.slots()[i]
                &&& c.slots()[index].holds(None)
            },
        ensures
            after.block_wf(m),
    {
        let t = self.trace@;
        let u = after.trace@;
        let p = t.at(k, index);
        self.lemma_claimed_slot(k, index);
        assert(self.block_wf(m));
        if m == k {
            let c = after.blocks@[t.ids[k] as int];
            let free = choose|i: int|
                0 <= i < self.blocks@[t.ids[k] as int].flags().len() && !#[trigger] c.flags()[i];
            assert(!c.flags()[free]);
        }
        assert forall|i: int| 0 <= i < u.size(m) implies #[trigger] after.slot_wf(m, i) by {
            assert(self.slot_wf(m, i));
            assert(u.at(m, i) == t.at(m, i));
            if t.at(m, i) == p {
                self.lemma_same_slot(m, i, k, index);
            }
        }
    }

    /// Reading a position of a block that is not finished by it.
    proof fn lemma_consume(&self, after: &Self, k: int, index: int)
        requires
            self.wf(),
            0 <= k < self.trace@.ids.len(),
            0 <= index < self.trace@.size(k),
            self.trace@.claimed.contains(self.trace@.at(k, index)),
            !self.trace@.pending.contains(self.trace@.at(k, index)),
            after.phead == self.phead,
            after.chead == self.chead,
            after.pool == self.pool,
            after.spare == self.spare,
            after.min_block_size == self.min_block_size,
            after.trace@ == (Trace {
                claimed: self.trace@.claimed.remove(self.trace@.at(k, index)),
                ..self.trace@
            }),
            after.blocks@.len() == self.blocks@.len(),
            forall|other: int|
                0 <= other < self.blocks@.len() && other != self.trace@.ids[k]
                    ==> #[trigger] after.blocks@[other] == self.blocks@[other],
            ({
                let b = self.blocks@[self.trace@.ids[k] as int];
                let c = after.blocks@[self.trace@.ids[k] as int];
                &&& c.wf()
                &&& c.link() == b.link()
                &&& c.flags() == b.flags().update(index, true)
                &&& exists|i: int| 0 <= i < b.flags().len() && !#[trigger] c.flags()[i]
                &&& c.slots().len() == b.slots().len()
                &&& forall|i: int|
                    0 <= i < b.slots().len() && i != index ==> #[trigger] c.slots()[i]
                        == b.slots()[i]
                &&& c.slots()[index].holds(None)
            }),
        ensures
            after.wf(),
    {
        let t = self.trace@;
        let u = after.trace@;
        self.lemma_claimed_slot(k, index);
        assert(t.owner[t.ids[k] as int] is Live);
        assert(after.arena_wf()) by {
            assert forall|id: int| 0 <= id < u.owner.len() implies match #[trigger] u.owner[id] {
                Place::Live(k) => 0 <= k < u.ids.len() && u.ids[k] == id,
                Place::Loose => after.blocks@[id].blank() && after.blocks@[id].link() is None,
                Place::Chain => after.blocks@[id].blank(),
                Place::Pool(j) => {
                    &&& 0 <= j < after.pool@.len()
                    &&& after.pool@[j] == Some(id as usize)
                    &&& after.blocks@[id].blank()
                    &&& after.blocks@[id].link() is None
                },
                Place::Spare => true,
            } by {
                assert(u.owner[id] == t.owner[id]);
            }
        }
        assert forall|m: int| #[trigger] u.live(m) == t.live(m) by {}
        assert forall|m: int| u.head_block <= m < u.ids.len() implies #[trigger] u.live(m) by {
            assert(t.live(m));
        }
        assert forall|m: int, i: int|
            0 <= m < u.ids.len() && 0 <= i < u.size(m) && u.claimed.contains(
                #[trigger] u.at(m, i),
            ) implies u.live(m) by {
            assert(t.claimed.contains(t.at(m, i)));
            assert(t.live(m));
        }
        assert forall|m: int| #[trigger] u.live(m) implies after.block_wf(m) by {
            assert(t.live(m));
            if m != k {
                assert(t.owner[t.ids[m] as int] == Place::Live(m));
                assert(t.ids[m] != t.ids[k]);
            }
            self.lemma_consume_block(after, k, index, m);
        }
    }

    /// Reading the last unread position of a block and unlinking the block.
    proof fn lemma_detach(&self, after: &Self, k: int, index: int)
        requires
            self.wf(),
            0 <= k < self.trace@.ids.len(),
            0 <= index < self.trace@.size(k),
            self.trace@.claimed.contains(self.trace@.at(k, index)),
            !self.trace@.pending.contains(self.trace@.at(k, index)),
            after.phead == self.phead,
            after.chead == self.chead,
            after.pool == self.pool,
            after.spare == self.spare,
            after.min_block_size == self.min_block_size,
            after.trace@ == (Trace {
                owner: self.trace@.owner.update(self.trace@.ids[k] as int, Place::Loose),
                claimed: self.trace@.claimed.remove(self.trace@.at(k, index)),
                ..self.trace@
            }),
            after.blocks@.len() == self.blocks@.len(),
            forall|other: int|
                0 <= other < self.blocks@.len() && other != self.trace@.ids[k]
                    ==> #[trigger] after.blocks@[other] == self.blocks@[other],
            after.blocks@[self.trace@.ids[k] as int].blank(),
            after.blocks@[self.trace@.ids[k] as int].link() is None,
            forall|i: int|
                0 <= i < self.trace@.size(k) && i != index
                    ==> #[trigger] self.blocks@[self.trace@.ids[k] as int].flags()[i],
        ensures
            after.wf(),
    {
        let t = self.trace@;
        let u = after.trace@;
        let id = t.ids[k] as int;
        self.lemma_claimed_slot(k, index);
        assert(t.owner[id] == Place::Live(k));
        // Every position of the block has been read, so the head is past it.
        assert forall|i: int| 0 <= i < t.size(k) && i != index implies #[trigger] t.at(k, i)
            < t.head_pos() && !t.claimed.contains(t.at(k, i)) by {
            assert(self.slot_wf(k, i));
            assert(self.blocks@[id].flags()[i]);
        }
        assert(k < t.head_block) by {
            if k == t.head_block {
                let i = t.head.index as int;
                if i != index {
                    assert(t.at(k, i) < t.head_pos());
                }
            } else if k > t.head_block {
                assert(t.starts[t.head_block + 1] <= t.starts[k]);
            }
        }
        assert forall|m: int| #[trigger] u.live(m) <==> (t.live(m) && m != k) by {
            if 0 <= m < t.ids.len() {
                assert(t.ids[m] == id || u.owner[t.ids[m] as int] == t.owner[t.ids[m] as int]);
            }
        }
        assert(after.arena_wf()) by {
            assert forall|x: int| 0 <= x < u.owner.len() implies match #[trigger] u.owner[x] {
                Place::Live(m) => 0 <= m < u.ids.len() && u.ids[m] == x,
                Place::Loose => after.blocks@[x].blank() && after.blocks@[x].link() is None,
                Place::Chain => after.blocks@[x].blank(),
                Place::Pool(j) => {
                    &&& 0 <= j < after.pool@.len()
                    &&& after.pool@[j] == Some(x as usize)
                    &&& after.blocks@[x].blank()
                    &&& after.blocks@[x].link() is None
                },
                Place::Spare => true,
            } by {
                assert(x == id || u.owner[x] == t.owner[x]);
            }
            assert forall|j: int| 0 <= j < after.pool@.len() implies match (
            #[trigger] after.pool@[j]) {
                Some(x) => x < u.owner.len() && u.owner[x as int] == Place::Pool(j),
                None => true,
            } by {
                if let Some(x) = self.pool@[j] {
                    assert(t.owner[x as int] == Place::Pool(j));
                }
            }
            assert forall|j: int| 0 <= j < after.spare@.len() implies (#[trigger] after.spare@[j])
                < u.owner.len() && u.owner[after.spare@[j] as int] == Place::Spare by {
                assert(t.owner[self.spare@[j] as int] == Place::Spare);
            }
        }
        assert forall|m: int| u.head_block <= m < u.ids.len() implies #[trigger] u.live(m) by {
            assert(t.live(m));
        }
        assert forall|m: int, i: int|
            0 <= m < u.ids.len() && 0 <= i < u.size(m) && u.claimed.contains(
                #[trigger] u.at(m, i),
            ) implies u.live(m) by {
            assert(t.claimed.contains(t.at(m, i)));
            assert(t.live(m));
            if m == k {
                assert(i != index);
                assert(t.at(k, i) < t.head_pos());
            }
        }
        assert forall|m: int| #[trigger] u.live(m) implies after.block_wf(m) by {
            assert(t.live(m) && m != k);
            assert(t.owner[t.ids[m] as int] == Place::Live(m));
            assert(t.ids[m] != t.ids[k]);
            self.lemma_consume_block(after, k, index, m);
        }
    }

    /// Puts a block into the first free place of the pool, and tells whether
    /// there was one.
    fn give_to_pool(&mut self, id: usize) -> (kept: bool)
        requires
            old(self).inv(),
            id < old(self).trace@.owner.len(),
            old(self).trace@.owner[id as int] is Loose,
        ensures
            final(self).inv(),
            final(self).same_live(old(self)),
            final(self).blocks@ == old(self).blocks@,
            kept == exists|j: int|
                0 <= j < old(self).pool@.len() && #[trigger] old(self).pool@[j] is None,
            !kept ==> *final(self) == *old(self),
            final(self).pool() == given(
                old(self).pool(),
                old(self).blocks@[id as int].slots().len() as int,
            ),
    {
        let mut j: usize = 0;
        while j < self.pool.len()
            invariant
                *self == *old(self),
                self.inv(),
                id < self.trace@.owner.len(),
                self.trace@.owner[id as int] is Loose,
                j <= self.pool@.len(),
                forall|i: int| 0 <= i < j ==> #[trigger] self.pool@[i] is Some,
            decreases self.pool@.len() - j,
        {
            if self.pool[j].is_none() {
                let ghost t = self.trace@;
                self.pool.set(j, Some(id));
                let ghost owner = t.owner.update(id as int, Place::Pool(j as int));
                self.trace = Ghost(Trace { owner, ..t });
                proof {
                    assert(old(self).pool@[j as int] is None);
                    assert forall|x: int| 0 <= x < owner.len() implies match #[trigger] owner[x] {
                        Place::Live(k) => 0 <= k < t.ids.len() && t.ids[k] == x,
                        Place::Loose => self.blocks@[x].blank() && self.blocks@[x].link() is None,
                        Place::Chain => self.blocks@[x].blank(),
                        Place::Pool(i) => {
                            &&& 0 <= i < self.pool@.len()
                            &&& self.pool@[i] == Some(x as usize)
                            &&& self.blocks@[x].blank()
                            &&& self.blocks@[x].link() is None
                        },
                        Place::Spare => true,
                    } by {
                        assert(x == id || owner[x] == t.owner[x]);
                    }
                    assert forall|i: int| 0 <= i < self.pool@.len() implies match (
                    #[trigger] self.pool@[i]) {
                        Some(x) => x < owner.len() && owner[x as int] == Place::Pool(i),
                        None => true,
                    } by {
                        if i != j {
                            assert(self.pool@[i] == old(self).pool@[i]);
                        }
                    }
                    assert(self.arena_wf());
                    self.lemma_same_live(old(self));
                    let pool = old(self).pool();
                    assert forall|i: int| 0 <= i < j implies #[trigger] pool[i] is Some by {
                        assert(old(self).pool@[i] is Some);
                    }
                    lemma_first_free(pool, j as int);
                    assert(self.pool() =~= pool.update(
                        j as int,
                        Some(self.blocks@[id as int].slots().len() as int),
                    ));
                }
                return true;
            }
            j = j + 1;
        }
        proof {
            let pool = self.pool();
            assert forall|i: int| 0 <= i < j implies #[trigger] pool[i] is Some by {
                assert(self.pool@[i] is Some);
            }
            lemma_first_free(pool, j as int);
        }
        false
    }

    /// Takes a claimed position out of its slot. The last one of a block
    /// unlinks the block: it goes to the pool, or is dropped if the pool is
    /// full.
    fn complete(&mut self, id: usize, index: usize, number: Ghost<int>) -> (value: Option<T>)
        requires
            old(self).wf(),
            0 <= number@ < old(self).trace@.ids.len(),
            id == old(self).trace@.ids[number@],
            index < old(self).trace@.size(number@),
            old(self).trace@.claimed.contains(old(self).trace@.at(number@, index as int)),
            !old(self).trace@.pending.contains(old(self).trace@.at(number@, index as int)),
        ensures
            final(self).wf(),
            final(self).blocks@.len() == old(self).blocks@.len(),
            final(self).min_block_size == old(self).min_block_size,
            final(self).pool@.len() == old(self).pool@.len(),
            ({
                let t = old(self).trace@;
                let p = t.at(number@, index as int);
                &&& 0 <= p < t.log.len()
                &&& value == t.log[p]
                &&& final(self).trace@ == (Trace {
                    owner: final(self).trace@.owner,
                    claimed: t.claimed.remove(p),
                    ..t
                })
                &&& final(self).pool() == (if final(self).trace@.is_finished(number@) {
                    given(old(self).pool(), t.size(number@))
                } else {
                    old(self).pool()
                })
            }),
    {
        let ghost t = self.trace@;
        let ghost k = number@;
        let ghost p = t.at(k, index as int);
        proof {
            self.lemma_claimed_slot(k, index as int);
            assert(self.blocks@[id as int].slots()[index as int].holds(t.log[p]));
        }
        let ghost b = self.blocks@[id as int];
        let (value, last) = self.blocks[id].take(index);
        proof {
            b.slots()[index as int].lemma_holds(value, t.log[p]);
        }
        if last {
            self.blocks[id].reset();
            self.trace = Ghost(
                Trace {
                    owner: t.owner.update(id as int, Place::Loose),
                    claimed: t.claimed.remove(p),
                    ..t
                },
            );
            proof {
                old(self).lemma_detach(self, k, index as int);
                assert(t.owner[id as int] is Live);
                old(self).lemma_pool_kept(self);
                assert(self.trace@.is_finished(k)) by {
                    assert forall|i: int| 0 <= i < t.size(k) implies !#[trigger] self.trace@.unread(
                        self.trace@.at(k, i),
                    ) by {
                        assert(old(self).slot_wf(k, i));
                    }
                }
            }
            let ghost between = *self;
            let kept = self.give_to_pool(id);
            assert(between.trace@.is_finished(k) ==> self.trace@.is_finished(k)) by {
                lemma_finished_same(between.trace@, self.trace@, k);
            }
            if !kept {
                let ghost full = *self;
                self.discard(id);
                proof {
                    full.lemma_pool_kept(self);
                    lemma_finished_same(full.trace@, self.trace@, k);
                }
            }
        } else {
            self.trace = Ghost(Trace { claimed: t.claimed.remove(p), ..t });
            proof {
                let c = self.blocks@[id as int];
                let free = choose|i: int|
                    0 <= i < b.slots().len() && i != index && !#[trigger] b.flags()[i];
                assert(!c.flags()[free]);
                old(self).lemma_consume(self, k, index as int);
                assert(t.owner[id as int] is Live);
                old(self).lemma_pool_kept(self);
                assert(old(self).slot_wf(k, free));
                assert(self.trace@.unread(self.trace@.at(k, free)));
            }
        }
        value
    }
}

impl DUBQIter {
    /// Positions left to read.
    pub closed spec fn remaining(&self) -> int {
        self.left as int
    }

    /// The next position.
    pub closed spec fn first<T>(&self, queue: &DUBQ<T>) -> int {
        queue.trace().at(self.number@, self.start.index as int)
    }

    /// Every position of the run is claimed in `queue` and still unread, and
    /// the two heads enclose the run.
    pub closed spec fn reserved<T>(&self, queue: &DUBQ<T>) -> bool {
        let t = queue.trace();
        if self.left == 0 {
            self.start.ptr == self.end.ptr && self.start.index == self.end.index
        } else {
            &&& 0 <= self.number@ <= self.goal@ < t.ids.len()
            &&& self.start.valid()
            &&& self.start.ptr == pointer(t.ids[self.number@] as int)
            &&& self.start.block_length == t.size(self.number@)
            &&& self.start.index < self.start.block_length
            &&& self.end.ptr == pointer(t.ids[self.goal@] as int)
            &&& self.end.index < t.size(self.goal@)
            &&& t.at(self.goal@, self.end.index as int) == self.first(queue) + self.left
            &&& forall|k: int|
                self.number@ <= k < self.goal@ ==> #[trigger] t.ids[k] != t.ids[self.goal@]
            &&& forall|p: int|
                self.first(queue) <= p < self.first(queue) + self.left
                    ==> #[trigger] t.claimed.contains(p)
        }
    }

    /// What the run holds, in order.
    pub open spec fn run<T>(&self, queue: &DUBQ<T>) -> Seq<Option<T>> {
        if self.remaining() == 0 {
            Seq::empty()
        } else {
            queue.trace().log.subrange(
                self.first(queue),
                self.first(queue) + self.remaining(),
            )
        }
    }

    fn empty() -> (iter: Self)
        ensures
            iter.left == 0,
            iter.start == zero_chead(),
            iter.end == zero_chead(),
    {
        DUBQIter {
            start: CHead::zero(),
            end: CHead::zero(),
            left: 0,
            number: Ghost(0),
            goal: Ghost(0),
        }
    }

    /// The most values that can still come.
    pub fn size_hint(&self) -> (most: usize)
        ensures
            most == self.remaining(),
    {
        self.left
    }

    /// Reads one position of the run: its value, or nothing if it was skipped.
    fn step<T>(&mut self, queue: &mut DUBQ<T>) -> (value: Option<T>)
        requires
            old(queue).wf(),
            old(self).reserved(old(queue)),
            old(self).left > 0,
            !old(queue).trace().pending.contains(old(self).first(old(queue))),
        ensures
            final(queue).wf(),
            final(queue).follows(old(queue)),
            final(queue).allocated() == old(queue).allocated(),
            final(queue).min_block() == old(queue).min_block(),
            final(queue).pool() == recycled(
                old(queue).pool(),
                old(queue).trace(),
                final(queue).trace(),
                old(queue).trace().ids.len() as int,
            ),
            final(queue).pool_size() == old(queue).pool_size(),
            final(self).reserved(final(queue)),
            final(self).remaining() == old(self).remaining() - 1,
            final(self).remaining() > 0 ==> final(self).first(final(queue)) == old(self).first(
                old(queue),
            ) + 1,
            ({
                let p = old(self).first(old(queue));
                &&& 0 <= p < old(queue).trace().log.len()
                &&& value == old(queue).trace().log[p]
                &&& final(queue).trace() == (Trace {
                    owner: final(queue).trace().owner,
                    claimed: old(queue).trace().claimed.remove(p),
                    ..old(queue).trace()
                })
            }),
    {
        let ghost t = queue.trace@;
        let ghost number = self.number@;
        let ghost first = self.first(queue);
        let id: usize = (self.start.ptr - 1) as usize;
        let index: u16 = self.start.index;
        proof {
            assert(t.claimed.contains(t.at(number, index as int)));
            queue.lemma_claimed_slot(number, index as int);
        }
        let next: Option<usize> = queue.blocks[id].next();
        let left: usize = self.left - 1;
        let moved = CHead { index: index + 1, ..self.start };
        if left != 0 && moved.index >= moved.block_length {
            proof {
                if number == self.goal@ {
                    assert(false);
                }
                assert(t.starts[number + 1] == first + 1);
                assert(t.claimed.contains(t.at(number + 1, 0)));
                assert(t.starts[number + 1] < t.starts[number + 2]);
                queue.lemma_claimed_slot(number + 1, 0);
            }
            match next {
                Some(next) => {
                    let length: usize = queue.blocks[next].len();
                    self.start = moved.with_block(next as u64 + 1, length as u16);
                    self.number = Ghost(number + 1);
                },
                None => {},
            }
        } else {
            self.start = moved;
        }
        self.left = left;
        if left == 0 {
            self.start = self.end;
        }
        let value = queue.complete(id, index as usize, Ghost(number));
        proof {
            lemma_recycled_one(
                old(queue).pool(),
                t,
                queue.trace@,
                number,
                first,
                t.ids.len() as int,
            );
        }
        value
    }

    /// The two heads are at the same slot only when nothing is left.
    proof fn lemma_exhausted<T>(&self, queue: &DUBQ<T>)
        requires
            queue.wf(),
            self.reserved(queue),
        ensures
            (self.start.ptr == self.end.ptr && self.start.index == self.end.index) == (self.left
                == 0),
            self.left > 0 ==> 0 <= self.first(queue) && self.first(queue) + self.left
                <= queue.trace().log.len() && self.first(queue) + self.left
                <= queue.trace().head_pos(),
    {
        let t = queue.trace@;
        if self.left > 0 {
            assert(t.ids[self.number@] < t.owner.len());
            assert(t.ids[self.goal@] < t.owner.len());
            assert(t.claimed.contains(self.first(queue)));
            assert(t.claimed.contains(self.first(queue) + self.left - 1));
        }
    }

    /// Every position of the run has been written or skipped.
    pub open spec fn settled<T>(&self, queue: &DUBQ<T>) -> bool {
        forall|p: int|
            self.first(queue) <= p < self.first(queue) + self.remaining()
                ==> !#[trigger] queue.trace().pending.contains(p)
    }

    /// Whether the next position has been written or skipped.
    fn is_ready<T>(&self, queue: &DUBQ<T>) -> (ready: bool)
        requires
            queue.wf(),
            self.reserved(queue),
            self.left > 0,
        ensures
            ready == !queue.trace().pending.contains(self.first(queue)),
    {
        let id: usize = (self.start.ptr - 1) as usize;
        proof {
            let t = queue.trace@;
            let i = self.start.index as int;
            assert(t.claimed.contains(t.at(self.number@, i)));
            queue.lemma_claimed_slot(self.number@, i);
            let slot = queue.blocks@[id as int].slots()[i];
            if !t.pending.contains(t.at(self.number@, i)) {
                slot.lemma_not_fresh(t.log[t.at(self.number@, i)]);
            }
        }
        !queue.blocks[id].is_fresh(self.start.index as usize)
    }

    /// Reads the next value of the run, passing over skipped positions, unless
    /// it has to wait for a producer.
    #[verifier::spinoff_prover]
    #[verifier::rlimit(30)]
    pub fn try_next<T>(&mut self, queue: &mut DUBQ<T>) -> (outcome: TryNext<T>)
        requires
            old(queue).wf(),
            old(self).reserved(old(queue)),
        ensures
            final(queue).wf(),
            final(queue).follows(old(queue)),
            final(queue).allocated() == old(queue).allocated(),
            final(queue).min_block() == old(queue).min_block(),
            final(queue).pool() == recycled(
                old(queue).pool(),
                old(queue).trace(),
                final(queue).trace(),
                old(queue).trace().ids.len() as int,
            ),
            final(queue).pool_size() == old(queue).pool_size(),
            final(self).reserved(final(queue)),
            ({
                let run = old(self).run(old(queue));
                let from = old(self).first(old(queue));
                let passed = old(self).remaining() - final(self).remaining();
                let pending = old(queue).trace().pending;
                &&& 0 <= passed <= old(self).remaining()
                &&& final(self).remaining() > 0 ==> final(self).first(final(queue)) == from
                    + passed
                &&& forall|p: int|
                    from <= p < from + passed ==> !#[trigger] pending.contains(p)
                &&& match outcome {
                    TryNext::Value(value) => {
                        &&& passed > 0
                        &&& run[passed - 1] == Some(value)
                        &&& forall|i: int| 0 <= i < passed - 1 ==> #[trigger] run[i] is None
                    },
                    TryNext::Wait => {
                        &&& passed < old(self).remaining()
                        &&& pending.contains(from + passed)
                        &&& forall|i: int| 0 <= i < passed ==> #[trigger] run[i] is None
                    },
                    TryNext::End => {
                        &&& passed == old(self).remaining()
                        &&& forall|i: int| 0 <= i < passed ==> #[trigger] run[i] is None
                    },
                }
                &&& final(queue).trace() == (Trace {
                    owner: final(queue).trace().owner,
                    claimed: old(queue).trace().claimed.difference(span(from, from + passed)),
                    ..old(queue).trace()
                })
            }),
    {
        let ghost from = self.first(queue);
        let ghost count = self.left as int;
        let ghost t = queue.trace@;
        let ghost run = self.run(queue);
        proof {
            self.lemma_exhausted(queue);
            lemma_recycled_none(queue.pool(), t, t.ids.len() as int);
            assert(t.claimed.difference(span(from, from)) =~= t.claimed);
        }
        while !self.start.full_addr_eq(&self.end)
            invariant
                queue.wf(),
                queue.allocated() == old(queue).allocated(),
                queue.min_block() == old(queue).min_block(),
                queue.pool() == recycled(
                    old(queue).pool(),
                    t,
                    queue.trace(),
                    t.ids.len() as int,
                ),
                queue.pool_size() == old(queue).pool_size(),
                self.reserved(queue),
                (self.start.ptr == self.end.ptr && self.start.index == self.end.index) == (
                self.left == 0),
                0 <= self.left <= count,
                count == old(self).remaining(),
                from == old(self).first(old(queue)),
                self.left > 0 ==> self.first(queue) == from + (count - self.left),
                t == old(queue).trace(),
                run == old(self).run(old(queue)),
                count > 0 ==> 0 <= from && from + count <= t.log.len() && run == t.log.subrange(
                    from,
                    from + count,
                ),
                forall|i: int| 0 <= i < count - self.left ==> #[trigger] run[i] is None,
                forall|p: int|
                    from <= p < from + (count - self.left) ==> !#[trigger] t.pending.contains(p),
                queue.trace() == (Trace {
                    owner: queue.trace().owner,
                    claimed: t.claimed.difference(span(from, from + (count - self.left))),
                    ..t
                }),
            decreases self.left,
        {
            let ghost done = count - self.left;
            if !self.is_ready(queue) {
                return TryNext::Wait;
            }
            let ghost middle = queue.trace();
            let ghost block = self.number@;
            let value = self.step(queue);
            proof {
                lemma_recycled_join(
                    old(queue).pool(),
                    t,
                    middle,
                    queue.trace(),
                    from,
                    block,
                    from + done,
                    t.ids.len() as int,
                );
                lemma_recycled_one(
                    recycled(old(queue).pool(), t, middle, t.ids.len() as int),
                    middle,
                    queue.trace(),
                    block,
                    from + done,
                    t.ids.len() as int,
                );
                assert(t.claimed.difference(span(from, from + done)).remove(from + done)
                    =~= t.claimed.difference(span(from, from + done + 1)));
                assert(run[done] == value);
                self.lemma_exhausted(queue);
            }
            if let Some(value) = value {
                return TryNext::Value(value);
            }
        }
        TryNext::End
    }

    /// Reads the next value of the run, passing over skipped positions.
    pub fn next<T>(&mut self, queue: &mut DUBQ<T>) -> (value: Option<T>)
        requires
            old(queue).wf(),
            old(self).reserved(old(queue)),
            old(self).settled(old(queue)),
        ensures
            final(queue).wf(),
            final(queue).follows(old(queue)),
            final(queue).allocated() == old(queue).allocated(),
            final(queue).min_block() == old(queue).min_block(),
            final(queue).pool() == recycled(
                old(queue).pool(),
                old(queue).trace(),
                final(queue).trace(),
                old(queue).trace().ids.len() as int,
            ),
            final(queue).pool_size() == old(queue).pool_size(),
            final(self).reserved(final(queue)),
            final(self).remaining() > 0 ==> final(self).settled(final(queue)),
            ({
                let run = old(self).run(old(queue));
                let from = old(self).first(old(queue));
                let passed = old(self).remaining() - final(self).remaining();
                &&& 0 <= passed <= old(self).remaining()
                &&& final(self).remaining() > 0 ==> final(self).first(final(queue)) == from
                    + passed
                &&& match value {
                    Some(value) => {
                        &&& passed > 0
                        &&& run[passed - 1] == Some(value)
                        &&& forall|i: int| 0 <= i < passed - 1 ==> #[trigger] run[i] is None
                    },
                    None => {
                        &&& passed == old(self).remaining()
                        &&& forall|i: int| 0 <= i < passed ==> #[trigger] run[i] is None
                    },
                }
                &&& final(queue).trace() == (Trace {
                    owner: final(queue).trace().owner,
                    claimed: old(queue).trace().claimed.difference(span(from, from + passed)),
                    ..old(queue).trace()
                })
            }),
    {
        match self.try_next(queue) {
            TryNext::Value(value) => Some(value),
            _ => None,
        }
    }

    /// Reads the whole run into `values`.
    #[verifier::spinoff_prover]
    #[verifier::rlimit(30)]
    pub fn append_to_vec<T>(self, queue: &mut DUBQ<T>, values: &mut Vec<T>)
        requires
            old(queue).wf(),
            self.reserved(old(queue)),
            self.settled(old(queue)),
        ensures
            final(queue).wf(),
            final(queue).follows(old(queue)),
            final(queue).allocated() == old(queue).allocated(),
            final(queue).min_block() == old(queue).min_block(),
            final(queue).pool() == recycled(
                old(queue).pool(),
                old(queue).trace(),
                final(queue).trace(),
                old(queue).trace().ids.len() as int,
            ),
            final(queue).pool_size() == old(queue).pool_size(),
            final(values)@ == old(values)@ + present(self.run(old(queue))),
            final(queue).trace() == (Trace {
                owner: final(queue).trace().owner,
                claimed: old(queue).trace().claimed.difference(
                    span(
                        self.first(old(queue)),
                        self.first(old(queue)) + self.remaining(),
                    ),
                ),
                ..old(queue).trace()
            }),
    {
        let mut iter = self;
        let ghost from = self.first(queue);
        let ghost count = self.left as int;
        let ghost t = queue.trace@;
        let ghost run = self.run(queue);
        proof {
            self.lemma_exhausted(queue);
            lemma_recycled_none(queue.pool(), t, t.ids.len() as int);
            assert(t.claimed.difference(span(from, from)) =~= t.claimed);
            assert(run.skip(0) =~= run);
        }
        while iter.left != 0
            invariant
                queue.wf(),
                queue.allocated() == old(queue).allocated(),
                queue.min_block() == old(queue).min_block(),
                queue.pool() == recycled(
                    old(queue).pool(),
                    t,
                    queue.trace(),
                    t.ids.len() as int,
                ),
                queue.pool_size() == old(queue).pool_size(),
                iter.reserved(queue),
                0 <= iter.left <= count,
                run.len() == count,
                iter.left > 0 ==> iter.first(queue) == from + (count - iter.left),
                forall|p: int|
                    from <= p < from + count ==> !#[trigger] t.pending.contains(p),
                count > 0 ==> 0 <= from && from + count <= t.log.len() && run == t.log.subrange(
                    from,
                    from + count,
                ),
                values@ + present(run.skip(count - iter.left)) == old(values)@ + present(run),
                t == old(queue).trace(),
                queue.trace() == (Trace {
                    owner: queue.trace().owner,
                    claimed: t.claimed.difference(span(from, from + (count - iter.left))),
                    ..t
                }),
            decreases iter.left,
        {
            let ghost done = count - iter.left;
            let ghost rest = run.skip(done);
            let ghost before = values@;
            let ghost middle = queue.trace();
            let ghost block = iter.number@;
            let value = iter.step(queue);
            proof {
                assert(middle.claimed.contains(from + done));
                lemma_recycled_join(
                    old(queue).pool(),
                    t,
                    middle,
                    queue.trace(),
                    from,
                    block,
                    from + done,
                    t.ids.len() as int,
                );
                lemma_recycled_one(
                    recycled(old(queue).pool(), t, middle, t.ids.len() as int),
                    middle,
                    queue.trace(),
                    block,
                    from + done,
                    t.ids.len() as int,
                );
                assert(t.claimed.difference(span(from, from + done)).remove(from + done)
                    =~= t.claimed.difference(span(from, from + done + 1)));
                assert(rest.first() == value);
                assert(rest.drop_first() =~= run.skip(done + 1));
            }
            if let Some(value) = value {
                values.push(value);
                proof {
                    let later = present(run.skip(done + 1));
                    assert(before + (seq![value] + later) =~= before.push(value) + later);
                }
            }
        }
        proof {
            assert(run.skip(count) =~= Seq::<Option<T>>::empty());
            assert(values@ + Seq::<T>::empty() =~= values@);
        }
    }

    /// Gives up the rest of the run: its values are read and dropped.
    pub fn finish<T>(self, queue: &mut DUBQ<T>)
        requires
            old(queue).wf(),
            self.reserved(old(queue)),
            self.settled(old(queue)),
        ensures
            final(queue).wf(),
            final(queue).follows(old(queue)),
            final(queue).allocated() == old(queue).allocated(),
            final(queue).min_block() == old(queue).min_block(),
            final(queue).pool() == recycled(
                old(queue).pool(),
                old(queue).trace(),
                final(queue).trace(),
                old(queue).trace().ids.len() as int,
            ),
            final(queue).pool_size() == old(queue).pool_size(),
            final(queue).trace() == (Trace {
                owner: final(queue).trace().owner,
                claimed: old(queue).trace().claimed.difference(
                    span(
                        self.first(old(queue)),
                        self.first(old(queue)) + self.remaining(),
                    ),
                ),
                ..old(queue).trace()
            }),
    {
        let mut values: Vec<T> = Vec::new();
        self.append_to_vec(queue, &mut values);
    }

    /// A run stays valid, with the same positions, as long as blocks are only
    /// added and its positions stay claimed.
    #[verifier::spinoff_prover]
    #[verifier::rlimit(40)]
    pub proof fn lemma_reserved_kept<T>(&self, before: &DUBQ<T>, after: &DUBQ<T>)
        requires
            before.wf(),
            self.reserved(before),
            after.extends(before),
            forall|p: int|
                self.first(before) <= p < self.first(before) + self.remaining()
                    ==> #[trigger] after.trace().claimed.contains(p),
        ensures
            self.reserved(after),
            self.remaining() > 0 ==> self.first(after) == self.first(before),
    {
        let t = before.trace();
        let u = after.trace();
        if self.left > 0 {
            assert(u.starts[self.number@] == t.starts[self.number@]);
            assert(u.starts[self.number@ + 1] == t.starts[self.number@ + 1]);
            assert(u.starts[self.goal@] == t.starts[self.goal@]);
            assert(u.starts[self.goal@ + 1] == t.starts[self.goal@ + 1]);
            assert(u.ids[self.goal@] == t.ids[self.goal@]);
            assert forall|k: int| self.number@ <= k < self.goal@ implies #[trigger] u.ids[k]
                != u.ids[self.goal@] by {
                assert(u.ids[k] == t.ids[k]);
            }
        }
    }
}

} // verus!
