//! A queue on a ring of small blocks.
//!
//! The ring holds the blocks from the consumers' block up to the producers'
//! block, and behind those the blocks that consumers have left. Producers that
//! claim the last slot of their block move on to the next one in the ring if it
//! is read to the end, and insert a new block otherwise.
//!
//! A push claims a slot and then commits a value to it; a pop claims a slot and
//! then reads it. Any number of claims may be open at a time, and their steps
//! may come in any order. A block counts the claims and the commits of its
//! producers; only where the counts agree, or all slots are committed, do
//! consumers claim slots.
use vstd::prelude::*;

use crate::packed::{high, law_merge, low, merge, spec_low, spec_merge, spec_stab, stab, L};
use crate::queue::{count, lemma_count_bound, lemma_count_set};

verus! {

/// The counter value of a block that consumers must not enter yet.
pub const CLOSED: u32 = 0xffff_ffff;

/// One block: its slots, its producer and consumer counters and its successor.
pub struct B<T> {
    a: Vec<Option<T>>,
    p: u32,
    c: u32,
    n: Option<usize>,
    /// The position of the first slot.
    start: Ghost<int>,
    /// The slots that have been committed.
    written: Ghost<Seq<bool>>,
    /// The slots that have been read.
    done: Ghost<Seq<bool>>,
}

/// The history behind a queue's words and blocks.
pub struct Ring<T> {
    /// Arena blocks from the consumers' block on, once around.
    pub blocks: Seq<usize>,
    /// Every value for which a slot was claimed, by position.
    pub log: Seq<T>,
    /// The position that consumers claim next.
    pub head: int,
    /// Slots of the first block that consumers have claimed.
    pub read: int,
    /// Positions that are claimed by producers and not committed.
    pub pending: Set<int>,
    /// Positions that are claimed by consumers and not read.
    pub claimed: Set<int>,
}

/// The shared state of a queue.
pub struct I<T> {
    blocks: Vec<B<T>>,
    /// Arena blocks that are not part of the ring.
    free: Vec<usize>,
    /// The block that accepts pushes.
    p: Option<usize>,
    /// The block that is being drained.
    c: Option<usize>,
    /// One less than the number of handles.
    n: usize,
    ring: Ghost<Ring<T>>,
}

impl<T> Ring<T> {
    /// The position of the first slot of the consumers' block.
    pub open spec fn origin(&self) -> int {
        self.head - self.read
    }

    /// Slots used from the start of the first block on.
    pub open spec fn used(&self) -> int {
        self.log.len() - self.origin()
    }

    /// Which block of the ring producers are in.
    pub open spec fn last(&self) -> int {
        self.used() / 32
    }

    /// Slots of block `k` that producers have claimed.
    pub open spec fn taken(&self, k: int) -> int {
        if self.used() >= 32 * (k + 1) {
            32
        } else if self.used() <= 32 * k {
            0
        } else {
            self.used() - 32 * k
        }
    }

    /// A position has been committed.
    pub open spec fn is_written(&self, q: int) -> bool {
        q < self.log.len() && !self.pending.contains(q)
    }

    /// A position has been read.
    pub open spec fn is_read(&self, q: int) -> bool {
        q < self.head && !self.claimed.contains(q)
    }
}

/// Flags that are set below `n` only: at most `n` of them are, and if it is
/// `n`, all are.
proof fn lemma_count_below(flags: Seq<bool>, n: int)
    requires
        0 <= n <= flags.len(),
        forall|i: int| 0 <= i < flags.len() && #[trigger] flags[i] ==> i < n,
    ensures
        count(flags) <= n,
        count(flags) == n <==> forall|i: int| 0 <= i < n ==> flags[i],
    decreases flags.len(),
{
    if n == flags.len() {
        lemma_count_bound(flags);
    } else {
        let rest = flags.drop_last();
        assert(!flags.last());
        assert forall|i: int| 0 <= i < rest.len() && #[trigger] rest[i] implies i < n by {
            assert(flags[i]);
        }
        lemma_count_below(rest, n);
        assert(forall|i: int| 0 <= i < n ==> rest[i] == flags[i]);
    }
}

/// Where the counter of a block is stable, every slot below the number of
/// commits has been committed, and no claim is open.
pub proof fn law_a_stable_block_is_written(written: Seq<bool>, taken: int)
    requires
        written.len() == L,
        0 <= taken <= L,
        forall|i: int| 0 <= i < L && #[trigger] written[i] ==> i < taken,
        spec_stab(spec_merge(taken as u16, count(written) as u16)),
    ensures
        spec_low(spec_merge(taken as u16, count(written) as u16)) == taken,
        forall|i: int| 0 <= i < taken ==> written[i],
{
    lemma_count_below(written, taken);
    law_merge(taken as u16, count(written) as u16);
}

/// Distinct blocks of an arena are no more than the arena.
proof fn lemma_ring_fits(blocks: Seq<usize>, arena: int)
    requires
        blocks.no_duplicates(),
        forall|k: int| 0 <= k < blocks.len() ==> (#[trigger] blocks[k]) < arena,
        0 <= arena,
    ensures
        blocks.len() <= arena,
    decreases arena,
{
    if arena == 0 {
        if blocks.len() > 0 {
            assert(blocks[0] < 0);
        }
    } else {
        let top = (arena - 1) as usize;
        if blocks.contains(top) {
            let x = blocks.index_of(top);
            let rest = blocks.remove(x);
            assert forall|k: int| 0 <= k < rest.len() implies (#[trigger] rest[k]) < arena - 1 by {
                let y = if k < x {
                    k
                } else {
                    k + 1
                };
                assert(rest[k] == blocks[y]);
                assert(blocks[y] != blocks[x]);
            }
            assert(rest.no_duplicates()) by {
                assert forall|i: int, j: int|
                    0 <= i < rest.len() && 0 <= j < rest.len() && i != j implies rest[i]
                    != rest[j] by {
                    let y = if i < x {
                        i
                    } else {
                        i + 1
                    };
                    let z = if j < x {
                        j
                    } else {
                        j + 1
                    };
                    assert(rest[i] == blocks[y] && rest[j] == blocks[z]);
                }
            }
            lemma_ring_fits(rest, arena - 1);
        } else {
            assert forall|k: int| 0 <= k < blocks.len() implies (#[trigger] blocks[k]) < arena
                - 1 by {
                assert(blocks.contains(blocks[k]));
            }
            lemma_ring_fits(blocks, arena - 1);
        }
    }
}

impl<T> B<T> {
    /// The slots agree with the history.
    spec fn agrees(&self, r: Ring<T>) -> bool {
        &&& self.a@.len() == 32
        &&& self.written@.len() == 32
        &&& self.done@.len() == 32
        &&& 0 <= self.start@
        &&& forall|i: int|
            0 <= i < 32 ==> #[trigger] self.written@[i] == r.is_written(self.start@ + i)
        &&& forall|i: int| 0 <= i < 32 ==> #[trigger] self.done@[i] == r.is_read(self.start@ + i)
        &&& forall|i: int|
            0 <= i < 32 ==> #[trigger] self.a@[i] == (if r.is_written(self.start@ + i)
                && !r.is_read(self.start@ + i) {
                Some(r.log[self.start@ + i])
            } else {
                None
            })
    }

    /// The slots are empty.
    spec fn vacant(&self) -> bool {
        &&& self.a@.len() == 32
        &&& forall|i: int| 0 <= i < 32 ==> #[trigger] self.a@[i] is None
    }
}

impl<T> I<T> {
    pub closed spec fn ring(&self) -> Ring<T> {
        self.ring@
    }

    /// The values that no consumer has claimed, oldest first.
    pub open spec fn waiting(&self) -> Seq<T> {
        self.ring().log.skip(self.ring().head)
    }

    /// Blocks in the ring.
    pub open spec fn blocks(&self) -> nat {
        self.ring().blocks.len()
    }

    pub closed spec fn handles(&self) -> int {
        self.n as int
    }

    /// The position of the first slot of block `k` of the ring.
    pub closed spec fn start_at(&self, k: int) -> int {
        self.blocks@[self.ring@.blocks[k] as int].start@
    }

    /// Slots of the consumers' block that are committed.
    pub closed spec fn committed(&self) -> int {
        count(self.blocks@[self.ring@.blocks[0] as int].written@) as int
    }

    /// Slots of the consumers' block that are read.
    pub closed spec fn finished(&self) -> int {
        count(self.blocks@[self.ring@.blocks[0] as int].done@) as int
    }

    /// No claim is open.
    pub open spec fn quiet(&self) -> bool {
        &&& self.ring().pending == Set::<int>::empty()
        &&& self.ring().claimed == Set::<int>::empty()
    }

    /// No producer has an open claim in the consumers' block.
    pub open spec fn front_is_stable(&self) -> bool {
        forall|q: int| #[trigger]
            self.ring().pending.contains(q) ==> q >= self.ring().origin() + 32
    }

    /// The block behind the producers' block is read to the end.
    pub open spec fn can_recycle(&self) -> bool {
        let m = self.ring().last();
        &&& m + 1 < self.blocks()
        &&& forall|q: int|
            self.start_at(m + 1) <= q < self.start_at(m + 1) + 32
                ==> !#[trigger] self.ring().claimed.contains(q)
    }

    /// This state can come after `before`: values are only added, what was
    /// committed stays committed, and what was read is never claimed again.
    pub open spec fn follows(&self, before: &Self) -> bool {
        let r = before.ring();
        let u = self.ring();
        &&& self.handles() == before.handles()
        &&& r.log.is_prefix_of(u.log)
        &&& r.head <= u.head
        &&& forall|q: int| 0 <= q && r.is_written(q) ==> #[trigger] u.is_written(q)
        &&& forall|q: int| r.is_read(q) ==> #[trigger] u.is_read(q)
    }

    /// A claim on a position is open.
    pub open spec fn is_open(&self, q: int) -> bool {
        self.ring().pending.contains(q) || self.ring().claimed.contains(q)
    }

    /// The blocks on which claims are open are where they were.
    pub closed spec fn keeps_claims(&self, before: &Self) -> bool {
        forall|id: usize, q: int|
            #![trigger before.ring@.blocks.contains(id), self.is_open(q)]
            before.ring@.blocks.contains(id) && self.is_open(q)
                && before.blocks@[id as int].start@ <= q < before.blocks@[id as int].start@ + 32
                ==> {
                &&& self.ring@.blocks.contains(id)
                &&& id < self.blocks@.len()
                &&& self.blocks@[id as int].start@ == before.blocks@[id as int].start@
            }
    }

    /// The successor of block `k`.
    spec fn successor(&self, k: int) -> Option<usize> {
        let r = self.ring@;
        if r.blocks.len() == 1 {
            None
        } else if k + 1 < r.blocks.len() {
            Some(r.blocks[k + 1])
        } else {
            Some(r.blocks[0])
        }
    }

    /// Block `k` of the ring.
    spec fn block_wf(&self, k: int) -> bool {
        let r = self.ring@;
        let b = self.blocks@[r.blocks[k] as int];
        &&& b.agrees(r)
        &&& b.n == self.successor(k)
        &&& if k <= r.last() {
            &&& b.start@ == r.origin() + 32 * k
            &&& b.p == spec_merge(r.taken(k) as u16, count(b.written@) as u16)
        } else {
            &&& b.start@ + 32 <= r.origin()
            &&& forall|j: int|
                r.last() < j < k ==> #[trigger] self.blocks@[r.blocks[j] as int].start@ + 32
                    <= b.start@
            &&& b.p == spec_merge(32, 32)
        }
        &&& b.c == (if k == 0 {
            spec_merge(r.read as u16, count(b.done@) as u16)
        } else if k <= r.last() {
            CLOSED
        } else {
            spec_merge(32, count(b.done@) as u16)
        })
    }

    spec fn free_wf(&self) -> bool {
        &&& self.free@.no_duplicates()
        &&& forall|j: int|
            0 <= j < self.free@.len() ==> (#[trigger] self.free@[j]) < self.blocks@.len()
                && !self.ring@.blocks.contains(self.free@[j])
                && self.blocks@[self.free@[j] as int].vacant()
    }

    pub closed spec fn wf(&self) -> bool {
        let r = self.ring@;
        &&& r.blocks.no_duplicates()
        &&& forall|k: int|
            0 <= k < r.blocks.len() ==> (#[trigger] r.blocks[k]) < self.blocks@.len()
        &&& self.free_wf()
        &&& 0 <= r.head <= r.log.len()
        &&& forall|q: int| #[trigger] r.pending.contains(q) ==> r.head <= q < r.log.len()
        &&& forall|q: int| #[trigger] r.claimed.contains(q) ==> 0 <= q < r.head
        &&& 0 <= r.origin()
        &&& if r.blocks.len() == 0 {
            &&& self.p is None
            &&& self.c is None
            &&& r.read == 0
            &&& r.head == r.log.len()
            &&& r.claimed =~= Set::empty()
        } else {
            &&& 0 <= r.read < 32
            &&& r.last() < r.blocks.len()
            &&& self.c == Some(r.blocks[0])
            &&& self.p == Some(r.blocks[r.last()])
            &&& forall|k: int| 0 <= k < r.blocks.len() ==> #[trigger] self.block_wf(k)
        }
    }

    /// An empty queue with one handle and no block.
    pub fn new() -> (queue: Self)
        ensures
            queue.wf(),
            queue.quiet(),
            queue.ring().log == Seq::<T>::empty(),
            queue.waiting() == Seq::<T>::empty(),
            queue.blocks() == 0,
            queue.handles() == 0,
    {
        let queue = I {
            blocks: Vec::new(),
            free: Vec::new(),
            p: None,
            c: None,
            n: 0,
            ring: Ghost(
                Ring {
                    blocks: Seq::empty(),
                    log: Seq::empty(),
                    head: 0,
                    read: 0,
                    pending: Set::empty(),
                    claimed: Set::empty(),
                },
            ),
        };
        assert(queue.waiting() =~= Seq::<T>::empty());
        queue
    }

    /// Number of handles.
    pub fn copies(&self) -> (copies: usize)
        ensures
            copies == (if self.handles() == usize::MAX {
                0
            } else {
                self.handles() + 1
            }),
    {
        self.n.wrapping_add(1)
    }

    /// What the counters of a block say.
    proof fn lemma_counts(&self, k: int)
        requires
            self.wf(),
            0 <= k < self.ring@.blocks.len(),
        ensures
            self.block_wf(k),
            ({
                let r = self.ring@;
                let b = self.blocks@[r.blocks[k] as int];
                &&& count(b.written@) <= 32
                &&& count(b.done@) <= 32
                &&& 0 <= r.taken(k) <= 32
                &&& k <= r.last() ==> {
                    &&& forall|i: int|
                        0 <= i < 32 && #[trigger] b.written@[i] ==> i < r.taken(k)
                    &&& count(b.written@) <= r.taken(k)
                    &&& crate::packed::spec_high(b.p) == r.taken(k)
                    &&& spec_low(b.p) == count(b.written@)
                }
                &&& k == 0 ==> {
                    &&& forall|i: int| 0 <= i < 32 && #[trigger] b.done@[i] ==> i < r.read
                    &&& count(b.done@) <= r.read
                    &&& crate::packed::spec_high(b.c) == r.read
                    &&& spec_low(b.c) == count(b.done@)
                }
                &&& k > r.last() ==> {
                    &&& crate::packed::spec_high(b.c) == 32
                    &&& spec_low(b.c) == count(b.done@)
                }
            }),
    {
        let r = self.ring@;
        let b = self.blocks@[r.blocks[k] as int];
        assert(self.block_wf(k));
        lemma_count_bound(b.written@);
        lemma_count_bound(b.done@);
        law_merge(r.taken(k) as u16, count(b.written@) as u16);
        law_merge(r.read as u16, count(b.done@) as u16);
        law_merge(32, count(b.done@) as u16);
        if k <= r.last() {
            assert forall|i: int| 0 <= i < 32 && #[trigger] b.written@[i] implies i < r.taken(
                k,
            ) by {}
            lemma_count_below(b.written@, r.taken(k));
        }
        if k == 0 {
            assert forall|i: int| 0 <= i < 32 && #[trigger] b.done@[i] implies i < r.read by {}
            lemma_count_below(b.done@, r.read);
        }
    }

    /// Whether the producers and the consumers are in one block, with as many
    /// commits as reads. Where no claim is open, that is when no value waits.
    pub fn is_empty(&self) -> (empty: bool)
        requires
            self.wf(),
        ensures
            empty == (self.blocks() == 0 || (self.ring().last() == 0 && self.committed()
                == self.finished())),
            self.quiet() ==> empty == (self.waiting().len() == 0),
    {
        match (self.p, self.c) {
            (Some(p), Some(c)) => {
                proof {
                    let r = self.ring@;
                    let b = self.blocks@[r.blocks[0] as int];
                    self.lemma_counts(0);
                    if p == c {
                        assert(r.blocks[r.last()] == r.blocks[0]);
                    }
                    if self.quiet() {
                        assert forall|i: int| 0 <= i < r.taken(0) implies b.written@[i] by {}
                        assert forall|i: int| 0 <= i < r.read implies b.done@[i] by {}
                        lemma_count_below(b.written@, r.taken(0));
                        lemma_count_below(b.done@, r.read);
                    }
                }
                if p != c {
                    return false;
                }
                low(self.blocks[p].p) == low(self.blocks[p].c)
            },
            _ => true,
        }
    }

    /// A block that is not part of the ring, with empty slots.
    fn take_free(&mut self) -> (id: usize)
        requires
            old(self).wf(),
        ensures
            final(self).wf(),
            final(self).ring == old(self).ring,
            final(self).p == old(self).p,
            final(self).c == old(self).c,
            final(self).n == old(self).n,
            final(self).blocks@.len() >= old(self).blocks@.len(),
            forall|x: int|
                0 <= x < old(self).blocks@.len() ==> #[trigger] final(self).blocks@[x] == old(
                    self,
                ).blocks@[x],
            id < final(self).blocks@.len(),
            !final(self).ring@.blocks.contains(id),
            !final(self).free@.contains(id),
            final(self).blocks@[id as int].vacant(),
    {
        match self.free.pop() {
            Some(id) => {
                proof {
                    let n = old(self).free@.len() - 1;
                    assert(old(self).free@[n as int] == id);
                    assert forall|j: int| 0 <= j < self.free@.len() implies self.free@[j] == old(
                        self,
                    ).free@[j] by {}
                    assert forall|k: int|
                        0 <= k < self.ring@.blocks.len() implies #[trigger] self.block_wf(k) by {
                        assert(old(self).block_wf(k));
                    }
                }
                id
            },
            None => {
                let mut a: Vec<Option<T>> = Vec::new();
                let mut filled: usize = 0;
                while filled < 32
                    invariant
                        filled <= 32,
                        a@.len() == filled,
                        forall|i: int| 0 <= i < filled ==> #[trigger] a@[i] is None,
                    decreases 32 - filled,
                {
                    a.push(None);
                    filled = filled + 1;
                }
                let id: usize = self.blocks.len();
                let block = B {
                    a,
                    p: 0,
                    c: 0,
                    n: None,
                    start: Ghost(0),
                    written: Ghost(Seq::empty()),
                    done: Ghost(Seq::empty()),
                };
                self.blocks.push(block);
                proof {
                    assert forall|k: int|
                        0 <= k < self.ring@.blocks.len() implies #[trigger] self.block_wf(k) by {
                        assert(old(self).block_wf(k));
                        assert(self.ring@.blocks[k] < old(self).blocks@.len());
                    }
                    assert(self.free@ == old(self).free@);
                }
                id
            },
        }
    }

    /// Makes a block that is not part of the ring the state of a new one at
    /// `start`.
    fn renew(&mut self, id: usize, consumers: u32, next: Option<usize>, start: Ghost<int>)
        requires
            id < old(self).blocks@.len(),
        ensures
            final(self).ring == old(self).ring,
            final(self).p == old(self).p,
            final(self).c == old(self).c,
            final(self).n == old(self).n,
            final(self).free == old(self).free,
            final(self).blocks@.len() == old(self).blocks@.len(),
            forall|x: int|
                0 <= x < old(self).blocks@.len() && x != id ==> #[trigger] final(self).blocks@[x]
                    == old(self).blocks@[x],
            final(self).blocks@[id as int] == (B {
                a: old(self).blocks@[id as int].a,
                p: 0u32,
                c: consumers,
                n: next,
                start,
                written: Ghost(Seq::new(32, |i: int| false)),
                done: Ghost(Seq::new(32, |i: int| false)),
            }),
    {
        self.blocks[id].p = 0;
        self.blocks[id].c = consumers;
        self.blocks[id].n = next;
        self.blocks[id].start = start;
        self.blocks[id].written = Ghost(Seq::new(32, |i: int| false));
        self.blocks[id].done = Ghost(Seq::new(32, |i: int| false));
    }

    /// A new block behind all positions agrees with the history.
    proof fn lemma_new_agrees(b: B<T>, r: Ring<T>)
        requires
            b.vacant(),
            b.written@ == Seq::new(32, |i: int| false),
            b.done@ == Seq::new(32, |i: int| false),
            0 <= r.head <= r.log.len() <= b.start@,
        ensures
            b.agrees(r),
            count(b.written@) == 0,
            count(b.done@) == 0,
    {
        lemma_count_bound(b.written@);
        lemma_count_bound(b.done@);
    }

    /// Installs the first block as the block of both sides.
    fn attach_first(&mut self)
        requires
            old(self).wf(),
            old(self).ring@.blocks.len() == 0,
        ensures
            final(self).wf(),
            final(self).n == old(self).n,
            final(self).ring@.blocks.len() == 1,
            final(self).ring@ == (Ring { blocks: final(self).ring@.blocks, ..old(self).ring@ }),
    {
        let id: usize = self.take_free();
        let ghost r = self.ring@;
        self.renew(id, 0, None, Ghost(r.head));
        self.p = Some(id);
        self.c = Some(id);
        self.ring = Ghost(Ring { blocks: seq![id], ..r });
        proof {
            law_merge(0, 0);
            Self::lemma_new_agrees(self.blocks@[id as int], self.ring@);
            assert(self.block_wf(0));
        }
    }

    /// A claim of a producer does not change what the slots hold.
    proof fn lemma_agrees_claim(b: B<T>, r: Ring<T>, u: Ring<T>, e: T)
        requires
            b.agrees(r),
            u == (Ring {
                blocks: u.blocks,
                log: r.log.push(e),
                pending: r.pending.insert(r.log.len() as int),
                ..r
            }),
        ensures
            b.agrees(u),
    {
        assert forall|q: int| u.is_written(q) == #[trigger] r.is_written(q) by {}
        assert forall|q: int| u.is_read(q) == #[trigger] r.is_read(q) by {}
        assert forall|i: int| 0 <= i < 32 implies #[trigger] b.written@[i] == u.is_written(
            b.start@ + i,
        ) by {
            assert(r.is_written(b.start@ + i) == b.written@[i]);
        }
        assert forall|i: int| 0 <= i < 32 implies #[trigger] b.done@[i] == u.is_read(
            b.start@ + i,
        ) by {
            assert(r.is_read(b.start@ + i) == b.done@[i]);
        }
    }

    /// Claims the next slot for a value, which the caller then commits.
    ///
    /// The claim of the last slot of a block moves producers on: into the next
    /// block of the ring if that is read to the end, and into a new block
    /// otherwise. Others may push and pop meanwhile: the slot is taken.
    pub fn claim(&mut self, e: T) -> (claim: PushClaim<T>)
        requires
            old(self).wf(),
        ensures
            final(self).wf(),
            final(self).follows(old(self)),
            final(self).keeps_claims(old(self)),
            final(self).ring() == (Ring {
                blocks: final(self).ring().blocks,
                log: old(self).ring().log.push(e),
                pending: old(self).ring().pending.insert(old(self).ring().log.len() as int),
                ..old(self).ring()
            }),
            final(self).waiting() == old(self).waiting().push(e),
            final(self).blocks() == (if old(self).blocks() == 0 {
                1
            } else if old(self).ring().used() % 32 == 31 && !old(self).can_recycle() {
                old(self).blocks() + 1
            } else {
                old(self).blocks()
            }),
            claim.held(final(self)),
            claim.position() == old(self).ring().log.len(),
            claim.content() == e,
    {
        if self.p.is_none() {
            self.attach_first();
        }
        let p: usize = self.p.unwrap();
        let ghost before = *self;
        let ghost r = self.ring@;
        let ghost m = r.last();
        let ghost at = r.log.len() as int;
        proof {
            self.lemma_counts(m);
        }
        let word: u32 = self.blocks[p].p;
        let index: u16 = high(word);
        if index + 1 == L {
            self.move_on(p, Ghost(e));
        } else {
            self.blocks[p].p = merge(index + 1, low(word));
            self.ring = Ghost(
                Ring { log: r.log.push(e), pending: r.pending.insert(at), ..r },
            );
            proof {
                let u = self.ring@;
                assert(u.last() == m);
                assert forall|k: int| 0 <= k < u.blocks.len() implies #[trigger] self.block_wf(
                    k,
                ) by {
                    before.lemma_counts(k);
                    assert(k != m ==> r.blocks[k] != r.blocks[m]);
                    Self::lemma_agrees_claim(before.blocks@[r.blocks[k] as int], r, u, e);
                }
                before.lemma_free_kept(self);
            }
        }
        proof {
            assert(self.waiting() =~= old(self).waiting().push(e));
            assert(self.ring@.blocks.contains(p));
            assert(self.keeps_claims(&before)) by {
                assert forall|id: usize| #[trigger] r.blocks.contains(id) implies id
                    < before.blocks@.len() by {
                    assert(r.blocks[r.blocks.index_of(id)] == id);
                }
            }
        }
        PushClaim { value: e, id: p, index: index as usize, at: Ghost(at) }
    }

    /// The claim of the last slot of block `p`: moves producers on.
    fn move_on(&mut self, p: usize, e: Ghost<T>)
        requires
            old(self).wf(),
            old(self).ring@.blocks.len() > 0,
            p == old(self).ring@.blocks[old(self).ring@.last()],
            old(self).ring@.used() % 32 == 31,
        ensures
            final(self).wf(),
            final(self).n == old(self).n,
            final(self).ring@ == (Ring {
                blocks: final(self).ring@.blocks,
                log: old(self).ring@.log.push(e@),
                pending: old(self).ring@.pending.insert(old(self).ring@.log.len() as int),
                ..old(self).ring@
            }),
            final(self).keeps_claims(old(self)),
            final(self).ring@.blocks.contains(p),
            p < final(self).blocks@.len(),
            final(self).blocks@[p as int].start == old(self).blocks@[p as int].start,
            final(self).ring@.blocks.len() == (if old(self).can_recycle() {
                old(self).ring@.blocks.len()
            } else {
                old(self).ring@.blocks.len() + 1
            }),
    {
        let ghost r = self.ring@;
        let ghost m = r.last();
        let ghost at = r.log.len() as int;
        proof {
            self.lemma_counts(m);
            self.lemma_counts(0);
            if m + 1 < r.blocks.len() {
                self.lemma_counts(m + 1);
                self.lemma_left_block(m + 1);
            }
        }
        let word: u32 = self.blocks[p].p;
        let reusable: Option<usize> = match self.blocks[p].n {
            Some(n) => if low(self.blocks[n].c) >= L {
                Some(n)
            } else {
                None
            },
            None => None,
        };
        match reusable {
            Some(n) => {
                assert(m + 1 < r.blocks.len() && n == r.blocks[m + 1]);
                assert(r.blocks[m] != r.blocks[m + 1]);
                let next: Option<usize> = self.blocks[n].n;
                self.renew(n, CLOSED, next, Ghost(r.origin() + 32 * (m + 1)));
                self.p = Some(n);
                self.blocks[p].p = merge(32, low(word));
                self.ring = Ghost(
                    Ring { log: r.log.push(e@), pending: r.pending.insert(at), ..r },
                );
                proof {
                    let u = self.ring@;
                    assert(u.last() == m + 1);
                    law_merge(0, 0);
                    assert forall|k: int|
                        0 <= k < u.blocks.len() implies #[trigger] self.block_wf(k) by {
                        old(self).lemma_counts(k);
                        assert(k != m ==> r.blocks[k] != r.blocks[m]);
                        assert(k != m + 1 ==> r.blocks[k] != r.blocks[m + 1]);
                        if k == m + 1 {
                            Self::lemma_new_agrees(self.blocks@[n as int], u);
                        } else {
                            Self::lemma_agrees_claim(
                                old(self).blocks@[r.blocks[k] as int],
                                r,
                                u,
                                e@,
                            );
                        }
                        if k > m + 1 {
                            assert forall|j: int| u.last() < j < k implies (
                            #[trigger] self.blocks@[u.blocks[j] as int].start@) + 32
                                <= self.blocks@[u.blocks[k] as int].start@ by {
                                assert(r.blocks[j] != r.blocks[m] && r.blocks[j] != r.blocks[m
                                    + 1]);
                                assert(old(self).blocks@[r.blocks[j] as int].start@ + 32 <= old(
                                    self,
                                ).blocks@[r.blocks[k] as int].start@);
                            }
                        }
                    }
                    old(self).lemma_free_kept(self);
                    assert forall|id: usize, q: int|
                        #![trigger r.blocks.contains(id), self.is_open(q)]
                        r.blocks.contains(id) && self.is_open(q) && old(
                            self,
                        ).blocks@[id as int].start@ <= q < old(self).blocks@[id as int].start@
                            + 32 implies u.blocks.contains(id) && id < self.blocks@.len()
                        && self.blocks@[id as int].start@ == old(
                        self,
                    ).blocks@[id as int].start@ by {
                        assert(r.blocks[r.blocks.index_of(id)] == id);
                        assert(old(self).block_wf(m + 1));
                    }
                }
            },
            None => {
                let b: usize = self.take_free();
                let ghost mid = *self;
                proof {
                    mid.lemma_counts(m);
                    assert(r.blocks.contains(p));
                }
                let next: usize = match self.blocks[p].n {
                    Some(n) => n,
                    None => p,
                };
                self.renew(b, CLOSED, Some(next), Ghost(r.origin() + 32 * (m + 1)));
                self.p = Some(b);
                self.blocks[p].n = Some(b);
                self.blocks[p].p = merge(32, low(word));
                self.ring = Ghost(
                    Ring {
                        blocks: r.blocks.insert(m + 1, b),
                        log: r.log.push(e@),
                        pending: r.pending.insert(at),
                        ..r
                    },
                );
                proof {
                    mid.lemma_insert(self, p, b, e@);
                    let u = self.ring@;
                    assert forall|id: usize| r.blocks.contains(id) implies #[trigger] u.blocks.contains(
                        id,
                    ) by {
                        let x = r.blocks.index_of(id);
                        if x <= m {
                            assert(u.blocks[x] == id);
                        } else {
                            assert(u.blocks[x + 1] == id);
                        }
                    }
                    assert forall|id: usize, q: int|
                        #![trigger r.blocks.contains(id), self.is_open(q)]
                        r.blocks.contains(id) && self.is_open(q) implies u.blocks.contains(id) && id
                        < self.blocks@.len() && self.blocks@[id as int].start@ == old(
                        self,
                    ).blocks@[id as int].start@ by {
                        assert(r.blocks[r.blocks.index_of(id)] == id);
                        assert(id < old(self).blocks@.len());
                    }
                }
            },
        }
    }

    /// A block that consumers have left is read to the end exactly when no
    /// claim on it is open.
    proof fn lemma_left_block(&self, k: int)
        requires
            self.wf(),
            self.ring@.last() < k < self.ring@.blocks.len(),
        ensures
            ({
                let b = self.blocks@[self.ring@.blocks[k] as int];
                &&& count(b.done@) == 32 <==> forall|q: int|
                    b.start@ <= q < b.start@ + 32 ==> !#[trigger] self.ring@.claimed.contains(q)
                &&& count(b.done@) == 32 ==> b.vacant()
            }),
    {
        let r = self.ring@;
        let b = self.blocks@[r.blocks[k] as int];
        assert(self.block_wf(k));
        lemma_count_bound(b.done@);
        if count(b.done@) == 32 {
            assert forall|q: int| b.start@ <= q < b.start@ + 32 implies !#[trigger] r.claimed.contains(
                q,
            ) by {
                assert(b.done@[q - b.start@]);
            }
            assert forall|i: int| 0 <= i < 32 implies #[trigger] b.a@[i] is None by {
                assert(b.done@[i]);
            }
        }
        if forall|q: int|
            b.start@ <= q < b.start@ + 32 ==> !#[trigger] r.claimed.contains(q) {
            assert forall|i: int| 0 <= i < 32 implies b.done@[i] by {
                assert(!r.claimed.contains(b.start@ + i));
            }
        }
    }

    /// What inserting a block behind the producers' block leaves is well
    /// formed.
    proof fn lemma_insert(&self, after: &Self, p: usize, b: usize, e: T)
        requires
            self.wf(),
            self.ring@.blocks.len() > 0,
            p == self.ring@.blocks[self.ring@.last()],
            self.ring@.used() % 32 == 31,
            b < self.blocks@.len(),
            !self.ring@.blocks.contains(b),
            !self.free@.contains(b),
            self.blocks@[b as int].vacant(),
            after.n == self.n,
            after.c == self.c,
            after.p == Some(b),
            after.free == self.free,
            after.blocks@.len() == self.blocks@.len(),
            after.ring@ == (Ring {
                blocks: self.ring@.blocks.insert(self.ring@.last() + 1, b),
                log: self.ring@.log.push(e),
                pending: self.ring@.pending.insert(self.ring@.log.len() as int),
                ..self.ring@
            }),
            ({
                let m = self.ring@.last();
                let x = self.blocks@[p as int];
                let y = after.blocks@[p as int];
                let z = after.blocks@[b as int];
                &&& y == (B {
                    p: spec_merge(32, count(x.written@) as u16),
                    n: Some(b),
                    ..x
                })
                &&& z == (B {
                    a: self.blocks@[b as int].a,
                    p: 0u32,
                    c: CLOSED,
                    n: Some(
                        match x.n {
                            Some(n) => n,
                            None => p,
                        },
                    ),
                    start: z.start,
                    written: Ghost(Seq::new(32, |i: int| false)),
                    done: Ghost(Seq::new(32, |i: int| false)),
                })
                &&& z.start@ == self.ring@.origin() + 32 * (m + 1)
                &&& forall|other: int|
                    0 <= other < self.blocks@.len() && other != p && other != b
                        ==> #[trigger] after.blocks@[other] == self.blocks@[other]
            }),
        ensures
            after.wf(),
            after.ring@.blocks.contains(p),
            after.ring@.blocks.len() == self.ring@.blocks.len() + 1,
    {
        let r = self.ring@;
        let u = after.ring@;
        let m = r.last();
        let len = r.blocks.len() as int;
        law_merge(0, 0);
        self.lemma_counts(m);
        assert(u.last() == m + 1);
        assert forall|k: int| 0 <= k <= len implies #[trigger] u.blocks[k] == (if k <= m {
            r.blocks[k]
        } else if k == m + 1 {
            b
        } else {
            r.blocks[k - 1]
        }) by {}
        assert forall|k: int| 0 <= k < len implies r.blocks[k] != b by {
            assert(r.blocks.contains(r.blocks[k]));
        }
        assert(u.blocks[m] == p);
        assert forall|j: int, k: int| 0 <= j < k <= len implies u.blocks[j] != u.blocks[k] by {}
        assert forall|k: int| 0 <= k < u.blocks.len() implies #[trigger] after.block_wf(k) by {
            if k == m + 1 {
                Self::lemma_new_agrees(after.blocks@[b as int], u);
                assert(self.block_wf(m));
            } else {
                let x = if k <= m {
                    k
                } else {
                    k - 1
                };
                self.lemma_counts(x);
                assert(x != m ==> r.blocks[x] != r.blocks[m]);
                Self::lemma_agrees_claim(self.blocks@[r.blocks[x] as int], r, u, e);
                let y = after.blocks@[u.blocks[k] as int];
                assert(y.agrees(u));
                if k > m + 1 {
                    assert forall|j: int| u.last() < j < k implies (
                    #[trigger] after.blocks@[u.blocks[j] as int].start@) + 32 <= y.start@ by {
                        assert(u.blocks[j] == r.blocks[j - 1]);
                        assert(r.blocks[j - 1] != r.blocks[m]);
                        assert(self.blocks@[r.blocks[j - 1] as int].start@ + 32 <= y.start@);
                    }
                }
            }
        }
        assert(after.free_wf()) by {
            assert forall|j: int| 0 <= j < after.free@.len() implies (#[trigger] after.free@[j])
                < after.blocks@.len() && !u.blocks.contains(after.free@[j])
                && after.blocks@[after.free@[j] as int].vacant() by {
                assert(self.free@[j] == after.free@[j]);
                assert(self.free@.contains(self.free@[j]));
                assert(r.blocks.contains(p));
                if u.blocks.contains(after.free@[j]) {
                    let x = u.blocks.index_of(after.free@[j]);
                    assert(u.blocks[x] == after.free@[j]);
                    if x <= m {
                        assert(r.blocks.contains(r.blocks[x]));
                    } else if x > m + 1 {
                        assert(r.blocks.contains(r.blocks[x - 1]));
                    }
                }
            }
        }
        assert(u.blocks[m] == p);
    }

    /// Spare blocks stay empty when only blocks of the ring change.
    proof fn lemma_free_kept(&self, after: &Self)
        requires
            self.wf(),
            after.free@ == self.free@,
            after.blocks@.len() == self.blocks@.len(),
            forall|id: usize|
                after.ring@.blocks.contains(id) ==> #[trigger] self.ring@.blocks.contains(id),
            forall|id: int|
                0 <= id < self.blocks@.len() && !self.ring@.blocks.contains(id as usize)
                    ==> #[trigger] after.blocks@[id] == self.blocks@[id],
        ensures
            after.free_wf(),
    {
        assert forall|j: int| 0 <= j < after.free@.len() implies (#[trigger] after.free@[j])
            < after.blocks@.len() && !after.ring@.blocks.contains(after.free@[j])
            && after.blocks@[after.free@[j] as int].vacant() by {
            assert(self.free@[j] == after.free@[j]);
            assert(!self.ring@.blocks.contains(self.free@[j]));
            assert(after.blocks@[after.free@[j] as int] == self.blocks@[after.free@[j] as int]);
        }
    }
}

/// A slot that one producer has claimed, and the value that goes there.
pub struct PushClaim<T> {
    value: T,
    id: usize,
    index: usize,
    at: Ghost<int>,
}

impl<T> PushClaim<T> {
    /// The position of the slot.
    pub closed spec fn position(&self) -> int {
        self.at@
    }

    /// The value that goes there.
    pub closed spec fn content(&self) -> T {
        self.value
    }

    /// The slot is claimed in `queue`, for this value, and not committed.
    pub closed spec fn held(&self, queue: &I<T>) -> bool {
        let r = queue.ring@;
        &&& r.pending.contains(self.at@)
        &&& r.log[self.at@] == self.value
        &&& r.blocks.contains(self.id)
        &&& self.index < 32
        &&& self.id < queue.blocks@.len()
        &&& queue.blocks@[self.id as int].start@ + self.index == self.at@
    }

    /// A claim stays valid through what others do.
    pub proof fn lemma_held_kept(&self, before: &I<T>, after: &I<T>)
        requires
            self.held(before),
            before.wf(),
            after.follows(before),
            after.keeps_claims(before),
            after.ring().pending.contains(self.position()),
        ensures
            self.held(after),
    {
        let b = before.blocks@[self.id as int];
        assert(b.start@ + self.index as int == self.at@);
        assert(after.is_open(self.at@));
        assert(after.ring@.log[self.at@] == before.ring@.log[self.at@]);
    }

    /// Puts the value into its slot and commits it. Once all claims of its
    /// block are committed, consumers can read it.
    pub fn commit(self, queue: &mut I<T>)
        requires
            old(queue).wf(),
            self.held(old(queue)),
        ensures
            final(queue).wf(),
            final(queue).follows(old(queue)),
            final(queue).keeps_claims(old(queue)),
            final(queue).ring() == (Ring {
                pending: old(queue).ring().pending.remove(self.position()),
                ..old(queue).ring()
            }),
            final(queue).waiting() == old(queue).waiting(),
    {
        let ghost r = queue.ring@;
        let ghost q = self.at@;
        let ghost k = r.blocks.index_of(self.id);
        let ghost value = self.value;
        let ghost b = queue.blocks@[self.id as int];
        proof {
            assert(r.blocks[k] == self.id);
            queue.lemma_counts(k);
            assert(k <= r.last());
            assert(!b.written@[self.index as int]);
            lemma_count_set(b.written@, self.index as int);
            lemma_count_bound(b.written@.update(self.index as int, true));
        }
        let word: u32 = queue.blocks[self.id].p;
        queue.blocks[self.id].a.set(self.index, Some(self.value));
        queue.blocks[self.id].p = merge(high(word), low(word) + 1);
        queue.blocks[self.id].written = Ghost(b.written@.update(self.index as int, true));
        queue.ring = Ghost(Ring { pending: r.pending.remove(q), ..r });
        proof {
            let u = queue.ring@;
            let c = queue.blocks@[self.id as int];
            assert(u.last() == r.last());
            assert forall|x: int| x != q implies u.is_written(x) == #[trigger] r.is_written(x) by {}
            assert forall|x: int| u.is_read(x) == #[trigger] r.is_read(x) by {}
            assert forall|j: int| 0 <= j < u.blocks.len() implies #[trigger] queue.block_wf(j) by {
                old(queue).lemma_counts(j);
                let x = old(queue).blocks@[r.blocks[j] as int];
                let y = queue.blocks@[r.blocks[j] as int];
                if j != k {
                    assert(r.blocks[j] != r.blocks[k]);
                    old(queue).lemma_apart(j, k);
                }
                assert forall|i: int| 0 <= i < 32 implies #[trigger] y.written@[i] == u.is_written(
                    y.start@ + i,
                ) && y.done@[i] == u.is_read(y.start@ + i) && y.a@[i] == (if u.is_written(
                    y.start@ + i,
                ) && !u.is_read(y.start@ + i) {
                    Some(u.log[y.start@ + i])
                } else {
                    None
                }) by {
                    assert(x.written@[i] == r.is_written(x.start@ + i));
                    assert(x.done@[i] == r.is_read(x.start@ + i));
                    assert(x.a@[i] == (if r.is_written(x.start@ + i) && !r.is_read(
                        x.start@ + i,
                    ) {
                        Some(r.log[x.start@ + i])
                    } else {
                        None
                    }));
                }
                assert(y.agrees(u));
                if j > r.last() {
                    assert forall|l: int| u.last() < l < j implies (
                    #[trigger] queue.blocks@[u.blocks[l] as int].start@) + 32 <= y.start@ by {
                        assert(old(queue).blocks@[r.blocks[l] as int].start@ + 32 <= x.start@);
                    }
                }
            }
            old(queue).lemma_free_kept(queue);
            assert(queue.waiting() =~= old(queue).waiting());
        }
    }
}

/// A slot that one consumer has claimed.
pub struct PopClaim {
    id: usize,
    index: usize,
    at: Ghost<int>,
}

/// What came of a try to claim a slot for reading.
pub enum Popping {
    /// A slot to read.
    Slot(PopClaim),
    /// A producer has a claim in the consumers' block that it has not
    /// committed.
    Wait,
    /// No value waits.
    Empty,
}

impl<T> I<T> {
    /// Two blocks of the ring have no position in common.
    proof fn lemma_apart(&self, j: int, k: int)
        requires
            self.wf(),
            0 <= j < self.ring@.blocks.len(),
            0 <= k < self.ring@.blocks.len(),
            j != k,
        ensures
            self.start_at(j) + 32 <= self.start_at(k) || self.start_at(k) + 32 <= self.start_at(j),
    {
        assert(self.block_wf(j));
        assert(self.block_wf(k));
    }

    /// Claims the next slot for reading.
    ///
    /// Only where the counter of the consumers' block is stable is a slot
    /// claimed. The claim of the last slot of a block opens the next block for
    /// consumers.
    pub fn claim_pop(&mut self) -> (outcome: Popping)
        requires
            old(self).wf(),
        ensures
            final(self).wf(),
            final(self).follows(old(self)),
            final(self).keeps_claims(old(self)),
            match outcome {
                Popping::Slot(claim) => {
                    let r = old(self).ring();
                    &&& old(self).waiting().len() > 0
                    &&& old(self).front_is_stable()
                    &&& claim.held(final(self))
                    &&& claim.position() == r.head
                    &&& final(self).ring() == (Ring {
                        blocks: final(self).ring().blocks,
                        head: r.head + 1,
                        read: if r.read == 31 {
                            0
                        } else {
                            r.read + 1
                        },
                        claimed: r.claimed.insert(r.head),
                        ..r
                    })
                    &&& final(self).blocks() == old(self).blocks()
                    &&& final(self).waiting() == old(self).waiting().skip(1)
                },
                Popping::Wait => !old(self).front_is_stable() && *final(self) == *old(self),
                Popping::Empty => old(self).waiting().len() == 0 && *final(self) == *old(self),
            },
    {
        let c: usize = match self.c {
            Some(c) => c,
            None => return Popping::Empty,
        };
        let ghost r = self.ring@;
        let ghost b = self.blocks@[c as int];
        proof {
            self.lemma_counts(0);
            if spec_stab(b.p) {
                law_a_stable_block_is_written(b.written@, r.taken(0));
                assert forall|q: int| r.pending.contains(q) implies q >= r.origin() + 32 by {
                    if q < r.origin() + 32 {
                        assert(b.written@[q - r.origin()]);
                    }
                }
            } else {
                assert(count(b.written@) < r.taken(0));
                lemma_count_below(b.written@, r.taken(0));
                let i = choose|i: int| 0 <= i < r.taken(0) && !b.written@[i];
                assert(!b.written@[i]);
                assert(r.pending.contains(r.origin() + i));
            }
        }
        let claimed: u16 = high(self.blocks[c].c);
        let committed: u32 = self.blocks[c].p;
        if !stab(committed) {
            return Popping::Wait;
        }
        if claimed >= low(committed) {
            assert(r.last() == 0);
            return Popping::Empty;
        }
        let word: u32 = self.blocks[c].c;
        let claim = PopClaim { id: c, index: claimed as usize, at: Ghost(r.head) };
        self.blocks[c].c = merge(claimed + 1, low(word));
        if claimed + 1 == L {
            proof {
                assert(r.last() >= 1);
                old(self).lemma_counts(1);
                assert(r.blocks[0] != r.blocks[1]);
            }
            let next: usize = self.blocks[c].n.unwrap();
            assert(next == r.blocks[1]);
            self.blocks[next].c = 0;
            self.c = Some(next);
            self.ring = Ghost(
                Ring {
                    blocks: r.blocks.drop_first().push(r.blocks[0]),
                    head: r.head + 1,
                    read: 0,
                    claimed: r.claimed.insert(r.head),
                    ..r
                },
            );
            proof {
                old(self).lemma_left(self);
            }
        } else {
            self.ring = Ghost(
                Ring {
                    head: r.head + 1,
                    read: r.read + 1,
                    claimed: r.claimed.insert(r.head),
                    ..r
                },
            );
            proof {
                let u = self.ring@;
                assert(u.last() == r.last());
                assert forall|k: int| 0 <= k < u.blocks.len() implies #[trigger] self.block_wf(
                    k,
                ) by {
                    old(self).lemma_counts(k);
                    assert(k != 0 ==> r.blocks[k] != r.blocks[0]);
                    Self::lemma_agrees_pop(old(self).blocks@[r.blocks[k] as int], r, u);
                    if k > r.last() {
                        assert forall|j: int| u.last() < j < k implies (
                        #[trigger] self.blocks@[u.blocks[j] as int].start@) + 32
                            <= self.blocks@[u.blocks[k] as int].start@ by {
                            assert(r.blocks[j] != r.blocks[0]);
                            assert(old(self).blocks@[r.blocks[j] as int].start@ + 32 <= old(
                                self,
                            ).blocks@[r.blocks[k] as int].start@);
                        }
                    }
                }
                old(self).lemma_free_kept(self);
                assert(u.blocks.contains(c));
            }
        }
        proof {
            let u = self.ring@;
            assert(self.waiting() =~= old(self).waiting().skip(1));
            assert forall|id: usize| #[trigger] r.blocks.contains(id) implies u.blocks.contains(id)
                && id < self.blocks@.len() && self.blocks@[id as int].start@ == old(
                self,
            ).blocks@[id as int].start@ by {
                let x = r.blocks.index_of(id);
                assert(r.blocks[x] == id);
                if r.read == 31 {
                    let len = r.blocks.len() as int;
                    if x == 0 {
                        assert(u.blocks[len - 1] == id);
                    } else {
                        assert(u.blocks[x - 1] == id);
                    }
                }
            }
        }
        Popping::Slot(claim)
    }

    /// A claim of a consumer does not change what the slots hold.
    proof fn lemma_agrees_pop(b: B<T>, r: Ring<T>, u: Ring<T>)
        requires
            b.agrees(r),
            u == (Ring {
                blocks: u.blocks,
                head: r.head + 1,
                read: u.read,
                claimed: r.claimed.insert(r.head),
                ..r
            }),
        ensures
            b.agrees(u),
    {
        assert forall|q: int| u.is_written(q) == #[trigger] r.is_written(q) by {}
        assert forall|q: int| u.is_read(q) == #[trigger] r.is_read(q) by {}
        assert forall|i: int| 0 <= i < 32 implies #[trigger] b.written@[i] == u.is_written(
            b.start@ + i,
        ) by {
            assert(r.is_written(b.start@ + i) == b.written@[i]);
        }
        assert forall|i: int| 0 <= i < 32 implies #[trigger] b.done@[i] == u.is_read(
            b.start@ + i,
        ) by {
            assert(r.is_read(b.start@ + i) == b.done@[i]);
        }
    }

    /// What is left when consumers claimed the last slot of their block is
    /// well formed.
    proof fn lemma_left(&self, after: &Self)
        requires
            self.wf(),
            self.ring@.blocks.len() > 0,
            self.ring@.read == 31,
            self.ring@.last() >= 1,
            self.ring@.head < self.ring@.log.len(),
            forall|q: int| #[trigger]
                self.ring@.pending.contains(q) ==> q >= self.ring@.origin() + 32,
            after.n == self.n,
            after.p == self.p,
            after.c == Some(self.ring@.blocks[1]),
            after.free == self.free,
            after.blocks@.len() == self.blocks@.len(),
            after.ring@ == (Ring {
                blocks: self.ring@.blocks.drop_first().push(self.ring@.blocks[0]),
                head: self.ring@.head + 1,
                read: 0,
                claimed: self.ring@.claimed.insert(self.ring@.head),
                ..self.ring@
            }),
            ({
                let id = self.ring@.blocks[0] as int;
                let next = self.ring@.blocks[1] as int;
                let x = self.blocks@[id];
                let y = self.blocks@[next];
                &&& after.blocks@[id] == (B {
                    c: spec_merge(32, count(x.done@) as u16),
                    ..x
                })
                &&& after.blocks@[next] == (B { c: 0u32, ..y })
                &&& forall|other: int|
                    0 <= other < self.blocks@.len() && other != id && other != next
                        ==> #[trigger] after.blocks@[other] == self.blocks@[other]
            }),
        ensures
            after.wf(),
            after.ring@.blocks.contains(self.ring@.blocks[0]),
    {
        let r = self.ring@;
        let u = after.ring@;
        let len = r.blocks.len() as int;
        law_merge(0, 0);
        assert(u.last() == r.last() - 1);
        assert forall|j: int| 0 <= j < len implies #[trigger] u.blocks[j] == (if j + 1 < len {
            r.blocks[j + 1]
        } else {
            r.blocks[0]
        }) by {}
        assert(u.blocks[len - 1] == r.blocks[0]);
        assert forall|j: int, k: int| 0 <= j < k < len implies u.blocks[j] != u.blocks[k] by {}
        self.lemma_counts(0);
        self.lemma_counts(1);
        assert forall|k: int| 0 <= k < u.blocks.len() implies #[trigger] after.block_wf(k) by {
            let x = if k + 1 < len {
                k + 1
            } else {
                0
            };
            self.lemma_counts(x);
            assert(x != 0 ==> r.blocks[x] != r.blocks[0]);
            assert(x != 1 ==> r.blocks[x] != r.blocks[1]);
            Self::lemma_agrees_pop(self.blocks@[r.blocks[x] as int], r, u);
            let y = after.blocks@[u.blocks[k] as int];
            assert(y.agrees(u));
            if x == 1 {
                assert forall|i: int| 0 <= i < 32 implies !y.done@[i] by {}
                lemma_count_bound(y.done@);
            }
            if x == 0 {
                assert(self.ring@.taken(0) == 32);
                lemma_all_committed(self.blocks@[r.blocks[0] as int], r);
            }
            if k > u.last() {
                assert forall|j: int| u.last() < j < k implies (
                #[trigger] after.blocks@[u.blocks[j] as int].start@) + 32 <= y.start@ by {
                    assert(u.blocks[j] == r.blocks[j + 1]);
                    assert(self.block_wf(j + 1));
                    assert(r.blocks[j + 1] != r.blocks[0]);
                    if x != 0 {
                        assert(self.blocks@[r.blocks[j + 1] as int].start@ + 32
                            <= self.blocks@[r.blocks[x] as int].start@);
                    }
                }
            }
        }
        assert(after.free_wf()) by {
            assert forall|id: usize| u.blocks.contains(id) implies #[trigger] r.blocks.contains(
                id,
            ) by {
                let x = u.blocks.index_of(id);
                assert(u.blocks[x] == id);
            }
            assert(r.blocks.contains(r.blocks[0]) && r.blocks.contains(r.blocks[1]));
            self.lemma_free_kept(after);
        }
        assert(u.blocks[u.last()] == r.blocks[r.last()]);
    }
}

/// A block without open claims whose slots were all claimed is committed.
proof fn lemma_all_committed<T>(b: B<T>, r: Ring<T>)
    requires
        b.agrees(r),
        b.start@ + 32 <= r.log.len(),
        forall|q: int| #[trigger] r.pending.contains(q) ==> q >= b.start@ + 32,
    ensures
        count(b.written@) == 32,
{
    assert forall|i: int| 0 <= i < 32 implies b.written@[i] by {
        assert(!r.pending.contains(b.start@ + i));
    }
    lemma_count_bound(b.written@);
}

impl PopClaim {
    /// The position of the slot.
    pub closed spec fn position(&self) -> int {
        self.at@
    }

    /// The slot is claimed in `queue` and not read.
    pub closed spec fn held<T>(&self, queue: &I<T>) -> bool {
        let r = queue.ring@;
        &&& r.claimed.contains(self.at@)
        &&& r.is_written(self.at@)
        &&& r.blocks.contains(self.id)
        &&& self.index < 32
        &&& self.id < queue.blocks@.len()
        &&& queue.blocks@[self.id as int].start@ + self.index == self.at@
    }

    /// A claim stays valid through what others do.
    pub proof fn lemma_held_kept<T>(&self, before: &I<T>, after: &I<T>)
        requires
            self.held(before),
            before.wf(),
            after.follows(before),
            after.keeps_claims(before),
            after.ring().claimed.contains(self.position()),
        ensures
            self.held(after),
    {
        let b = before.blocks@[self.id as int];
        assert(b.start@ + self.index as int == self.at@);
        assert(after.is_open(self.at@));
    }

    /// Takes the value out of the slot.
    pub fn read<T>(self, queue: &mut I<T>) -> (value: T)
        requires
            old(queue).wf(),
            self.held(old(queue)),
        ensures
            final(queue).wf(),
            final(queue).follows(old(queue)),
            final(queue).keeps_claims(old(queue)),
            value == old(queue).ring().log[self.position()],
            final(queue).ring() == (Ring {
                claimed: old(queue).ring().claimed.remove(self.position()),
                ..old(queue).ring()
            }),
            final(queue).waiting() == old(queue).waiting(),
    {
        let ghost r = queue.ring@;
        let ghost q = self.at@;
        let ghost k = r.blocks.index_of(self.id);
        let ghost b = queue.blocks@[self.id as int];
        proof {
            assert(r.blocks[k] == self.id);
            queue.lemma_counts(k);
            assert(k == 0 || k > r.last());
            assert(!b.done@[self.index as int]);
            assert(b.a@[self.index as int] == Some(r.log[q]));
            lemma_count_set(b.done@, self.index as int);
            lemma_count_bound(b.done@.update(self.index as int, true));
        }
        let word: u32 = queue.blocks[self.id].c;
        let value = queue.blocks[self.id].a[self.index].take();
        queue.blocks[self.id].c = merge(high(word), low(word) + 1);
        queue.blocks[self.id].done = Ghost(b.done@.update(self.index as int, true));
        queue.ring = Ghost(Ring { claimed: r.claimed.remove(q), ..r });
        proof {
            let u = queue.ring@;
            assert(u.last() == r.last());
            assert forall|x: int| u.is_written(x) == #[trigger] r.is_written(x) by {}
            assert forall|x: int| x != q implies u.is_read(x) == #[trigger] r.is_read(x) by {}
            assert forall|j: int| 0 <= j < u.blocks.len() implies #[trigger] queue.block_wf(j) by {
                old(queue).lemma_counts(j);
                let x = old(queue).blocks@[r.blocks[j] as int];
                let y = queue.blocks@[r.blocks[j] as int];
                if j != k {
                    assert(r.blocks[j] != r.blocks[k]);
                    old(queue).lemma_apart(j, k);
                }
                assert forall|i: int| 0 <= i < 32 implies #[trigger] y.written@[i] == u.is_written(
                    y.start@ + i,
                ) && y.done@[i] == u.is_read(y.start@ + i) && y.a@[i] == (if u.is_written(
                    y.start@ + i,
                ) && !u.is_read(y.start@ + i) {
                    Some(u.log[y.start@ + i])
                } else {
                    None
                }) by {
                    assert(x.written@[i] == r.is_written(x.start@ + i));
                    assert(x.done@[i] == r.is_read(x.start@ + i));
                    assert(x.a@[i] == (if r.is_written(x.start@ + i) && !r.is_read(
                        x.start@ + i,
                    ) {
                        Some(r.log[x.start@ + i])
                    } else {
                        None
                    }));
                }
                assert(y.agrees(u));
                if j > r.last() {
                    assert forall|l: int| u.last() < l < j implies (
                    #[trigger] queue.blocks@[u.blocks[l] as int].start@) + 32 <= y.start@ by {
                        assert(old(queue).blocks@[r.blocks[l] as int].start@ + 32 <= x.start@);
                    }
                }
            }
            old(queue).lemma_free_kept(queue);
            assert(queue.waiting() =~= old(queue).waiting());
        }
        value.unwrap()
    }
}

impl<T> I<T> {
    /// Pushes a value.
    pub fn push(&mut self, e: T)
        requires
            old(self).wf(),
        ensures
            final(self).wf(),
            final(self).follows(old(self)),
            final(self).keeps_claims(old(self)),
            final(self).ring() == (Ring {
                blocks: final(self).ring().blocks,
                log: old(self).ring().log.push(e),
                ..old(self).ring()
            }),
            final(self).waiting() == old(self).waiting().push(e),
            final(self).blocks() == (if old(self).blocks() == 0 {
                1
            } else if old(self).ring().used() % 32 == 31 && !old(self).can_recycle() {
                old(self).blocks() + 1
            } else {
                old(self).blocks()
            }),
    {
        let claim = self.claim(e);
        let ghost between = *self;
        claim.commit(self);
        proof {
            old(self).lemma_claims_join(&between, self);
            let pending = old(self).ring@.pending;
            let at = old(self).ring@.log.len() as int;
            assert(!pending.contains(at));
            assert(pending.insert(at).remove(at) =~= pending);
        }
    }

    /// Removes the oldest value, if there is one.
    pub fn pop(&mut self) -> (value: Option<T>)
        requires
            old(self).wf(),
            old(self).front_is_stable(),
        ensures
            final(self).wf(),
            final(self).follows(old(self)),
            final(self).keeps_claims(old(self)),
            final(self).blocks() == old(self).blocks(),
            final(self).ring().log == old(self).ring().log,
            final(self).ring().pending == old(self).ring().pending,
            final(self).ring().claimed == old(self).ring().claimed,
            if old(self).waiting().len() == 0 {
                value is None && final(self).waiting() == old(self).waiting()
            } else {
                value == Some(old(self).waiting()[0]) && final(self).waiting() == old(
                    self,
                ).waiting().skip(1)
            },
    {
        match self.claim_pop() {
            Popping::Slot(claim) => {
                let ghost between = *self;
                let value = claim.read(self);
                proof {
                    old(self).lemma_claims_join(&between, self);
                    let claimed = old(self).ring@.claimed;
                    let at = old(self).ring@.head;
                    assert(!claimed.contains(at));
                    assert(claimed.insert(at).remove(at) =~= claimed);
                }
                Some(value)
            },
            _ => None,
        }
    }

    /// Steps that keep the claims, the second one without opening any, keep
    /// them together.
    proof fn lemma_claims_join(&self, between: &Self, after: &Self)
        requires
            between.keeps_claims(self),
            after.keeps_claims(between),
            forall|q: int| #[trigger] after.is_open(q) ==> between.is_open(q),
        ensures
            after.keeps_claims(self),
    {
        assert forall|id: usize, q: int|
            #![trigger self.ring@.blocks.contains(id), after.is_open(q)]
            self.ring@.blocks.contains(id) && after.is_open(q)
                && self.blocks@[id as int].start@ <= q < self.blocks@[id as int].start@
                + 32 implies after.ring@.blocks.contains(id) && id < after.blocks@.len()
            && after.blocks@[id as int].start@ == self.blocks@[id as int].start@ by {
            assert(between.is_open(q));
            assert(between.ring@.blocks.contains(id));
        }
    }

    /// Blocks a shrink releases: those that consumers have left, and the last
    /// one too if the queue is empty.
    pub open spec fn releasable(&self) -> int {
        if self.blocks() == 0 {
            0
        } else if self.waiting().len() == 0 {
            self.blocks() as int
        } else {
            self.blocks() - 1 - self.ring().last()
        }
    }

    /// Releases the blocks that hold no value. `None` means there was none.
    ///
    /// Nobody may use the queue meanwhile.
    pub fn shrink(&mut self) -> (released: Option<usize>)
        requires
            old(self).wf(),
            old(self).quiet(),
        ensures
            final(self).wf(),
            final(self).quiet(),
            final(self).follows(old(self)),
            final(self).keeps_claims(old(self)),
            final(self).ring().log == old(self).ring().log,
            final(self).waiting() == old(self).waiting(),
            final(self).blocks() == old(self).blocks() - old(self).releasable(),
            released == (if old(self).releasable() > 0 {
                Some(old(self).releasable() as usize)
            } else {
                None::<usize>
            }),
    {
        let (p, c): (usize, usize) = match (self.p, self.c) {
            (Some(p), Some(c)) => (p, c),
            _ => return None,
        };
        let ghost r = self.ring@;
        let ghost m = r.last();
        let arena: usize = self.blocks.len();
        proof {
            self.lemma_counts(0);
            self.lemma_counts(m);
            lemma_ring_fits(r.blocks, arena as int);
        }
        let first: Option<usize> = self.blocks[p].n;
        // The queue is empty when both sides are in one block at one count.
        let empty: bool = self.is_empty();
        proof {
            if empty {
                assert(m == 0);
            }
        }
        if empty {
            self.p = None;
            self.c = None;
        } else if p == c {
            self.blocks[p].n = None;
        } else {
            self.blocks[p].n = Some(c);
        }
        let mut released: usize = 0;
        let mut current: Option<usize> = first;
        // The segment behind the producers' block is read to the end.
        while current.is_some() && current != Some(c)
            invariant
                0 <= m < r.blocks.len(),
                r.blocks.no_duplicates(),
                c == r.blocks[0],
                p == r.blocks[m],
                r == old(self).ring@,
                m == r.last(),
                old(self).wf(),
                self.ring == old(self).ring,
                self.n == old(self).n,
                released <= r.blocks.len() - 1 - m,
                r.blocks.len() <= usize::MAX,
                self.blocks@.len() == old(self).blocks@.len(),
                current == (if m + 1 + released < r.blocks.len() {
                    Some(r.blocks[m + 1 + released])
                } else if r.blocks.len() == 1 {
                    None
                } else {
                    Some(c)
                }),
                self.free@ == old(self).free@ + r.blocks.subrange(m + 1, m + 1 + released),
                self.blocks@[p as int] == (B {
                    n: self.blocks@[p as int].n,
                    ..old(self).blocks@[p as int]
                }),
                forall|id: int|
                    0 <= id < self.blocks@.len() && id != p ==> #[trigger] self.blocks@[id]
                        == old(self).blocks@[id],
                self.p == (if empty {
                    None
                } else {
                    Some(p)
                }),
                self.c == (if empty {
                    None
                } else {
                    Some(c)
                }),
                !empty ==> self.blocks@[p as int].n == (if p == c {
                    None
                } else {
                    Some(c)
                }),
            decreases r.blocks.len() - released,
        {
            let id: usize = current.unwrap();
            proof {
                let k = m + 1 + released;
                assert(id == r.blocks[k]);
                assert(old(self).block_wf(k));
                assert(r.blocks[k] != r.blocks[m]);
                assert(r.blocks.subrange(m + 1, k + 1) =~= r.blocks.subrange(m + 1, k).push(id));
            }
            current = self.blocks[id].n;
            self.free.push(id);
            released = released + 1;
        }
        if empty {
            self.free.push(p);
            released = released + 1;
        }
        self.ring = Ghost(
            if empty {
                Ring { blocks: Seq::empty(), read: 0, ..r }
            } else {
                Ring { blocks: r.blocks.take(m + 1), ..r }
            },
        );
        proof {
            old(self).lemma_shrink(self, p, empty);
            assert(self.waiting() =~= old(self).waiting());
        }
        if released > 0 {
            Some(released)
        } else {
            None
        }
    }

    /// What a shrink leaves is well formed.
    proof fn lemma_shrink(&self, after: &Self, p: usize, empty: bool)
        requires
            self.wf(),
            self.quiet(),
            self.ring@.blocks.len() > 0,
            p == self.ring@.blocks[self.ring@.last()],
            empty == (self.ring@.head == self.ring@.log.len()),
            after.blocks@.len() == self.blocks@.len(),
            forall|id: int|
                0 <= id < self.blocks@.len() && id != p ==> #[trigger] after.blocks@[id]
                    == self.blocks@[id],
            after.blocks@[p as int] == (B {
                n: after.blocks@[p as int].n,
                ..self.blocks@[p as int]
            }),
            !empty ==> after.blocks@[p as int].n == (if p == self.ring@.blocks[0] {
                None
            } else {
                Some(self.ring@.blocks[0])
            }),
            after.p == (if empty {
                None
            } else {
                Some(p)
            }),
            after.c == (if empty {
                None
            } else {
                Some(self.ring@.blocks[0])
            }),
            ({
                let tail = self.ring@.blocks.subrange(
                    self.ring@.last() + 1,
                    self.ring@.blocks.len() as int,
                );
                if empty {
                    &&& after.free@ == (self.free@ + tail).push(p)
                    &&& after.ring@ == (Ring { blocks: Seq::empty(), read: 0, ..self.ring@ })
                } else {
                    &&& after.free@ == self.free@ + tail
                    &&& after.ring@ == (Ring {
                        blocks: self.ring@.blocks.take(self.ring@.last() + 1),
                        ..self.ring@
                    })
                }
            }),
        ensures
            after.wf(),
    {
        let r = self.ring@;
        let u = after.ring@;
        let m = r.last();
        let f = self.free@.len() as int;
        let t = r.blocks.len() - 1 - m;
        assert forall|j: int| 0 <= j < after.free@.len() implies (#[trigger] after.free@[j]) == (
        if j < f {
            self.free@[j]
        } else if j < f + t {
            r.blocks[m + 1 + (j - f)]
        } else {
            r.blocks[m]
        }) by {}
        assert(empty ==> m == 0);
        assert forall|j: int| 0 <= j < after.free@.len() implies (#[trigger] after.free@[j])
            < after.blocks@.len() && !u.blocks.contains(after.free@[j])
            && after.blocks@[after.free@[j] as int].vacant() by {
            if j < f {
                assert(self.free@[j] == after.free@[j]);
                assert(r.blocks.contains(p));
                if u.blocks.contains(after.free@[j]) {
                    let x = u.blocks.index_of(after.free@[j]);
                    assert(r.blocks[x] == after.free@[j]);
                    assert(r.blocks.contains(r.blocks[x]));
                }
            } else {
                let k = if j < f + t {
                    m + 1 + (j - f)
                } else {
                    m
                };
                assert(self.block_wf(k));
                assert(after.free@[j] == r.blocks[k]);
                assert(k != m ==> r.blocks[k] != r.blocks[m]);
                if u.blocks.contains(after.free@[j]) {
                    let x = u.blocks.index_of(after.free@[j]);
                    assert(r.blocks[x] == r.blocks[k]);
                }
                let b = self.blocks@[r.blocks[k] as int];
                assert forall|i: int| 0 <= i < 32 implies #[trigger] b.a@[i] is None by {
                    assert(!r.claimed.contains(b.start@ + i));
                }
            }
        }
        assert(after.free@.no_duplicates()) by {
            assert forall|i: int, j: int|
                0 <= i < j < after.free@.len() implies after.free@[i] != after.free@[j] by {
                if i < f {
                    assert(!r.blocks.contains(self.free@[i]));
                    if j < f {
                        assert(self.free@[i] != self.free@[j]);
                    } else if j < f + t {
                        assert(r.blocks.contains(r.blocks[m + 1 + (j - f)]));
                    } else {
                        assert(r.blocks.contains(r.blocks[m]));
                    }
                }
            }
        }
        if !empty {
            assert(u.last() == m);
            assert forall|k: int| 0 <= k < u.blocks.len() implies #[trigger] after.block_wf(k) by {
                assert(self.block_wf(k));
                assert(u.blocks[k] == r.blocks[k]);
                assert(k != m ==> r.blocks[k] != r.blocks[m]);
                assert(m != 0 ==> r.blocks[m] != r.blocks[0]);
                let x = self.blocks@[r.blocks[k] as int];
                let y = after.blocks@[r.blocks[k] as int];
                assert forall|q: int| u.is_written(q) == #[trigger] r.is_written(q) by {}
                assert forall|q: int| u.is_read(q) == #[trigger] r.is_read(q) by {}
                assert(y.agrees(u)) by {
                    assert forall|i: int| 0 <= i < 32 implies #[trigger] y.written@[i]
                        == u.is_written(y.start@ + i) by {
                        assert(x.written@[i] == r.is_written(x.start@ + i));
                    }
                    assert forall|i: int| 0 <= i < 32 implies #[trigger] y.done@[i] == u.is_read(
                        y.start@ + i,
                    ) by {
                        assert(x.done@[i] == r.is_read(x.start@ + i));
                    }
                }
            }
        }
    }
}

/// One state that can come after another can come after all that the other can
/// come after.
pub proof fn law_histories_join<T>(first: &I<T>, second: &I<T>, third: &I<T>)
    requires
        second.follows(first),
        third.follows(second),
    ensures
        third.follows(first),
{
    let r = first.ring();
    let t = second.ring();
    let u = third.ring();
    assert forall|i: int| 0 <= i < r.log.len() implies r.log[i] == u.log[i] by {
        assert(t.log[i] == r.log[i]);
    }
    assert forall|q: int| 0 <= q && r.is_written(q) implies #[trigger] u.is_written(q) by {
        assert(t.is_written(q));
    }
    assert forall|q: int| r.is_read(q) implies #[trigger] u.is_read(q) by {
        assert(t.is_read(q));
    }
}

/// Whatever producers and consumers do meanwhile, the consumer that holds a
/// slot reads what was pushed there, and it has been committed.
pub proof fn law_a_slot_keeps_its_value<T>(pushed: &I<T>, later: &I<T>, claim: &PopClaim)
    requires
        later.follows(pushed),
        claim.held(later),
        0 <= claim.position() < pushed.ring().log.len(),
    ensures
        later.ring().log[claim.position()] == pushed.ring().log[claim.position()],
        later.ring().is_written(claim.position()),
{
    let q = claim.position();
    assert(later.ring().log[q] == pushed.ring().log[q]);
}

/// A slot that was read is in no consumer's hands ever after.
pub proof fn law_a_slot_is_read_once<T>(read: &I<T>, later: &I<T>, claim: &PopClaim)
    requires
        later.follows(read),
        claim.held(later),
    ensures
        !read.ring().is_read(claim.position()),
{
    let q = claim.position();
    if read.ring().is_read(q) {
        assert(later.ring().is_read(q));
    }
}

/// Each position is claimed by one producer and by one consumer: a claim of
/// either side takes a position that none of its side held before.
pub proof fn law_claims_are_apart<T>(queue: &I<T>, push: &PushClaim<T>, pop: &PopClaim)
    requires
        queue.wf(),
    ensures
        push.held(queue) ==> push.position() < queue.ring().log.len(),
        pop.held(queue) ==> pop.position() < queue.ring().head,
        push.held(queue) && pop.held(queue) ==> push.position() != pop.position(),
{
}

} // verus!
