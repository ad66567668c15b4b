//! A channel made of linked single-producer shards.
//!
//! Every sender writes to a shard of its own. Receivers visit the shards in
//! rounds, starting behind the shard they last took from. Shards are only ever
//! appended; the shard of a sender that is gone keeps its values until they
//! are received, and is handed to a new sender once it is empty.
use vstd::prelude::*;

use crate::kfifo::queue::SPMC;
use crate::page::is_power_of_two;

verus! {

/// The result of attempting to receive from a channel.
#[derive(Clone, Copy, Debug, PartialEq, Eq, Structural)]
pub enum TryRecvError {
    /// At least one sender remains, but no value was available.
    Empty,
    /// Every sender is gone and all retained values have been received.
    Disconnected,
}

impl TryRecvError {
    /// The message for this error.
    pub fn message(&self) -> (text: &'static str)
        ensures
            text@ == (match *self {
                TryRecvError::Empty => "the channel is temporarily empty"@,
                TryRecvError::Disconnected => "the channel is disconnected and drained"@,
            }),
    {
        match self {
            TryRecvError::Empty => "the channel is temporarily empty",
            TryRecvError::Disconnected => "the channel is disconnected and drained",
        }
    }
}

struct Shard<T> {
    producer_active: bool,
    queue: SPMC<T>,
}

/// The shards of one channel and the number of its senders.
pub struct Core<T> {
    shards: Vec<Shard<T>>,
    senders: usize,
    page_size: usize,
    block_length: usize,
}

/// The producer side: a handle on one shard.
pub struct Sender {
    shard: usize,
}

/// The consumer side: the shard at which its next round starts.
pub struct Receiver {
    cursor: Option<usize>,
}

/// Number of `true` entries.
pub open spec fn count_active(active: Seq<bool>) -> nat
    decreases active.len(),
{
    if active.len() == 0 {
        0
    } else {
        count_active(active.drop_last()) + (if active.last() {
            1nat
        } else {
            0nat
        })
    }
}

proof fn lemma_count_active_update(active: Seq<bool>, i: int, value: bool)
    requires
        0 <= i < active.len(),
    ensures
        count_active(active.update(i, value)) + (if active[i] {
            1nat
        } else {
            0nat
        }) == count_active(active) + (if value {
            1nat
        } else {
            0nat
        }),
    decreases active.len(),
{
    let after = active.update(i, value);
    if i == active.len() - 1 {
        assert(after.drop_last() =~= active.drop_last());
    } else {
        assert(after.drop_last() =~= active.drop_last().update(i, value));
        lemma_count_active_update(active.drop_last(), i, value);
    }
}

/// No shard is active exactly when there is no sender.
pub proof fn law_closed_means_no_active_shard(active: Seq<bool>)
    ensures
        count_active(active) == 0 <==> forall|i: int| 0 <= i < active.len() ==> !active[i],
    decreases active.len(),
{
    if active.len() > 0 {
        let rest = active.drop_last();
        law_closed_means_no_active_shard(rest);
        if count_active(active) == 0 {
            assert forall|i: int| 0 <= i < active.len() implies !active[i] by {
                if i < rest.len() {
                    assert(!rest[i]);
                }
            }
        }
        if forall|i: int| 0 <= i < active.len() ==> !active[i] {
            assert forall|i: int| 0 <= i < rest.len() implies !rest[i] by {
                assert(!active[i]);
            }
        }
    }
}

/// The first shard of `from..to` that holds a value.
pub open spec fn first_full<T>(contents: Seq<Seq<T>>, from: int, to: int) -> Option<int>
    decreases to - from,
{
    if from >= to {
        None
    } else if contents[from].len() > 0 {
        Some(from)
    } else {
        first_full(contents, from + 1, to)
    }
}

/// The shard a round takes from when it starts at `start`: the first one that
/// holds a value, going up to the end and then around from the first shard.
pub open spec fn round<T>(contents: Seq<Seq<T>>, start: int) -> Option<int> {
    match first_full(contents, start, contents.len() as int) {
        Some(i) => Some(i),
        None => first_full(contents, 0, start),
    }
}

/// The shard after `i`, with the first one following the last.
pub open spec fn successor(i: int, shards: int) -> int {
    if i + 1 < shards {
        i + 1
    } else {
        0
    }
}

/// How many values one shard gives to a batch that still wants `want`.
pub open spec fn share<T>(shard: Seq<T>, want: int) -> int {
    if want < shard.len() {
        want
    } else {
        shard.len() as int
    }
}

/// What a batch that wants `want` values takes from shards `from..to`.
pub open spec fn burst<T>(contents: Seq<Seq<T>>, from: int, to: int, want: int) -> Seq<T>
    decreases to - from,
{
    if from >= to {
        Seq::empty()
    } else {
        let n = share(contents[from], want);
        contents[from].take(n) + burst(contents, from + 1, to, want - n)
    }
}

/// What the shards hold after that batch.
pub open spec fn after_burst<T>(
    contents: Seq<Seq<T>>,
    from: int,
    to: int,
    want: int,
) -> Seq<Seq<T>>
    decreases to - from,
{
    if from >= to {
        contents
    } else {
        let n = share(contents[from], want);
        after_burst(contents.update(from, contents[from].skip(n)), from + 1, to, want - n)
    }
}

/// Where the next round starts after that batch: behind the last shard that
/// gave something, or at `otherwise` if none did.
pub open spec fn burst_cursor<T>(
    contents: Seq<Seq<T>>,
    from: int,
    to: int,
    want: int,
    otherwise: int,
) -> int
    decreases to - from,
{
    if from >= to {
        otherwise
    } else {
        let n = share(contents[from], want);
        burst_cursor(
            contents,
            from + 1,
            to,
            want - n,
            if n > 0 {
                successor(from, contents.len() as int)
            } else {
                otherwise
            },
        )
    }
}

/// Everything a batch of `size` takes in a round that starts at `start`.
pub open spec fn round_burst<T>(contents: Seq<Seq<T>>, start: int, size: int) -> Seq<T> {
    let upper = burst(contents, start, contents.len() as int, size);
    let middle = after_burst(contents, start, contents.len() as int, size);
    upper + burst(middle, 0, start, size - upper.len())
}

/// What the shards hold after that round.
pub open spec fn after_round_burst<T>(
    contents: Seq<Seq<T>>,
    start: int,
    size: int,
) -> Seq<Seq<T>> {
    let upper = burst(contents, start, contents.len() as int, size);
    let middle = after_burst(contents, start, contents.len() as int, size);
    after_burst(middle, 0, start, size - upper.len())
}

/// Where the next round starts after that round.
pub open spec fn round_burst_cursor<T>(contents: Seq<Seq<T>>, start: int, size: int) -> int {
    let shards = contents.len() as int;
    let upper = burst(contents, start, shards, size);
    let middle = after_burst(contents, start, shards, size);
    burst_cursor(
        middle,
        0,
        start,
        size - upper.len(),
        burst_cursor(contents, start, shards, size, successor(start, shards)),
    )
}

/// A batch never takes more than it wants, and keeps the number of shards.
proof fn lemma_burst_bound<T>(contents: Seq<Seq<T>>, from: int, to: int, want: int)
    requires
        0 <= want,
        0 <= from,
        to <= contents.len(),
    ensures
        burst(contents, from, to, want).len() <= want,
        after_burst(contents, from, to, want).len() == contents.len(),
    decreases to - from,
{
    if from < to {
        let n = share(contents[from], want);
        lemma_burst_bound(contents, from + 1, to, want - n);
        lemma_burst_bound(
            contents.update(from, contents[from].skip(n)),
            from + 1,
            to,
            want - n,
        );
    }
}

/// What a batch takes from `from..to` does not depend on earlier shards.
proof fn lemma_burst_frame<T>(
    contents: Seq<Seq<T>>,
    other: Seq<Seq<T>>,
    from: int,
    to: int,
    want: int,
    otherwise: int,
)
    requires
        0 <= from,
        to <= contents.len(),
        contents.len() == other.len(),
        forall|i: int| from <= i < to ==> contents[i] == other[i],
    ensures
        burst(contents, from, to, want) == burst(other, from, to, want),
        burst_cursor(contents, from, to, want, otherwise) == burst_cursor(
            other,
            from,
            to,
            want,
            otherwise,
        ),
    decreases to - from,
{
    if from < to {
        let n = share(contents[from], want);
        lemma_burst_frame(
            contents,
            other,
            from + 1,
            to,
            want - n,
            if n > 0 {
                successor(from, contents.len() as int)
            } else {
                otherwise
            },
        );
    }
}

/// A scan of shards finds a value exactly when one of them holds one.
proof fn lemma_first_full<T>(contents: Seq<Seq<T>>, from: int, to: int)
    requires
        0 <= from,
        to <= contents.len(),
    ensures
        first_full(contents, from, to) is None <==> forall|i: int|
            from <= i < to ==> #[trigger] contents[i].len() == 0,
        first_full(contents, from, to) matches Some(i) ==> {
            &&& from <= i < to
            &&& contents[i].len() > 0
            &&& forall|j: int| from <= j < i ==> #[trigger] contents[j].len() == 0
        },
    decreases to - from,
{
    if from < to {
        lemma_first_full(contents, from + 1, to);
    }
}

/// A round misses no value: it comes back empty only when every shard is.
pub proof fn law_round_is_exhaustive<T>(contents: Seq<Seq<T>>, start: int)
    requires
        0 <= start < contents.len(),
    ensures
        round(contents, start) is None <==> forall|i: int|
            0 <= i < contents.len() ==> #[trigger] contents[i].len() == 0,
        round(contents, start) matches Some(i) ==> 0 <= i < contents.len() && contents[i].len()
            > 0,
{
    lemma_first_full(contents, start, contents.len() as int);
    lemma_first_full(contents, 0, start);
}

/// A batch that takes nothing finds every shard of its range empty.
proof fn lemma_empty_burst<T>(contents: Seq<Seq<T>>, from: int, to: int, want: int, otherwise: int)
    requires
        0 < want,
        0 <= from,
        to <= contents.len(),
        burst(contents, from, to, want).len() == 0,
    ensures
        forall|i: int| from <= i < to ==> #[trigger] contents[i].len() == 0,
        after_burst(contents, from, to, want) == contents,
        burst_cursor(contents, from, to, want, otherwise) == otherwise,
    decreases to - from,
{
    if from < to {
        let n = share(contents[from], want);
        assert(n == 0);
        assert(contents[from].skip(0) =~= contents[from]);
        assert(contents.update(from, contents[from].skip(0)) =~= contents);
        lemma_empty_burst(contents, from + 1, to, want, otherwise);
    }
}

/// An empty batch means an empty channel, and changes nothing in it.
pub proof fn law_empty_batch_means_empty_channel<T>(
    contents: Seq<Seq<T>>,
    start: int,
    size: int,
)
    requires
        0 < size,
        0 <= start < contents.len(),
        round_burst(contents, start, size).len() == 0,
    ensures
        forall|i: int| 0 <= i < contents.len() ==> #[trigger] contents[i].len() == 0,
        after_round_burst(contents, start, size) == contents,
        round_burst_cursor(contents, start, size) == successor(start, contents.len() as int),
{
    let shards = contents.len() as int;
    let next = successor(start, shards);
    lemma_empty_burst(contents, start, shards, size, next);
    lemma_empty_burst(contents, 0, start, size, next);
}

proof fn lemma_burst_shortens<T>(contents: Seq<Seq<T>>, from: int, to: int, want: int)
    requires
        0 <= want,
        0 <= from,
        to <= contents.len(),
    ensures
        after_burst(contents, from, to, want).len() == contents.len(),
        forall|i: int|
            0 <= i < contents.len() ==> (#[trigger] after_burst(
                contents,
                from,
                to,
                want,
            )[i]).is_suffix_of(contents[i]),
    decreases to - from,
{
    let after = after_burst(contents, from, to, want);
    if from < to {
        let n = share(contents[from], want);
        let next = contents.update(from, contents[from].skip(n));
        lemma_burst_shortens(next, from + 1, to, want - n);
        assert forall|i: int| 0 <= i < contents.len() implies (
        #[trigger] after[i]).is_suffix_of(contents[i]) by {
            assert(after_burst(next, from + 1, to, want - n)[i].is_suffix_of(next[i]));
            let skipped = if i == from {
                n
            } else {
                0
            };
            assert(next[i] =~= contents[i].skip(skipped));
            lemma_suffix_of_suffix(after[i], next[i], contents[i]);
        }
    } else {
        assert forall|i: int| 0 <= i < contents.len() implies (
        #[trigger] after[i]).is_suffix_of(contents[i]) by {}
    }
}

proof fn lemma_suffix_of_suffix<T>(a: Seq<T>, b: Seq<T>, c: Seq<T>)
    requires
        a.is_suffix_of(b),
        exists|n: int| 0 <= n <= c.len() && b == #[trigger] c.skip(n),
    ensures
        a.is_suffix_of(c),
{
    let n = choose|n: int| 0 <= n <= c.len() && b == #[trigger] c.skip(n);
    assert(a =~= c.subrange(c.len() - a.len(), c.len() as int));
}

/// A batch takes values from the front of shards and leaves the rest.
pub proof fn law_batch_shortens_from_the_front<T>(contents: Seq<Seq<T>>, start: int, size: int)
    requires
        0 < size,
        0 <= start < contents.len(),
    ensures
        after_round_burst(contents, start, size).len() == contents.len(),
        forall|i: int|
            0 <= i < contents.len() ==> (#[trigger] after_round_burst(
                contents,
                start,
                size,
            )[i]).is_suffix_of(contents[i]),
{
    let shards = contents.len() as int;
    let upper = burst(contents, start, shards, size);
    let middle = after_burst(contents, start, shards, size);
    lemma_burst_bound(contents, start, shards, size);
    lemma_burst_shortens(contents, start, shards, size);
    lemma_burst_shortens(middle, 0, start, size - upper.len());
    let after = after_round_burst(contents, start, size);
    assert forall|i: int| 0 <= i < shards implies (#[trigger] after[i]).is_suffix_of(
        contents[i],
    ) by {
        assert(middle[i].is_suffix_of(contents[i]));
        assert(after_burst(middle, 0, start, size - upper.len())[i].is_suffix_of(middle[i]));
        assert(middle[i] =~= contents[i].skip(contents[i].len() - middle[i].len()));
        lemma_suffix_of_suffix(after[i], middle[i], contents[i]);
    }
}

impl<T> Shard<T> {
    spec fn wf(&self) -> bool {
        self.queue.wf() && self.queue.settled()
    }

    fn try_acquire_producer(&mut self) -> (acquired: bool)
        requires
            old(self).wf(),
        ensures
            final(self).wf(),
            final(self).queue == old(self).queue,
            acquired == (!old(self).producer_active && old(self).queue.waiting().len() == 0),
            final(self).producer_active == (old(self).producer_active || acquired),
    {
        if self.producer_active || !self.queue.is_empty() {
            return false;
        }
        self.producer_active = true;
        true
    }
}

impl<T> Core<T> {
    /// The values waiting in each shard, oldest first.
    pub closed spec fn contents(&self) -> Seq<Seq<T>> {
        Seq::new(self.shards@.len(), |i: int| self.shards@[i].queue.waiting())
    }

    /// Which shards belong to a sender.
    pub closed spec fn active(&self) -> Seq<bool> {
        Seq::new(self.shards@.len(), |i: int| self.shards@[i].producer_active)
    }

    pub closed spec fn sender_count(&self) -> nat {
        self.senders as nat
    }

    /// The queue behind a shard.
    pub closed spec fn shard_queue(&self, shard: int) -> SPMC<T> {
        self.shards@[shard].queue
    }

    /// Slots per block in every shard.
    pub closed spec fn length(&self) -> usize {
        self.block_length
    }

    /// The blocks that each shard has allocated.
    pub closed spec fn usage(&self) -> Seq<nat> {
        Seq::new(self.shards@.len(), |i: int| self.shards@[i].queue.allocated())
    }

    /// How many blocks one shard can allocate.
    pub closed spec fn limit(&self) -> int {
        (usize::MAX / self.page_size) as int
    }

    /// There are addresses for `n` more values in a shard. A block for each of
    /// them and one more is always enough.
    pub open spec fn room_for(&self, shard: int, n: int) -> bool {
        ||| self.usage()[shard] + n + 1 <= self.limit()
        ||| self.shard_queue(shard).room_for(n)
    }

    /// The shards have as many blocks as before.
    pub open spec fn same_space(&self, before: &Self) -> bool {
        self.usage() == before.usage() && self.limit() == before.limit()
    }

    /// Only `shard` has more blocks than before, and at most `most`.
    pub open spec fn more_space(&self, before: &Self, shard: int, most: int) -> bool {
        &&& self.limit() == before.limit()
        &&& self.usage() == before.usage().update(shard, self.usage()[shard])
        &&& self.usage()[shard] <= before.usage()[shard] + most
    }

    /// The channel has come from `before`: it has as many shards or more, and
    /// once there is no sender left, there will be none, and what waits only
    /// gets shorter from the front.
    pub open spec fn continues(&self, before: &Self) -> bool {
        &&& before.contents().len() <= self.contents().len()
        &&& before.sender_count() == 0 ==> {
            &&& self.sender_count() == 0
            &&& self.contents().len() == before.contents().len()
            &&& forall|i: int|
                0 <= i < before.contents().len() ==> (#[trigger] self.contents()[i]).is_suffix_of(
                    before.contents()[i],
                )
        }
    }

    pub closed spec fn wf(&self) -> bool {
        &&& is_power_of_two(self.page_size)
        &&& 0 < self.block_length < self.page_size
        &&& self.shards@.len() > 0
        &&& forall|i: int|
            0 <= i < self.shards@.len() ==> (#[trigger] self.shards@[i]).queue.codec().limit()
                == self.limit()
        &&& forall|i: int| 0 <= i < self.shards@.len() ==> (#[trigger] self.shards@[i]).wf()
        &&& self.senders == count_active(self.active())
    }

    /// There is at least one shard, and as many senders as active shards.
    pub proof fn law_one_shard_per_sender(&self)
        requires
            self.wf(),
        ensures
            self.contents().len() > 0,
            self.contents().len() == self.active().len(),
            self.sender_count() == count_active(self.active()),
    {
    }

    fn new(page_size: usize, block_length: usize) -> (core: Self)
        requires
            is_power_of_two(page_size),
            0 < block_length < page_size,
        ensures
            core.wf(),
            core.contents() == seq![Seq::<T>::empty()],
            core.active() == seq![true],
            core.length() == block_length,
            core.usage() == seq![0nat],
            core.limit() == usize::MAX / page_size,
    {
        let mut shards: Vec<Shard<T>> = Vec::new();
        shards.push(
            Shard { producer_active: true, queue: SPMC::new(page_size, block_length) },
        );
        let core = Core { shards, senders: 1, page_size, block_length };
        proof {
            assert(core.active() =~= seq![true]);
            assert(core.active().drop_last() =~= Seq::empty());
            assert(count_active(core.active()) == 1) by {
                reveal_with_fuel(count_active, 2);
            }
            assert(core.contents() =~= seq![Seq::<T>::empty()]);
            assert(core.usage() =~= seq![0nat]);
        }
        core
    }

    /// Number of shards, active or not.
    pub fn routed_len(&self) -> (len: usize)
        ensures
            len == self.contents().len(),
    {
        self.shards.len()
    }

    /// Whether a shard has nothing to receive.
    pub fn shard_is_empty(&self, shard: usize) -> (empty: bool)
        requires
            self.wf(),
            shard < self.contents().len(),
        ensures
            empty == (self.contents()[shard as int].len() == 0),
    {
        self.shards[shard].queue.is_empty()
    }

    /// Whether there are addresses for `n` more values in a shard.
    pub fn has_room_for(&self, shard: usize, n: usize) -> (fits: bool)
        requires
            self.wf(),
            shard < self.contents().len(),
        ensures
            fits == self.room_for(shard as int, n as int),
    {
        assert(self.shards@[shard as int].wf());
        assert(self.usage()[shard as int] == self.shards@[shard as int].queue.allocated());
        self.shards[shard].queue.has_room_for(n)
    }

    /// Number of senders.
    pub fn senders(&self) -> (senders: usize)
        ensures
            senders == self.sender_count(),
    {
        self.senders
    }

    /// Hands out the first inactive empty shard, or appends a new one.
    fn acquire_sender_shard(&mut self) -> (shard: usize)
        requires
            old(self).wf(),
            old(self).senders < usize::MAX,
        ensures
            final(self).wf(),
            final(self).length() == old(self).length(),
            final(self).senders == old(self).senders + 1,
            shard < final(self).contents().len(),
            ({
                let reusable = |i: int|
                    !old(self).active()[i] && old(self).contents()[i].len() == 0;
                &&& forall|i: int| 0 <= i < shard ==> !#[trigger] reusable(i)
                &&& if shard < old(self).contents().len() {
                    &&& reusable(shard as int)
                    &&& final(self).contents() == old(self).contents()
                    &&& final(self).same_space(old(self))
                    &&& final(self).active() == old(self).active().update(shard as int, true)
                } else {
                    &&& shard == old(self).contents().len()
                    &&& final(self).contents() == old(self).contents().push(Seq::empty())
                    &&& final(self).usage() == old(self).usage().push(0)
                    &&& final(self).limit() == old(self).limit()
                    &&& final(self).active() == old(self).active().push(true)
                }
            }),
    {
        let ghost contents = self.contents();
        let ghost active = self.active();
        let mut i: usize = 0;
        while i < self.shards.len()
            invariant
                self.shards@ == old(self).shards@,
                self.senders == old(self).senders,
                self.page_size == old(self).page_size,
                self.block_length == old(self).block_length,
                self.wf(),
                self.senders < usize::MAX,
                i <= self.shards@.len(),
                contents == self.contents(),
                active == self.active(),
                forall|j: int| 0 <= j < i ==> active[j] || #[trigger] contents[j].len() > 0,
            decreases self.shards@.len() - i,
        {
            assert(self.shards@[i as int].wf());
            if self.shards[i].try_acquire_producer() {
                self.senders = self.senders + 1;
                proof {
                    assert(self.contents() =~= contents);
                    assert(self.usage() =~= old(self).usage());
                    assert(self.active() =~= active.update(i as int, true));
                    lemma_count_active_update(active, i as int, true);
                }
                return i;
            }
            proof {
                assert(self.shards@ =~= old(self).shards@);
                assert(self.contents() =~= contents);
                assert(self.active() =~= active);
            }
            i = i + 1;
        }
        let shard = Shard {
            producer_active: true,
            queue: SPMC::new(self.page_size, self.block_length),
        };
        self.shards.push(shard);
        self.senders = self.senders + 1;
        proof {
            assert(self.contents() =~= contents.push(Seq::empty()));
            assert(self.usage() =~= old(self).usage().push(0));
            assert(self.active() =~= active.push(true));
            assert(self.active().drop_last() =~= active);
        }
        i
    }

    /// Takes the oldest value of one shard.
    pub(crate) fn pop_from(&mut self, shard: usize) -> (value: Option<T>)
        requires
            old(self).wf(),
            shard < old(self).contents().len(),
        ensures
            final(self).wf(),
            final(self).length() == old(self).length(),
            final(self).active() == old(self).active(),
            final(self).same_space(old(self)),
            final(self).sender_count() == old(self).sender_count(),
            final(self).continues(old(self)),
            ({
                let waiting = old(self).contents()[shard as int];
                if waiting.len() == 0 {
                    value is None && final(self).contents() == old(self).contents()
                } else {
                    &&& value == Some(waiting[0])
                    &&& final(self).contents() == old(self).contents().update(
                        shard as int,
                        waiting.skip(1),
                    )
                }
            }),
    {
        assert(self.shards@[shard as int].wf());
        let value = self.shards[shard].queue.pop();
        proof {
            assert(self.active() =~= old(self).active());
            assert(self.usage() =~= old(self).usage());
            let waiting = old(self).contents()[shard as int];
            if waiting.len() == 0 {
                assert(self.contents() =~= old(self).contents());
            } else {
                assert(self.contents() =~= old(self).contents().update(
                    shard as int,
                    waiting.skip(1),
                ));
            }
        }
        value
    }

    /// Appends up to `size` values of one shard to `values`.
    pub(crate) fn pop_batch_from(&mut self, shard: usize, size: usize, values: &mut Vec<T>) -> (
    popped: usize)
        requires
            old(self).wf(),
            shard < old(self).contents().len(),
        ensures
            final(self).wf(),
            final(self).length() == old(self).length(),
            final(self).active() == old(self).active(),
            final(self).same_space(old(self)),
            final(self).sender_count() == old(self).sender_count(),
            final(self).continues(old(self)),
            ({
                let waiting = old(self).contents()[shard as int];
                &&& popped == share(waiting, size as int)
                &&& final(values)@ == old(values)@ + waiting.take(popped as int)
                &&& final(self).contents() == old(self).contents().update(
                    shard as int,
                    waiting.skip(popped as int),
                )
            }),
    {
        assert(self.shards@[shard as int].wf());
        let ghost waiting = self.contents()[shard as int];
        let ghost log = self.shards@[shard as int].queue.trace().log;
        let ghost head = self.shards@[shard as int].queue.head();
        proof {
            self.shards@[shard as int].queue.lemma_waiting();
        }
        let reservation = self.shards[shard].queue.pop_batch(size);
        let ghost reserved = self.shards@[shard as int].queue;
        proof {
            reservation.lemma_reserved_range(&reserved);
            assert(reservation.values(&reserved) =~= waiting.take(reservation.remaining()));
        }
        let popped: usize = reservation.append_to_vec(&mut self.shards[shard].queue, values);
        proof {
            let queue = self.shards@[shard as int].queue;
            assert(queue.waiting() =~= waiting.skip(popped as int));
            assert(self.active() =~= old(self).active());
            assert(self.usage() =~= old(self).usage());
            assert(self.contents() =~= old(self).contents().update(
                shard as int,
                waiting.skip(popped as int),
            ));
        }
        popped
    }
}

/// Creates a channel with one sender and one receiver.
///
/// Blocks are pages of `page_size` bytes with `block_length` slots.
pub fn channel<T>(page_size: usize, block_length: usize) -> (channel: (Core<T>, Sender, Receiver))
    requires
        is_power_of_two(page_size),
        0 < block_length < page_size,
    ensures
        channel.0.wf(),
        channel.0.contents() == seq![Seq::<T>::empty()],
        channel.0.active() == seq![true],
        channel.0.length() == block_length,
        channel.0.usage() == seq![0nat],
        channel.0.limit() == usize::MAX / page_size,
        channel.1.shard_id() == 0,
        channel.2.position() is None,
{
    channel_with::<T, ()>(page_size, block_length)
}

/// Creates a channel with one sender and one receiver, for threads that wait by
/// policy `B` between two steps. No step of the channel waits, so that the
/// policy has no part in what they do.
///
/// Blocks are pages of `page_size` bytes with `block_length` slots.
pub fn channel_with<T, B>(page_size: usize, block_length: usize) -> (channel: (
    Core<T>,
    Sender,
    Receiver,
))
    requires
        is_power_of_two(page_size),
        0 < block_length < page_size,
    ensures
        channel.0.wf(),
        channel.0.contents() == seq![Seq::<T>::empty()],
        channel.0.active() == seq![true],
        channel.0.length() == block_length,
        channel.0.usage() == seq![0nat],
        channel.0.limit() == usize::MAX / page_size,
        channel.1.shard_id() == 0,
        channel.2.position() is None,
{
    (Core::new(page_size, block_length), Sender { shard: 0 }, Receiver { cursor: None })
}

impl Sender {
    /// The shard this sender writes to.
    pub closed spec fn shard_id(&self) -> int {
        self.shard as int
    }

    /// The sender owns an active shard of `core`.
    pub open spec fn belongs_to<T>(&self, core: &Core<T>) -> bool {
        0 <= self.shard_id() < core.active().len() && core.active()[self.shard_id()]
    }

    /// The shard this sender writes to.
    pub fn shard(&self) -> (shard: usize)
        ensures
            shard == self.shard_id(),
    {
        self.shard
    }

    /// Sends a value through this sender's shard.
    pub fn send<T>(&mut self, core: &mut Core<T>, value: T)
        requires
            old(core).wf(),
            old(self).belongs_to(old(core)),
            old(core).room_for(old(self).shard_id(), 1),
        ensures
            final(core).wf(),
            final(core).continues(old(core)),
            *final(self) == *old(self),
            final(core).length() == old(core).length(),
            final(core).active() == old(core).active(),
            final(core).more_space(old(core), old(self).shard_id(), 2),
            final(core).sender_count() == old(core).sender_count(),
            final(core).contents() == old(core).contents().update(
                old(self).shard_id(),
                old(core).contents()[old(self).shard_id()].push(value),
            ),
    {
        assert(core.shards@[self.shard as int].wf());
        assert(core.usage()[self.shard as int] == core.shards@[self.shard as int].queue.allocated());
        core.shards[self.shard].queue.push(value);
        proof {
            law_closed_means_no_active_shard(old(core).active());
            assert(core.active() =~= old(core).active());
            assert(core.usage() =~= old(core).usage().update(
                self.shard_id(),
                core.usage()[self.shard_id()],
            ));
            assert(core.contents() =~= old(core).contents().update(
                self.shard_id(),
                old(core).contents()[self.shard_id()].push(value),
            ));
        }
    }

    /// Sends values in order through this sender's shard.
    pub fn send_batch<T>(&mut self, core: &mut Core<T>, values: Vec<T>)
        requires
            old(core).wf(),
            old(self).belongs_to(old(core)),
            old(core).room_for(old(self).shard_id(), values@.len() as int),
        ensures
            final(core).wf(),
            final(core).continues(old(core)),
            *final(self) == *old(self),
            final(core).length() == old(core).length(),
            final(core).active() == old(core).active(),
            final(core).more_space(old(core), old(self).shard_id(), values@.len() as int + 1),
            final(core).sender_count() == old(core).sender_count(),
            final(core).contents() == old(core).contents().update(
                old(self).shard_id(),
                old(core).contents()[old(self).shard_id()] + values@,
            ),
    {
        assert(core.shards@[self.shard as int].wf());
        assert(core.usage()[self.shard as int] == core.shards@[self.shard as int].queue.allocated());
        core.shards[self.shard].queue.push_batch(values);
        proof {
            law_closed_means_no_active_shard(old(core).active());
            assert(core.active() =~= old(core).active());
            assert(core.usage() =~= old(core).usage().update(
                self.shard_id(),
                core.usage()[self.shard_id()],
            ));
            assert(core.contents() =~= old(core).contents().update(
                self.shard_id(),
                old(core).contents()[self.shard_id()] + values@,
            ));
        }
    }

    /// The same as `send`.
    pub fn push<T>(&mut self, core: &mut Core<T>, value: T)
        requires
            old(core).wf(),
            old(self).belongs_to(old(core)),
            old(core).room_for(old(self).shard_id(), 1),
        ensures
            final(core).wf(),
            final(core).continues(old(core)),
            *final(self) == *old(self),
            final(core).length() == old(core).length(),
            final(core).active() == old(core).active(),
            final(core).more_space(old(core), old(self).shard_id(), 2),
            final(core).sender_count() == old(core).sender_count(),
            final(core).contents() == old(core).contents().update(
                old(self).shard_id(),
                old(core).contents()[old(self).shard_id()].push(value),
            ),
    {
        self.send(core, value);
    }

    /// The same as `send_batch`.
    pub fn push_batch<T>(&mut self, core: &mut Core<T>, values: Vec<T>)
        requires
            old(core).wf(),
            old(self).belongs_to(old(core)),
            old(core).room_for(old(self).shard_id(), values@.len() as int),
        ensures
            final(core).wf(),
            final(core).continues(old(core)),
            *final(self) == *old(self),
            final(core).length() == old(core).length(),
            final(core).active() == old(core).active(),
            final(core).more_space(old(core), old(self).shard_id(), values@.len() as int + 1),
            final(core).sender_count() == old(core).sender_count(),
            final(core).contents() == old(core).contents().update(
                old(self).shard_id(),
                old(core).contents()[old(self).shard_id()] + values@,
            ),
    {
        self.send_batch(core, values);
    }

    /// Adds a sender, on the first inactive empty shard if there is one and on
    /// a new shard otherwise.
    pub fn add_sender<T>(&self, core: &mut Core<T>) -> (sender: Sender)
        requires
            old(core).wf(),
            self.belongs_to(old(core)),
            old(core).sender_count() < usize::MAX,
        ensures
            final(core).wf(),
            final(core).continues(old(core)),
            final(core).length() == old(core).length(),
            final(core).sender_count() == old(core).sender_count() + 1,
            sender.belongs_to(final(core)),
            ({
                let shard = sender.shard_id();
                let reusable = |i: int|
                    !old(core).active()[i] && old(core).contents()[i].len() == 0;
                &&& forall|i: int| 0 <= i < shard ==> !#[trigger] reusable(i)
                &&& if shard < old(core).contents().len() {
                    &&& reusable(shard)
                    &&& final(core).contents() == old(core).contents()
                    &&& final(core).same_space(old(core))
                    &&& final(core).active() == old(core).active().update(shard, true)
                } else {
                    &&& shard == old(core).contents().len()
                    &&& final(core).contents() == old(core).contents().push(Seq::empty())
                    &&& final(core).usage() == old(core).usage().push(0)
                    &&& final(core).limit() == old(core).limit()
                    &&& final(core).active() == old(core).active().push(true)
                }
            }),
    {
        proof {
            core.law_one_shard_per_sender();
            law_closed_means_no_active_shard(core.active());
        }
        Sender { shard: core.acquire_sender_shard() }
    }

    /// Gives the sender up. Its shard becomes inactive and keeps its values.
    pub fn close<T>(self, core: &mut Core<T>)
        requires
            old(core).wf(),
            self.belongs_to(old(core)),
        ensures
            final(core).wf(),
            final(core).continues(old(core)),
            final(core).length() == old(core).length(),
            final(core).contents() == old(core).contents(),
            final(core).same_space(old(core)),
            final(core).active() == old(core).active().update(self.shard_id(), false),
            final(core).sender_count() == old(core).sender_count() - 1,
    {
        let ghost active = core.active();
        assert(core.shards@[self.shard as int].wf());
        proof {
            lemma_count_active_update(active, self.shard as int, false);
        }
        core.shards[self.shard].producer_active = false;
        core.senders = core.senders - 1;
        proof {
            assert(core.active() =~= active.update(self.shard as int, false));
            assert(core.contents() =~= old(core).contents());
            assert(core.usage() =~= old(core).usage());
        }
    }
}

impl Receiver {
    /// The shard at which the next round starts, the first if none.
    pub closed spec fn position(&self) -> Option<int> {
        match self.cursor {
            Some(shard) => Some(shard as int),
            None => None,
        }
    }

    /// Where the next round over `core` starts.
    pub open spec fn start<T>(&self, core: &Core<T>) -> int {
        match self.position() {
            Some(shard) => if shard < core.contents().len() {
                shard
            } else {
                0
            },
            None => 0,
        }
    }

    /// Where the round after those that found nothing starts: there was one,
    /// and a second one if no sender is left.
    pub open spec fn past_empty_rounds<T>(&self, core: &Core<T>) -> int {
        let shards = core.contents().len() as int;
        let next = successor(self.start(core), shards);
        if core.sender_count() != 0 {
            next
        } else {
            successor(next, shards)
        }
    }

    /// The shard at which the next round over `core` starts.
    pub(crate) fn next_start<T>(&self, core: &Core<T>) -> (start: usize)
        requires
            core.wf(),
        ensures
            start == self.start(core),
            start < core.contents().len(),
    {
        proof {
            core.law_one_shard_per_sender();
        }
        match self.cursor {
            Some(shard) => if shard < core.shards.len() {
                shard
            } else {
                0
            },
            None => 0,
        }
    }

    /// Lets the next round start behind a shard.
    pub(crate) fn move_behind<T>(&mut self, core: &Core<T>, shard: usize)
        requires
            shard < core.contents().len(),
        ensures
            final(self).position() == Some(successor(shard as int, core.contents().len() as int)),
    {
        let shards: usize = core.shards.len();
        self.cursor = Some(
            if shard + 1 < shards {
                shard + 1
            } else {
                0
            },
        );
    }

    /// Whether every sender is gone. Values may still be waiting then.
    pub fn is_closed<T>(&self, core: &Core<T>) -> (closed: bool)
        ensures
            closed == (core.sender_count() == 0),
    {
        core.senders == 0
    }

    /// Another receiver of the same channel, starting its rounds at the first
    /// shard.
    pub fn another(&self) -> (receiver: Receiver)
        ensures
            receiver.position() is None,
    {
        Receiver { cursor: None }
    }

    /// One round over the shards: takes the first value that is found and
    /// moves on behind its shard. A round without a value moves on as well.
    fn scan_once<T>(&mut self, core: &mut Core<T>) -> (value: Option<T>)
        requires
            old(core).wf(),
        ensures
            final(core).wf(),
            final(core).length() == old(core).length(),
            final(core).active() == old(core).active(),
            final(core).same_space(old(core)),
            final(core).sender_count() == old(core).sender_count(),
            ({
                let contents = old(core).contents();
                let start = old(self).start(old(core));
                match round(contents, start) {
                    Some(i) => {
                        &&& 0 <= i < contents.len()
                        &&& contents[i].len() > 0
                        &&& value == Some(contents[i][0])
                        &&& final(core).contents() == contents.update(i, contents[i].skip(1))
                        &&& final(self).position() == Some(successor(i, contents.len() as int))
                    },
                    None => {
                        &&& value is None
                        &&& final(core).contents() == contents
                        &&& final(self).position() == Some(successor(start, contents.len() as int))
                    },
                }
            }),
    {
        let ghost contents = core.contents();
        let shards: usize = core.shards.len();
        let start: usize = match self.cursor {
            Some(shard) => if shard < shards {
                shard
            } else {
                0
            },
            None => 0,
        };
        let mut current: usize = start;
        while current < shards
            invariant
                core.wf(),
                core.length() == old(core).length(),
                core.active() == old(core).active(),
                core.same_space(old(core)),
                core.sender_count() == old(core).sender_count(),
                core.contents() == contents,
                contents == old(core).contents(),
                contents.len() == shards,
                start == old(self).start(old(core)),
                start <= current <= shards,
                start < shards,
                first_full(contents, start as int, shards as int) == first_full(
                    contents,
                    current as int,
                    shards as int,
                ),
            decreases shards - current,
        {
            if let Some(value) = core.pop_from(current) {
                self.cursor = Some(
                    if current + 1 < shards {
                        current + 1
                    } else {
                        0
                    },
                );
                return Some(value);
            }
            current = current + 1;
        }
        // Around once, over the shards before the starting one.
        let mut current: usize = 0;
        while current < start
            invariant
                core.wf(),
                core.length() == old(core).length(),
                core.active() == old(core).active(),
                core.same_space(old(core)),
                core.sender_count() == old(core).sender_count(),
                core.contents() == contents,
                contents == old(core).contents(),
                contents.len() == shards,
                start == old(self).start(old(core)),
                0 <= current <= start < shards,
                first_full(contents, start as int, shards as int) is None,
                first_full(contents, 0, start as int) == first_full(
                    contents,
                    current as int,
                    start as int,
                ),
            decreases start - current,
        {
            if let Some(value) = core.pop_from(current) {
                self.cursor = Some(current + 1);
                return Some(value);
            }
            current = current + 1;
        }
        self.cursor = Some(
            if start + 1 < shards {
                start + 1
            } else {
                0
            },
        );
        None
    }

    /// Attempts to receive one value.
    pub fn try_recv<T>(&mut self, core: &mut Core<T>) -> (result: Result<T, TryRecvError>)
        requires
            old(core).wf(),
        ensures
            final(core).wf(),
            final(core).continues(old(core)),
            final(core).length() == old(core).length(),
            final(core).active() == old(core).active(),
            final(core).same_space(old(core)),
            final(core).sender_count() == old(core).sender_count(),
            ({
                let contents = old(core).contents();
                let shards = contents.len() as int;
                let start = old(self).start(old(core));
                match round(contents, start) {
                    Some(i) => {
                        &&& 0 <= i < shards
                        &&& contents[i].len() > 0
                        &&& result == Ok::<T, TryRecvError>(contents[i][0])
                        &&& final(core).contents() == contents.update(i, contents[i].skip(1))
                        &&& final(self).position() == Some(successor(i, shards))
                    },
                    None => {
                        &&& final(core).contents() == contents
                        &&& if old(core).sender_count() != 0 {
                            &&& result == Err::<T, TryRecvError>(TryRecvError::Empty)
                            &&& final(self).position() == Some(successor(start, shards))
                        } else {
                            &&& result == Err::<T, TryRecvError>(TryRecvError::Disconnected)
                            &&& final(self).position() == Some(
                                successor(successor(start, shards), shards),
                            )
                        }
                    },
                }
            }),
    {
        if let Some(value) = self.scan_once(core) {
            return Ok(value);
        }
        if core.senders != 0 {
            return Err(TryRecvError::Empty);
        }
        // A send may have happened behind the first round. With no sender left
        // a second round settles the question.
        proof {
            core.law_one_shard_per_sender();
            law_round_is_exhaustive(core.contents(), old(self).start(old(core)));
            law_round_is_exhaustive(core.contents(), self.start(core));
        }
        match self.scan_once(core) {
            Some(value) => Ok(value),
            None => Err(TryRecvError::Disconnected),
        }
    }

    /// One round that collects up to `size` values, as many as possible from
    /// each shard before the next one is asked.
    fn scan_batch_once<T>(&mut self, core: &mut Core<T>, values: &mut Vec<T>, size: usize) -> (
    received: usize)
        requires
            old(core).wf(),
            size > 0,
        ensures
            final(core).wf(),
            final(core).length() == old(core).length(),
            final(core).active() == old(core).active(),
            final(core).same_space(old(core)),
            final(core).sender_count() == old(core).sender_count(),
            ({
                let contents = old(core).contents();
                let start = old(self).start(old(core));
                &&& received == round_burst(contents, start, size as int).len()
                &&& received <= size
                &&& final(values)@ == old(values)@ + round_burst(contents, start, size as int)
                &&& final(core).contents() == after_round_burst(contents, start, size as int)
                &&& final(self).position() == Some(
                    round_burst_cursor(contents, start, size as int),
                )
            }),
    {
        let ghost contents = core.contents();
        let shards: usize = core.shards.len();
        let start: usize = match self.cursor {
            Some(shard) => if shard < shards {
                shard
            } else {
                0
            },
            None => 0,
        };
        let mut cursor: usize = if start + 1 < shards {
            start + 1
        } else {
            0
        };
        let mut received: usize = 0;
        let ghost upper = burst(contents, start as int, shards as int, size as int);
        let ghost middle = after_burst(contents, start as int, shards as int, size as int);
        let ghost first_cursor = burst_cursor(
            contents,
            start as int,
            shards as int,
            size as int,
            successor(start as int, shards as int),
        );
        proof {
            lemma_burst_bound(contents, start as int, shards as int, size as int);
        }
        let mut current: usize = start;
        while current < shards
            invariant
                core.wf(),
                core.length() == old(core).length(),
                core.active() == old(core).active(),
                core.same_space(old(core)),
                core.sender_count() == old(core).sender_count(),
                contents == old(core).contents(),
                contents.len() == shards,
                core.contents().len() == shards,
                start <= current <= shards,
                start < shards,
                received <= size,
                cursor < shards,
                upper.len() <= size,
                received + burst(
                    core.contents(),
                    current as int,
                    shards as int,
                    size - received,
                ).len() == upper.len(),
                values@ + burst(core.contents(), current as int, shards as int, size - received)
                    == old(values)@ + upper,
                middle == after_burst(
                    core.contents(),
                    current as int,
                    shards as int,
                    size - received,
                ),
                first_cursor == burst_cursor(
                    core.contents(),
                    current as int,
                    shards as int,
                    size - received,
                    cursor as int,
                ),
            decreases shards - current,
        {
            let ghost before = core.contents();
            let ghost taken = values@;
            let ghost want = size - received;
            let popped: usize = core.pop_batch_from(current, size - received, values);
            let ghost old_cursor = cursor as int;
            if popped != 0 {
                received = received + popped;
                cursor = if current + 1 < shards {
                    current + 1
                } else {
                    0
                };
            }
            proof {
                lemma_burst_frame(
                    before,
                    core.contents(),
                    current + 1,
                    shards as int,
                    size - received,
                    cursor as int,
                );
                let n = popped as int;
                let rest = burst(before, current + 1, shards as int, want - n);
                assert(burst(before, current as int, shards as int, want)
                    == before[current as int].take(n) + rest);
                assert(taken + (before[current as int].take(n) + rest) =~= (taken
                    + before[current as int].take(n)) + rest);
            }
            current = current + 1;
        }
        assert(values@ =~= old(values)@ + upper);
        let ghost lower = burst(middle, 0, start as int, size - upper.len());
        let ghost last = after_burst(middle, 0, start as int, size - upper.len());
        let ghost last_cursor = burst_cursor(
            middle,
            0,
            start as int,
            size - upper.len(),
            first_cursor,
        );
        proof {
            lemma_burst_bound(middle, 0, start as int, size - upper.len());
            assert(old(values)@ + (upper + lower) =~= old(values)@ + upper + lower);
        }
        // Around once, over the shards before the starting one.
        let mut current: usize = 0;
        while current < start
            invariant
                core.wf(),
                core.length() == old(core).length(),
                core.active() == old(core).active(),
                core.same_space(old(core)),
                core.sender_count() == old(core).sender_count(),
                contents == old(core).contents(),
                contents.len() == shards,
                core.contents().len() == shards,
                0 <= current <= start < shards,
                received <= size,
                cursor < shards,
                upper.len() + lower.len() <= size,
                received + burst(
                    core.contents(),
                    current as int,
                    start as int,
                    size - received,
                ).len() == upper.len() + lower.len(),
                values@ + burst(core.contents(), current as int, start as int, size - received)
                    == old(values)@ + upper + lower,
                last == after_burst(
                    core.contents(),
                    current as int,
                    start as int,
                    size - received,
                ),
                last_cursor == burst_cursor(
                    core.contents(),
                    current as int,
                    start as int,
                    size - received,
                    cursor as int,
                ),
            decreases start - current,
        {
            let ghost before = core.contents();
            let ghost taken = values@;
            let ghost want = size - received;
            let popped: usize = core.pop_batch_from(current, size - received, values);
            if popped != 0 {
                received = received + popped;
                cursor = current + 1;
            }
            proof {
                lemma_burst_frame(
                    before,
                    core.contents(),
                    current + 1,
                    start as int,
                    size - received,
                    cursor as int,
                );
                let n = popped as int;
                let rest = burst(before, current + 1, start as int, want - n);
                assert(burst(before, current as int, start as int, want)
                    == before[current as int].take(n) + rest);
                assert(taken + (before[current as int].take(n) + rest) =~= (taken
                    + before[current as int].take(n)) + rest);
            }
            current = current + 1;
        }
        assert(values@ =~= old(values)@ + upper + lower);
        self.cursor = Some(cursor);
        received
    }

    /// Appends up to `size` values to `values` and says how many.
    pub fn try_recv_batch_into<T>(
        &mut self,
        core: &mut Core<T>,
        values: &mut Vec<T>,
        size: usize,
    ) -> (result: Result<usize, TryRecvError>)
        requires
            old(core).wf(),
        ensures
            final(core).wf(),
            final(core).continues(old(core)),
            final(core).length() == old(core).length(),
            final(core).active() == old(core).active(),
            final(core).same_space(old(core)),
            final(core).sender_count() == old(core).sender_count(),
            ({
                let contents = old(core).contents();
                let shards = contents.len() as int;
                let start = old(self).start(old(core));
                let batch = round_burst(contents, start, size as int);
                if size == 0 {
                    &&& result == Ok::<usize, TryRecvError>(0)
                    &&& final(values)@ == old(values)@
                    &&& final(core).contents() == contents
                    &&& *final(self) == *old(self)
                } else if batch.len() > 0 {
                    &&& result is Ok
                    &&& result->Ok_0 == batch.len()
                    &&& batch.len() <= size
                    &&& final(values)@ == old(values)@ + batch
                    &&& final(core).contents() == after_round_burst(contents, start, size as int)
                    &&& final(self).position() == Some(
                        round_burst_cursor(contents, start, size as int),
                    )
                } else {
                    &&& final(values)@ == old(values)@
                    &&& final(core).contents() == contents
                    &&& if old(core).sender_count() != 0 {
                        &&& result == Err::<usize, TryRecvError>(TryRecvError::Empty)
                        &&& final(self).position() == Some(successor(start, shards))
                    } else {
                        &&& result == Err::<usize, TryRecvError>(TryRecvError::Disconnected)
                        &&& final(self).position() == Some(
                            successor(successor(start, shards), shards),
                        )
                    }
                }
            }),
    {
        if size == 0 {
            return Ok(0);
        }
        proof {
            core.law_one_shard_per_sender();
            law_batch_shortens_from_the_front(
                core.contents(),
                self.start(core),
                size as int,
            );
        }
        let received: usize = self.scan_batch_once(core, values, size);
        if received != 0 {
            return Ok(received);
        }
        proof {
            law_empty_batch_means_empty_channel(
                old(core).contents(),
                old(self).start(old(core)),
                size as int,
            );
            assert(values@ =~= old(values)@);
        }
        if core.senders != 0 {
            return Err(TryRecvError::Empty);
        }
        // As for single values, a second round settles whether anything is left.
        proof {
            lemma_no_burst(core.contents(), self.start(core), size as int);
        }
        let ghost between = *self;
        let received: usize = self.scan_batch_once(core, values, size);
        proof {
            law_empty_batch_means_empty_channel(
                old(core).contents(),
                between.start(old(core)),
                size as int,
            );
            assert(values@ =~= old(values)@);
        }
        if received == 0 {
            Err(TryRecvError::Disconnected)
        } else {
            Ok(received)
        }
    }
}

impl Receiver {
    /// Receives up to `size` values into a vector of its own.
    pub fn try_recv_batch<T>(&mut self, core: &mut Core<T>, size: usize) -> (result: Result<
        Vec<T>,
        TryRecvError,
    >)
        requires
            old(core).wf(),
        ensures
            final(core).wf(),
            final(core).continues(old(core)),
            final(core).length() == old(core).length(),
            final(core).active() == old(core).active(),
            final(core).same_space(old(core)),
            final(core).sender_count() == old(core).sender_count(),
            ({
                let contents = old(core).contents();
                let shards = contents.len() as int;
                let start = old(self).start(old(core));
                let batch = round_burst(contents, start, size as int);
                if size == 0 {
                    &&& result is Ok
                    &&& result->Ok_0@ == Seq::<T>::empty()
                    &&& final(core).contents() == contents
                    &&& *final(self) == *old(self)
                } else if batch.len() > 0 {
                    &&& result is Ok
                    &&& result->Ok_0@ == batch
                    &&& final(core).contents() == after_round_burst(contents, start, size as int)
                    &&& final(self).position() == Some(
                        round_burst_cursor(contents, start, size as int),
                    )
                } else {
                    &&& result is Err
                    &&& final(core).contents() == contents
                    &&& if old(core).sender_count() != 0 {
                        &&& result->Err_0 == TryRecvError::Empty
                        &&& final(self).position() == Some(successor(start, shards))
                    } else {
                        &&& result->Err_0 == TryRecvError::Disconnected
                        &&& final(self).position() == Some(
                            successor(successor(start, shards), shards),
                        )
                    }
                }
            }),
    {
        let mut values: Vec<T> = Vec::new();
        match self.try_recv_batch_into(core, &mut values, size) {
            Ok(_) => Ok(values),
            Err(error) => Err(error),
        }
    }

    /// Removes one value, if there is one.
    pub fn pop<T>(&mut self, core: &mut Core<T>) -> (value: Option<T>)
        requires
            old(core).wf(),
        ensures
            final(core).wf(),
            final(core).continues(old(core)),
            final(core).length() == old(core).length(),
            final(core).active() == old(core).active(),
            final(core).same_space(old(core)),
            final(core).sender_count() == old(core).sender_count(),
            ({
                let contents = old(core).contents();
                match round(contents, old(self).start(old(core))) {
                    Some(i) => {
                        &&& 0 <= i < contents.len()
                        &&& contents[i].len() > 0
                        &&& value == Some(contents[i][0])
                        &&& final(core).contents() == contents.update(i, contents[i].skip(1))
                        &&& final(self).position() == Some(successor(i, contents.len() as int))
                    },
                    None => {
                        &&& value is None
                        &&& final(core).contents() == contents
                        &&& final(self).position() == Some(
                            old(self).past_empty_rounds(old(core)),
                        )
                    },
                }
            }),
    {
        match self.try_recv(core) {
            Ok(value) => Some(value),
            Err(_) => None,
        }
    }

    /// Removes up to `size` values.
    pub fn pop_batch<T>(&mut self, core: &mut Core<T>, size: usize) -> (values: Vec<T>)
        requires
            old(core).wf(),
        ensures
            final(core).wf(),
            final(core).continues(old(core)),
            final(core).length() == old(core).length(),
            final(core).active() == old(core).active(),
            final(core).same_space(old(core)),
            final(core).sender_count() == old(core).sender_count(),
            ({
                let contents = old(core).contents();
                let start = old(self).start(old(core));
                let batch = round_burst(contents, start, size as int);
                if size == 0 {
                    &&& values@ == Seq::<T>::empty()
                    &&& final(core).contents() == contents
                    &&& *final(self) == *old(self)
                } else {
                    &&& values@ == batch
                    &&& final(core).contents() == after_round_burst(contents, start, size as int)
                    &&& final(self).position() == Some(
                        if batch.len() > 0 {
                            round_burst_cursor(contents, start, size as int)
                        } else {
                            old(self).past_empty_rounds(old(core))
                        },
                    )
                }
            }),
    {
        proof {
            core.law_one_shard_per_sender();
            if size > 0 && round_burst(
                core.contents(),
                self.start(core),
                size as int,
            ).len() == 0 {
                law_empty_batch_means_empty_channel(
                    core.contents(),
                    self.start(core),
                    size as int,
                );
            }
        }
        match self.try_recv_batch(core, size) {
            Ok(values) => values,
            Err(_) => {
                let values: Vec<T> = Vec::new();
                assert(values@ =~= round_burst(
                    old(core).contents(),
                    old(self).start(old(core)),
                    size as int,
                ));
                values
            },
        }
    }

    /// Appends up to `size` values to `values` and says how many, zero if the
    /// channel is empty.
    pub fn pop_batch_into<T>(&mut self, core: &mut Core<T>, values: &mut Vec<T>, size: usize) -> (
    received: usize)
        requires
            old(core).wf(),
        ensures
            final(core).wf(),
            final(core).continues(old(core)),
            final(core).length() == old(core).length(),
            final(core).active() == old(core).active(),
            final(core).same_space(old(core)),
            final(core).sender_count() == old(core).sender_count(),
            ({
                let contents = old(core).contents();
                let start = old(self).start(old(core));
                let batch = round_burst(contents, start, size as int);
                if size == 0 {
                    &&& received == 0
                    &&& final(values)@ == old(values)@
                    &&& final(core).contents() == contents
                    &&& *final(self) == *old(self)
                } else {
                    &&& received == batch.len()
                    &&& final(values)@ == old(values)@ + batch
                    &&& final(core).contents() == after_round_burst(contents, start, size as int)
                    &&& final(self).position() == Some(
                        if batch.len() > 0 {
                            round_burst_cursor(contents, start, size as int)
                        } else {
                            old(self).past_empty_rounds(old(core))
                        },
                    )
                }
            }),
    {
        proof {
            core.law_one_shard_per_sender();
            let batch = round_burst(core.contents(), self.start(core), size as int);
            if size > 0 && batch.len() == 0 {
                law_empty_batch_means_empty_channel(
                    core.contents(),
                    self.start(core),
                    size as int,
                );
                assert(values@ + batch =~= values@);
            }
        }
        match self.try_recv_batch_into(core, values, size) {
            Ok(received) => received,
            Err(_) => 0,
        }
    }
}

/// Number of values waiting in all shards together.
pub open spec fn total<T>(contents: Seq<Seq<T>>) -> nat
    decreases contents.len(),
{
    if contents.len() == 0 {
        0
    } else {
        total(contents.drop_last()) + contents.last().len()
    }
}

proof fn lemma_total_update<T>(contents: Seq<Seq<T>>, i: int, shard: Seq<T>)
    requires
        0 <= i < contents.len(),
    ensures
        total(contents.update(i, shard)) + contents[i].len() == total(contents) + shard.len(),
    decreases contents.len(),
{
    let after = contents.update(i, shard);
    if i == contents.len() - 1 {
        assert(after.drop_last() =~= contents.drop_last());
    } else {
        assert(after.drop_last() =~= contents.drop_last().update(i, shard));
        lemma_total_update(contents.drop_last(), i, shard);
    }
}

/// `rest` is `whole` without some of its first values.
pub open spec fn is_rest_of<T>(rest: Seq<T>, whole: Seq<T>) -> bool {
    rest.len() <= whole.len() && rest == whole.skip(whole.len() - rest.len())
}

proof fn lemma_burst_order<T>(contents: Seq<Seq<T>>, from: int, to: int, want: int)
    requires
        0 <= want,
        0 <= from,
        to <= contents.len(),
    ensures
        after_burst(contents, from, to, want).len() == contents.len(),
        forall|i: int|
            0 <= i < contents.len() ==> is_rest_of(
                #[trigger] after_burst(contents, from, to, want)[i],
                contents[i],
            ),
        total(after_burst(contents, from, to, want)) + burst(contents, from, to, want).len()
            == total(contents),
    decreases to - from,
{
    if from < to {
        let n = share(contents[from], want);
        let next = contents.update(from, contents[from].skip(n));
        lemma_burst_order(next, from + 1, to, want - n);
        lemma_burst_frame(contents, next, from + 1, to, want - n, 0);
        lemma_total_update(contents, from, contents[from].skip(n));
        let last = after_burst(contents, from, to, want);
        assert forall|i: int| 0 <= i < contents.len() implies is_rest_of(
            #[trigger] last[i],
            contents[i],
        ) by {
            assert(is_rest_of(last[i], next[i]));
            if i == from {
                assert(last[i] =~= contents[i].skip(contents[i].len() - last[i].len()));
            }
        }
    } else {
        assert forall|i: int| 0 <= i < contents.len() implies is_rest_of(
            #[trigger] contents[i],
            contents[i],
        ) by {
            assert(contents[i].skip(0) =~= contents[i]);
        }
    }
}

/// A batch loses nothing and keeps the order of every sender: it takes each
/// shard's oldest values, and what it takes and what is left add up.
pub proof fn law_batch_conserves_values<T>(contents: Seq<Seq<T>>, start: int, size: int)
    requires
        0 <= size,
        0 <= start < contents.len(),
    ensures
        after_round_burst(contents, start, size).len() == contents.len(),
        forall|i: int|
            0 <= i < contents.len() ==> is_rest_of(
                #[trigger] after_round_burst(contents, start, size)[i],
                contents[i],
            ),
        total(after_round_burst(contents, start, size)) + round_burst(contents, start, size).len()
            == total(contents),
        round_burst(contents, start, size).len() <= size,
{
    let shards = contents.len() as int;
    let upper = burst(contents, start, shards, size);
    let middle = after_burst(contents, start, shards, size);
    lemma_burst_bound(contents, start, shards, size);
    lemma_burst_order(contents, start, shards, size);
    lemma_burst_order(middle, 0, start, size - upper.len());
    lemma_burst_bound(middle, 0, start, size - upper.len());
    let last = after_round_burst(contents, start, size);
    assert forall|i: int| 0 <= i < contents.len() implies is_rest_of(
        #[trigger] last[i],
        contents[i],
    ) by {
        assert(is_rest_of(last[i], middle[i]));
        assert(is_rest_of(middle[i], contents[i]));
        assert(last[i] =~= contents[i].skip(contents[i].len() - last[i].len()));
    }
}

/// Where the share of each of the shards `from..to` begins and ends in what a
/// batch takes from them.
#[verifier::spinoff_prover]
#[verifier::rlimit(40)]
proof fn lemma_burst_shares<T>(
    contents: Seq<Seq<T>>,
    from: int,
    to: int,
    want: int,
    otherwise: int,
) -> (shares: Seq<(int, int)>)
    requires
        0 <= want,
        0 <= from < to <= contents.len(),
    ensures
        shares.len() == to - from,
        shares[0].0 == 0,
        shares.last().1 == burst(contents, from, to, want).len(),
        burst(contents, from, to, want).len() <= want,
        after_burst(contents, from, to, want).len() == contents.len(),
        forall|i: int|
            0 <= i < contents.len() && !(from <= i < to) ==> #[trigger] after_burst(
                contents,
                from,
                to,
                want,
            )[i] == contents[i],
        forall|j: int, k: int|
            0 <= j && k == j + 1 && k < to - from ==> (#[trigger] shares[j]).1 == (
            #[trigger] shares[k]).0,
        forall|k: int|
            #![trigger shares[k]]
            0 <= k < to - from ==> {
                let (begin, end) = shares[k];
                let shard = contents[from + k];
                &&& 0 <= begin <= end <= burst(contents, from, to, want).len()
                &&& end - begin <= shard.len()
                &&& burst(contents, from, to, want).subrange(begin, end) == shard.take(end - begin)
                &&& after_burst(contents, from, to, want)[from + k] == shard.skip(end - begin)
                &&& end - begin < shard.len() ==> end == want
            },
        ({
            let cursor = burst_cursor(contents, from, to, want, otherwise);
            if burst(contents, from, to, want).len() == 0 {
                cursor == otherwise
            } else {
                exists|k: int|
                    #![trigger shares[k]]
                    {
                        &&& 0 <= k < to - from
                        &&& shares[k].0 < shares[k].1
                        &&& shares[k].1 == burst(contents, from, to, want).len()
                        &&& cursor == successor(from + k, contents.len() as int)
                    }
            }
        }),
    decreases to - from,
{
    let all = burst(contents, from, to, want);
    let after = after_burst(contents, from, to, want);
    let n = share(contents[from], want);
    let next = contents.update(from, contents[from].skip(n));
    let later = if n > 0 {
        successor(from, contents.len() as int)
    } else {
        otherwise
    };
    let cursor = burst_cursor(contents, from, to, want, otherwise);
    if from + 1 == to {
        let shares = seq![(0, n)];
        assert(burst(contents, to, to, want - n) =~= Seq::<T>::empty());
        assert(all =~= contents[from].take(n));
        assert(after_burst(next, to, to, want - n) == next);
        assert(all.subrange(0, n) =~= contents[from].take(n));
        assert(burst_cursor(contents, to, to, want - n, later) == later);
        assert(shares[0] == (0int, n));
        shares
    } else {
        lemma_burst_frame(contents, next, from + 1, to, want - n, later);
        let rest = lemma_burst_shares(next, from + 1, to, want - n, later);
        let tail = burst(next, from + 1, to, want - n);
        let shares = Seq::new(
            (to - from) as nat,
            |k: int|
                if k == 0 {
                    (0int, n)
                } else {
                    (n + rest[k - 1].0, n + rest[k - 1].1)
                },
        );
        assert(all == contents[from].take(n) + tail);
        assert(after == after_burst(next, from + 1, to, want - n));
        assert(shares.last().1 == n + rest.last().1);
        assert forall|j: int, k: int| 0 <= j && k == j + 1 && k < to - from implies (
        #[trigger] shares[j]).1 == (#[trigger] shares[k]).0 by {
            if j == 0 {
                assert(rest[0].0 == 0);
            } else {
                assert(rest[j - 1].1 == rest[k - 1].0);
            }
        }
        assert forall|k: int|
            #![trigger shares[k]]
            0 <= k < to - from implies {
            let (begin, end) = shares[k];
            let shard = contents[from + k];
            &&& 0 <= begin <= end <= all.len()
            &&& end - begin <= shard.len()
            &&& all.subrange(begin, end) == shard.take(end - begin)
            &&& after[from + k] == shard.skip(end - begin)
            &&& end - begin < shard.len() ==> end == want
        } by {
            if k == 0 {
                assert(all.subrange(0, n) =~= contents[from].take(n));
                assert(after[from] == next[from]);
            } else {
                let (begin, end) = rest[k - 1];
                assert(next[from + k] == contents[from + k]);
                assert(all.subrange(n + begin, n + end) =~= tail.subrange(begin, end));
                assert(from + 1 + (k - 1) == from + k);
            }
        }
        assert forall|i: int|
            0 <= i < contents.len() && !(from <= i < to) implies #[trigger] after[i]
            == contents[i] by {
            assert(after[i] == next[i]);
        }
        assert(cursor == burst_cursor(next, from + 1, to, want - n, later));
        if tail.len() == 0 {
            if n > 0 {
                assert(shares[0].0 < shares[0].1);
            }
        } else {
            let j = choose|j: int|
                #![trigger rest[j]]
                {
                    &&& 0 <= j < to - from - 1
                    &&& rest[j].0 < rest[j].1
                    &&& rest[j].1 == tail.len()
                    &&& cursor == successor(from + 1 + j, contents.len() as int)
                };
            assert(shares[j + 1] == (n + rest[j].0, n + rest[j].1));
        }
        shares
    }
}

/// A batch is made of the oldest values of the shards, those of each shard
/// together and in the order in which they were sent: first those of the shard
/// at which the round starts, then those of the next one, and so on around. The
/// returned pairs say where each shard's values begin and end in the batch, in
/// the order in which the shards are asked.
///
/// A shard keeps what it did not give. It keeps something only where the batch
/// is full, and then no shard behind it gives anything. The next round starts
/// behind the last shard that gave something.
#[verifier::spinoff_prover]
#[verifier::rlimit(40)]
pub proof fn law_a_batch_is_each_shards_oldest_values_in_turn<T>(
    contents: Seq<Seq<T>>,
    start: int,
    size: int,
) -> (shares: Seq<(int, int)>)
    requires
        0 <= size,
        0 <= start < contents.len(),
    ensures
        shares.len() == contents.len(),
        shares[0].0 == 0,
        shares.last().1 == round_burst(contents, start, size).len(),
        round_burst(contents, start, size).len() <= size,
        after_round_burst(contents, start, size).len() == contents.len(),
        forall|j: int, k: int|
            0 <= j && k == j + 1 && k < contents.len() ==> (#[trigger] shares[j]).1 == (
            #[trigger] shares[k]).0,
        forall|k: int|
            #![trigger shares[k]]
            0 <= k < contents.len() ==> {
                let i = if start + k < contents.len() {
                    start + k
                } else {
                    start + k - contents.len()
                };
                let (begin, end) = shares[k];
                &&& 0 <= begin <= end <= round_burst(contents, start, size).len()
                &&& end - begin <= contents[i].len()
                &&& round_burst(contents, start, size).subrange(begin, end) == contents[i].take(
                    end - begin,
                )
                &&& after_round_burst(contents, start, size)[i] == contents[i].skip(end - begin)
                &&& end - begin < contents[i].len() ==> end == size
            },
        round_burst(contents, start, size).len() > 0 ==> exists|k: int|
            #![trigger shares[k]]
            {
                let i = if start + k < contents.len() {
                    start + k
                } else {
                    start + k - contents.len()
                };
                &&& 0 <= k < contents.len()
                &&& shares[k].0 < shares[k].1
                &&& shares[k].1 == round_burst(contents, start, size).len()
                &&& round_burst_cursor(contents, start, size) == (if i + 1 < contents.len() {
                    i + 1
                } else {
                    0
                })
            },
{
    let shards = contents.len() as int;
    let upper = burst(contents, start, shards, size);
    let middle = after_burst(contents, start, shards, size);
    let behind = burst_cursor(contents, start, shards, size, successor(start, shards));
    let high = lemma_burst_shares(contents, start, shards, size, successor(start, shards));
    let want = size - upper.len();
    let lower = burst(middle, 0, start, want);
    let all = round_burst(contents, start, size);
    let last = after_round_burst(contents, start, size);
    let cursor = round_burst_cursor(contents, start, size);
    if start == 0 {
        assert(lower =~= Seq::<T>::empty());
        assert(all =~= upper);
        assert(last == middle);
        assert(cursor == behind);
        if all.len() > 0 {
            let k = choose|k: int|
                #![trigger high[k]]
                {
                    &&& 0 <= k < shards - start
                    &&& high[k].0 < high[k].1
                    &&& high[k].1 == upper.len()
                    &&& behind == successor(start + k, shards)
                };
            assert(high[k].0 < high[k].1);
        }
        high
    } else {
        let low = lemma_burst_shares(middle, 0, start, want, behind);
        let shares = Seq::new(
            shards as nat,
            |k: int|
                if k < shards - start {
                    high[k]
                } else {
                    (
                        upper.len() + low[k - (shards - start)].0,
                        upper.len() + low[k - (shards - start)].1,
                    )
                },
        );
        assert(all == upper + lower);
        assert(shares[0] == high[0]);
        assert(shares.last().1 == upper.len() + low.last().1);
        assert forall|j: int, k: int| 0 <= j && k == j + 1 && k < shards implies (
        #[trigger] shares[j]).1 == (#[trigger] shares[k]).0 by {
            if k < shards - start {
                assert(high[j].1 == high[k].0);
            } else if j >= shards - start {
                assert(low[j - (shards - start)].1 == low[k - (shards - start)].0);
            } else {
                assert(high[j] == high.last());
                assert(low[k - (shards - start)] == low[0]);
            }
        }
        assert forall|k: int|
            #![trigger shares[k]]
            0 <= k < shards implies {
            let i = if start + k < shards {
                start + k
            } else {
                start + k - shards
            };
            let (begin, end) = shares[k];
            &&& 0 <= begin <= end <= all.len()
            &&& end - begin <= contents[i].len()
            &&& all.subrange(begin, end) == contents[i].take(end - begin)
            &&& last[i] == contents[i].skip(end - begin)
            &&& end - begin < contents[i].len() ==> end == size
        } by {
            if k < shards - start {
                let (begin, end) = high[k];
                assert(all.subrange(begin, end) =~= upper.subrange(begin, end));
                assert(last[start + k] == middle[start + k]);
            } else {
                let j = k - (shards - start);
                let (begin, end) = low[j];
                let base = upper.len() as int;
                assert(middle[j] == contents[j]);
                assert(0 + j == start + k - shards);
                assert(all.subrange(base + begin, base + end) =~= lower.subrange(begin, end));
            }
        }
        if all.len() > 0 {
            if lower.len() > 0 {
                let j = choose|j: int|
                    #![trigger low[j]]
                    {
                        &&& 0 <= j < start
                        &&& low[j].0 < low[j].1
                        &&& low[j].1 == lower.len()
                        &&& cursor == successor(0 + j, shards)
                    };
                assert(shares[j + shards - start] == (upper.len() + low[j].0, upper.len()
                    + low[j].1));
            } else {
                let k = choose|k: int|
                    #![trigger high[k]]
                    {
                        &&& 0 <= k < shards - start
                        &&& high[k].0 < high[k].1
                        &&& high[k].1 == upper.len()
                        &&& behind == successor(start + k, shards)
                    };
                assert(shares[k] == high[k]);
            }
        }
        shares
    }
}

/// One value comes from the first shard that holds one, counted from the start
/// of the round and around: all shards that were asked before it are empty.
pub proof fn law_one_value_comes_from_the_next_full_shard<T>(
    contents: Seq<Seq<T>>,
    start: int,
    k: int,
)
    requires
        0 <= start < contents.len(),
        0 <= k < contents.len(),
        forall|j: int|
            0 <= j < k ==> contents[#[trigger] ((start + j) % contents.len() as int)].len() == 0,
        contents[(start + k) % contents.len() as int].len() > 0,
    ensures
        round(contents, start) == Some((start + k) % contents.len() as int),
{
    let shards = contents.len() as int;
    lemma_first_full(contents, start, shards);
    lemma_first_full(contents, 0, start);
    let found = round(contents, start);
    if start + k < shards {
        assert((start + k) % shards == start + k) by (nonlinear_arith)
            requires
                0 <= start + k < shards,
        ;
    } else {
        assert((start + k) % shards == start + k - shards) by (nonlinear_arith)
            requires
                shards <= start + k < 2 * shards,
        ;
    }
    let at = (start + k) % shards;
    assert(contents[at].len() > 0);
    let i = found->0;
    let j = if i >= start {
        i - start
    } else {
        i + shards - start
    };
    if i >= start {
        assert((start + j) % shards == i) by (nonlinear_arith)
            requires
                0 <= start + j < shards,
                start + j == i,
        ;
    } else {
        assert((start + j) % shards == i) by (nonlinear_arith)
            requires
                shards <= start + j < 2 * shards,
                start + j == i + shards,
        ;
    }
    if j < k {
        assert(contents[(start + j) % shards].len() == 0);
    }
}

/// An empty channel gives an empty batch.
proof fn lemma_no_burst<T>(contents: Seq<Seq<T>>, start: int, size: int)
    requires
        0 < size,
        0 <= start < contents.len(),
        forall|i: int| 0 <= i < contents.len() ==> #[trigger] contents[i].len() == 0,
    ensures
        round_burst(contents, start, size).len() == 0,
{
    lemma_no_burst_range(contents, start, contents.len() as int, size);
    lemma_no_burst_range(contents, 0, start, size);
}

proof fn lemma_no_burst_range<T>(contents: Seq<Seq<T>>, from: int, to: int, want: int)
    requires
        0 < want,
        0 <= from,
        to <= contents.len(),
        forall|i: int| from <= i < to ==> #[trigger] contents[i].len() == 0,
    ensures
        burst(contents, from, to, want).len() == 0,
        after_burst(contents, from, to, want) == contents,
    decreases to - from,
{
    if from < to {
        assert(contents[from].skip(0) =~= contents[from]);
        assert(contents.update(from, contents[from].skip(0)) =~= contents);
        lemma_no_burst_range(contents, from + 1, to, want);
    }
}

/// A round starts where the one before it left off, as long as the channel has
/// that shard, and else at the first one; and it is always one of the shards.
pub proof fn law_where_a_round_starts<T>(receiver: &Receiver, core: &Core<T>)
    requires
        core.contents().len() > 0,
        receiver.position() matches Some(shard) ==> 0 <= shard,
    ensures
        0 <= receiver.start(core) < core.contents().len(),
        receiver.position() is Some && receiver.position()->0 < core.contents().len()
            ==> receiver.start(core) == receiver.position()->0,
        receiver.position() is Some && receiver.position()->0 >= core.contents().len()
            ==> receiver.start(core) == 0,
        receiver.position() is None ==> receiver.start(core) == 0,
{
}

} // verus!
