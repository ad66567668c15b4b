//! One attempt to receive, shard by shard. Between two steps other threads may
//! send, close and receive.
use vstd::arithmetic::div_mod::lemma_mod_bound;
use vstd::prelude::*;

use crate::kfifo::lubq::{share, successor, Core, Receiver, TryRecvError};

verus! {

/// How far an attempt has come: the round that it makes, and the shards that
/// it has asked in it. A first round that found nothing is followed by a second
/// one if there was no sender left behind it.
pub struct Attempt {
    start: usize,
    shards: usize,
    asked: usize,
    second: bool,
}

/// What a step brings.
pub enum Progress<T> {
    /// The attempt is over.
    Over(Result<T, TryRecvError>),
    /// There is more to ask.
    Again,
}

/// No shard holds a value.
pub open spec fn nothing_waits<T>(contents: Seq<Seq<T>>) -> bool {
    forall|i: int| 0 <= i < contents.len() ==> #[trigger] contents[i].len() == 0
}

impl Attempt {
    /// Where the round starts.
    pub closed spec fn start(&self) -> int {
        self.start as int
    }

    /// The shards that the round goes over.
    pub closed spec fn shards(&self) -> int {
        self.shards as int
    }

    /// How many of them have been asked.
    pub closed spec fn asked(&self) -> int {
        self.asked as int
    }

    /// The round is the one behind the last sender.
    pub closed spec fn second(&self) -> bool {
        self.second
    }

    /// The shard that is asked when `n` have been.
    pub open spec fn shard(&self, n: int) -> int {
        (self.start() + n) % self.shards()
    }

    /// The attempt goes over shards of the channel.
    pub open spec fn is_within<T>(&self, core: &Core<T>) -> bool {
        &&& 0 <= self.start() < self.shards() <= core.contents().len()
        &&& 0 <= self.asked() <= self.shards()
    }

    /// There is no sender, and what has been asked is empty.
    pub open spec fn is_last_look<T>(&self, core: &Core<T>) -> bool {
        &&& core.sender_count() == 0
        &&& self.shards() == core.contents().len()
        &&& forall|n: int|
            0 <= n < self.asked() ==> core.contents()[#[trigger] self.shard(n)].len() == 0
    }

    /// The attempt goes over shards of the channel, and a second round is a
    /// last look.
    pub open spec fn fits<T>(&self, core: &Core<T>) -> bool {
        &&& self.is_within(core)
        &&& self.second() ==> self.is_last_look(core)
    }

    fn next_shard(&self) -> (shard: usize)
        requires
            0 <= self.start() < self.shards(),
            0 <= self.asked() < self.shards(),
        ensures
            shard == self.shard(self.asked()),
            shard < self.shards(),
    {
        proof {
            lemma_around(self.start as int, self.asked as int, self.shards as int);
        }
        let before: usize = self.shards - self.start;
        if self.asked < before {
            self.start + self.asked
        } else {
            self.asked - before
        }
    }

    /// Goes on behind a shard that has been asked.
    fn pass<T>(&mut self, core: &Core<T>)
        requires
            old(self).asked() < old(self).shards(),
        ensures
            final(self).asked() == old(self).asked() + 1,
            final(self).start() == old(self).start(),
            final(self).shards() == old(self).shards(),
            final(self).second() == old(self).second(),
            old(self).fits(core) && core.contents()[old(self).shard(old(self).asked())].len() == 0
                ==> final(self).fits(core),
    {
        self.asked = self.asked + 1;
        proof {
            if old(self).fits(core) && core.contents()[old(self).shard(old(self).asked())].len()
                == 0 {
                assert forall|n: int|
                    self.second() && 0 <= n < self.asked() implies core.contents()[
                #[trigger] self.shard(n)].len() == 0 by {
                    assert(self.shard(n) == old(self).shard(n));
                }
            }
        }
    }

    /// Ends a round that found nothing.
    fn close_round<T>(&mut self, receiver: &mut Receiver, core: &Core<T>) -> (failure: Option<
        TryRecvError,
    >)
        requires
            core.wf(),
            old(self).fits(core),
            old(self).asked() == old(self).shards(),
        ensures
            final(self).fits(core),
            final(receiver).position() == Some(
                successor(old(self).start(), core.contents().len() as int),
            ),
            failure == Some(TryRecvError::Disconnected) ==> core.sender_count() == 0
                && nothing_waits(core.contents()),
            if old(self).second() {
                failure == Some(TryRecvError::Disconnected) && *final(self) == *old(self)
            } else if core.sender_count() != 0 {
                failure == Some(TryRecvError::Empty) && *final(self) == *old(self)
            } else {
                &&& failure is None
                &&& final(self).second()
                &&& final(self).asked() == 0
                &&& final(self).shards() == core.contents().len()
                &&& final(self).start() == final(receiver).start(core)
            },
    {
        receiver.move_behind(core, self.start);
        if self.second {
            proof {
                law_the_end_leaves_nothing(self, core);
            }
            return Some(TryRecvError::Disconnected);
        }
        if core.senders() != 0 {
            return Some(TryRecvError::Empty);
        }
        self.start = receiver.next_start(core);
        self.shards = core.routed_len();
        self.asked = 0;
        self.second = true;
        None
    }

    /// Begins an attempt.
    pub fn new<T>(receiver: &Receiver, core: &Core<T>) -> (attempt: Attempt)
        requires
            core.wf(),
        ensures
            attempt.fits(core),
            attempt.start() == receiver.start(core),
            attempt.shards() == core.contents().len(),
            attempt.asked() == 0,
            !attempt.second(),
    {
        let start: usize = receiver.next_start(core);
        Attempt { start, shards: core.routed_len(), asked: 0, second: false }
    }

    /// Asks the next shard. Behind the last one of a round it looks for
    /// senders: with one left the channel is only empty, and with none left a
    /// second round settles whether something was sent behind the first.
    pub fn step<T>(&mut self, receiver: &mut Receiver, core: &mut Core<T>) -> (progress: Progress<T>)
        requires
            old(core).wf(),
            old(self).fits(old(core)),
        ensures
            final(core).wf(),
            final(core).continues(old(core)),
            final(core).length() == old(core).length(),
            final(core).active() == old(core).active(),
            final(core).same_space(old(core)),
            final(core).sender_count() == old(core).sender_count(),
            final(self).fits(final(core)),
            progress == Progress::Over(Err::<T, TryRecvError>(TryRecvError::Disconnected)) ==> {
                &&& final(core).sender_count() == 0
                &&& nothing_waits(final(core).contents())
            },
            ({
                let shard = old(self).shard(old(self).asked());
                let contents = old(core).contents();
                let shards = contents.len() as int;
                if old(self).asked() < old(self).shards() && contents[shard].len() > 0 {
                    &&& progress == Progress::Over(Ok::<T, TryRecvError>(contents[shard][0]))
                    &&& final(core).contents() == contents.update(shard, contents[shard].skip(1))
                    &&& final(receiver).position() == Some(successor(shard, shards))
                } else if old(self).asked() < old(self).shards() {
                    &&& progress is Again
                    &&& final(core).contents() == contents
                    &&& *final(receiver) == *old(receiver)
                    &&& final(self).asked() == old(self).asked() + 1
                    &&& final(self).start() == old(self).start()
                    &&& final(self).shards() == old(self).shards()
                    &&& final(self).second() == old(self).second()
                } else {
                    &&& final(core).contents() == contents
                    &&& final(receiver).position() == Some(successor(old(self).start(), shards))
                    &&& if old(self).second() {
                        progress == Progress::Over(Err::<T, TryRecvError>(TryRecvError::Disconnected))
                    } else if old(core).sender_count() != 0 {
                        progress == Progress::Over(Err::<T, TryRecvError>(TryRecvError::Empty))
                    } else {
                        &&& progress is Again
                        &&& final(self).second()
                        &&& final(self).asked() == 0
                        &&& final(self).shards() == shards
                        &&& final(self).start() == final(receiver).start(final(core))
                    }
                }
            }),
    {
        if self.asked < self.shards {
            let shard: usize = self.next_shard();
            match core.pop_from(shard) {
                Some(value) => {
                    receiver.move_behind(core, shard);
                    proof {
                        law_an_attempt_can_go_on(self, old(core), core);
                    }
                    return Progress::Over(Ok(value));
                },
                None => {
                    self.pass(core);
                    return Progress::Again;
                },
            }
        }
        match self.close_round(receiver, core) {
            Some(failure) => Progress::Over(Err(failure)),
            None => Progress::Again,
        }
    }
}

/// Going around from `start`, `n` places on.
proof fn lemma_around(start: int, n: int, shards: int)
    requires
        0 <= start < shards,
        0 <= n < shards,
    ensures
        (start + n) % shards == (if n < shards - start {
            start + n
        } else {
            n - (shards - start)
        }),
{
    if n < shards - start {
        vstd::arithmetic::div_mod::lemma_small_mod((start + n) as nat, shards as nat);
    } else {
        vstd::arithmetic::div_mod::lemma_fundamental_div_mod_converse(
            start + n,
            shards,
            1,
            start + n - shards,
        );
    }
}

/// Whatever other threads do in between, an attempt still fits the channel.
pub proof fn law_an_attempt_can_go_on<T>(attempt: &Attempt, before: &Core<T>, after: &Core<T>)
    requires
        attempt.fits(before),
        after.continues(before),
    ensures
        attempt.fits(after),
{
    if attempt.second() {
        assert forall|n: int| 0 <= n < attempt.asked() implies after.contents()[
        #[trigger] attempt.shard(n)].len() == 0 by {
            lemma_mod_bound(attempt.start() + n, attempt.shards());
            let shard = attempt.shard(n);
            assert(before.contents()[shard].len() == 0);
            assert(after.contents()[shard].is_suffix_of(before.contents()[shard]));
        }
    }
}

/// What a channel has come through in two stretches it has come through.
pub proof fn law_histories_join<T>(first: &Core<T>, second: &Core<T>, third: &Core<T>)
    requires
        second.continues(first),
        third.continues(second),
    ensures
        third.continues(first),
{
    if first.sender_count() == 0 {
        assert forall|i: int| 0 <= i < first.contents().len() implies (
        #[trigger] third.contents()[i]).is_suffix_of(first.contents()[i]) by {
            let a = first.contents()[i];
            let b = second.contents()[i];
            let c = third.contents()[i];
            assert(b.is_suffix_of(a));
            assert(c.is_suffix_of(b));
            assert(c =~= a.subrange(a.len() - c.len(), a.len() as int));
        }
    }
}

/// The last send is not missed: an attempt that is about to report the end of
/// the channel leaves nothing behind. There is no sender, and no shard holds a
/// value.
pub proof fn law_the_end_leaves_nothing<T>(attempt: &Attempt, core: &Core<T>)
    requires
        attempt.fits(core),
        attempt.second(),
        attempt.asked() == attempt.shards(),
    ensures
        core.sender_count() == 0,
        nothing_waits(core.contents()),
{
    assert forall|i: int| 0 <= i < core.contents().len() implies #[trigger] core.contents()[i].len()
        == 0 by {
        let n = if i >= attempt.start() {
            i - attempt.start()
        } else {
            i + attempt.shards() - attempt.start()
        };
        lemma_around(attempt.start(), n, attempt.shards());
        assert(attempt.shard(n) == i);
    }
}

/// How far an attempt to receive a batch has come.
pub struct BatchAttempt {
    round: Attempt,
    received: usize,
    size: usize,
}

impl BatchAttempt {
    /// The round that it makes.
    pub closed spec fn round(&self) -> Attempt {
        self.round
    }

    /// How many values it has received.
    pub closed spec fn received(&self) -> int {
        self.received as int
    }

    /// How many values it wants.
    pub closed spec fn size(&self) -> int {
        self.size as int
    }

    /// The attempt goes over shards of the channel, and a second round that has
    /// received nothing is a last look.
    pub open spec fn fits<T>(&self, core: &Core<T>) -> bool {
        &&& 0 <= self.received() <= self.size()
        &&& 0 < self.size()
        &&& self.round().is_within(core)
        &&& self.received() == 0 ==> self.round().fits(core)
    }

    /// Begins an attempt for up to `size` values.
    pub fn new<T>(receiver: &Receiver, core: &Core<T>, size: usize) -> (attempt: BatchAttempt)
        requires
            core.wf(),
            size > 0,
        ensures
            attempt.fits(core),
            attempt.received() == 0,
            attempt.size() == size,
            attempt.round().start() == receiver.start(core),
            attempt.round().shards() == core.contents().len(),
            attempt.round().asked() == 0,
            !attempt.round().second(),
    {
        BatchAttempt { round: Attempt::new(receiver, core), received: 0, size }
    }

    /// Asks the next shard for what is still wanted. A batch that has received
    /// something is over behind its round, or when it is full; one that has
    /// received nothing goes on as an attempt for one value does.
    pub fn step<T>(
        &mut self,
        receiver: &mut Receiver,
        core: &mut Core<T>,
        values: &mut Vec<T>,
    ) -> (progress: Progress<usize>)
        requires
            old(core).wf(),
            old(self).fits(old(core)),
        ensures
            final(core).wf(),
            final(core).continues(old(core)),
            final(core).length() == old(core).length(),
            final(core).active() == old(core).active(),
            final(core).same_space(old(core)),
            final(core).sender_count() == old(core).sender_count(),
            final(self).fits(final(core)),
            final(self).size() == old(self).size(),
            progress == Progress::Over(Err::<usize, TryRecvError>(TryRecvError::Disconnected)) ==> {
                &&& final(core).sender_count() == 0
                &&& nothing_waits(final(core).contents())
            },
            ({
                let round = old(self).round();
                let shard = round.shard(round.asked());
                let contents = old(core).contents();
                let shards = contents.len() as int;
                let count = share(contents[shard], old(self).size() - old(self).received());
                if old(self).received() < old(self).size() && round.asked() < round.shards() {
                    &&& progress is Again
                    &&& final(values)@ == old(values)@ + contents[shard].take(count)
                    &&& final(core).contents() == contents.update(shard, contents[shard].skip(count))
                    &&& final(self).received() == old(self).received() + count
                    &&& final(self).round().asked() == round.asked() + 1
                    &&& final(self).round().start() == round.start()
                    &&& final(self).round().shards() == round.shards()
                    &&& final(self).round().second() == round.second()
                    &&& if count > 0 {
                        final(receiver).position() == Some(successor(shard, shards))
                    } else {
                        *final(receiver) == *old(receiver)
                    }
                } else {
                    &&& final(values)@ == old(values)@
                    &&& final(core).contents() == contents
                    &&& final(self).received() == old(self).received()
                    &&& if old(self).received() > 0 {
                        &&& progress is Over
                        &&& progress->Over_0 is Ok
                        &&& progress->Over_0->Ok_0 == old(self).received()
                        &&& *final(receiver) == *old(receiver)
                    } else {
                        &&& final(receiver).position() == Some(successor(round.start(), shards))
                        &&& if round.second() {
                            progress == Progress::Over(
                                Err::<usize, TryRecvError>(TryRecvError::Disconnected),
                            )
                        } else if old(core).sender_count() != 0 {
                            progress == Progress::Over(
                                Err::<usize, TryRecvError>(TryRecvError::Empty),
                            )
                        } else {
                            &&& progress is Again
                            &&& final(self).round().second()
                            &&& final(self).round().asked() == 0
                            &&& final(self).round().shards() == shards
                            &&& final(self).round().start() == final(receiver).start(final(core))
                        }
                    }
                }
            }),
    {
        if self.received < self.size && self.round.asked < self.round.shards {
            let shard: usize = self.round.next_shard();
            let count: usize = core.pop_batch_from(shard, self.size - self.received, values);
            if count > 0 {
                receiver.move_behind(core, shard);
            }
            proof {
                if self.received() + count == 0 {
                    law_an_attempt_can_go_on(&self.round(), old(core), core);
                }
            }
            self.round.pass(core);
            self.received = self.received + count;
            return Progress::Again;
        }
        if self.received > 0 {
            return Progress::Over(Ok(self.received));
        }
        match self.round.close_round(receiver, core) {
            Some(failure) => Progress::Over(Err(failure)),
            None => Progress::Again,
        }
    }
}

/// Whatever other threads do in between, an attempt still fits the channel.
pub proof fn law_a_batch_attempt_can_go_on<T>(
    attempt: &BatchAttempt,
    before: &Core<T>,
    after: &Core<T>,
)
    requires
        attempt.fits(before),
        after.continues(before),
    ensures
        attempt.fits(after),
{
    if attempt.received() == 0 {
        law_an_attempt_can_go_on(&attempt.round(), before, after);
    }
}

} // verus!
