//! A queue whose consumers sleep while it is empty.
//!
//! The wrapped queue never blocks. What blocks is the caller: a pop that finds
//! nothing waits for a push and asks again, under the lock that pushes take.
use crossbeam_queue::SegQueue;
use std::sync::Arc;
use vstd::prelude::*;

use crate::inner::I;
use crate::sleepers::{Sleeper, Stage};

verus! {

/// Queue operations that return at once.
pub trait NonBlockingQueue<T>: Sized {
    /// The values in the queue, oldest first.
    spec fn contents(&self) -> Seq<T>;

    /// The queue is in a consistent state.
    spec fn ready(&self) -> bool;

    /// Creates a new, empty queue.
    fn new() -> (queue: Self)
        ensures
            queue.ready(),
            queue.contents() == Seq::<T>::empty(),
    ;

    /// Whether the queue contains no values.
    fn is_empty(&self) -> (empty: bool)
        requires
            self.ready(),
        ensures
            empty == (self.contents().len() == 0),
    ;

    /// Removes and returns the front value, if there is one.
    fn pop(&mut self) -> (value: Option<T>)
        requires
            old(self).ready(),
        ensures
            final(self).ready(),
            if old(self).contents().len() == 0 {
                value is None && final(self).contents() == old(self).contents()
            } else {
                value == Some(old(self).contents()[0]) && final(self).contents() == old(
                    self,
                ).contents().skip(1)
            },
    ;

    /// Pushes `val` onto the back of the queue.
    fn push(&mut self, val: T)
        requires
            old(self).ready(),
        ensures
            final(self).ready(),
            final(self).contents() == old(self).contents().push(val),
    ;
}

impl<T> NonBlockingQueue<T> for I<T> {
    open spec fn contents(&self) -> Seq<T> {
        self.waiting()
    }

    open spec fn ready(&self) -> bool {
        self.wf() && self.quiet()
    }

    fn new() -> (queue: Self) {
        I::new()
    }

    fn is_empty(&self) -> (empty: bool) {
        I::is_empty(self)
    }

    fn pop(&mut self) -> (value: Option<T>) {
        I::pop(self)
    }

    fn push(&mut self, val: T) {
        I::push(self, val)
    }
}

/// `crossbeam_queue::SegQueue`, a linked queue of segments.
#[verifier::external_type_specification]
#[verifier::external_body]
#[verifier::reject_recursive_types(T)]
pub struct ExSegQueue<T>(SegQueue<T>);

/// The values in a `SegQueue`, oldest first.
pub uninterp spec fn seg_contents(queue: SegQueue<u64>) -> Seq<u64>;

/// `SegQueue::new`: the new queue holds nothing.
#[verifier::external_body]
pub(crate) fn seg_new() -> (queue: SegQueue<u64>)
    ensures
        seg_contents(queue) == Seq::<u64>::empty(),
{
    SegQueue::new()
}

/// `SegQueue::push`, on a queue that nobody else uses meanwhile: the value goes
/// to the back.
#[verifier::external_body]
pub(crate) fn seg_push(queue: &mut SegQueue<u64>, value: u64)
    ensures
        seg_contents(*final(queue)) == seg_contents(*old(queue)).push(value),
{
    SegQueue::push(queue, value)
}

/// `SegQueue::pop`, on a queue that nobody else uses meanwhile: the front value
/// leaves, if there is one.
#[verifier::external_body]
pub(crate) fn seg_pop(queue: &mut SegQueue<u64>) -> (value: Option<u64>)
    ensures
        if seg_contents(*old(queue)).len() == 0 {
            value is None && seg_contents(*final(queue)) == seg_contents(*old(queue))
        } else {
            value == Some(seg_contents(*old(queue))[0]) && seg_contents(*final(queue))
                == seg_contents(*old(queue)).skip(1)
        },
{
    SegQueue::pop(queue)
}

/// `SegQueue::is_empty`: whether there is no value.
#[verifier::external_body]
pub(crate) fn seg_is_empty(queue: &SegQueue<u64>) -> (empty: bool)
    ensures
        empty == (seg_contents(*queue).len() == 0),
{
    SegQueue::is_empty(queue)
}

impl NonBlockingQueue<u64> for SegQueue<u64> {
    open spec fn contents(&self) -> Seq<u64> {
        seg_contents(*self)
    }

    open spec fn ready(&self) -> bool {
        true
    }

    fn new() -> (queue: Self) {
        seg_new()
    }

    fn is_empty(&self) -> (empty: bool) {
        seg_is_empty(self)
    }

    fn pop(&mut self) -> (value: Option<u64>) {
        seg_pop(self)
    }

    fn push(&mut self, val: u64) {
        seg_push(self, val)
    }
}

/// A blocking wrapper around a queue that does not block.
pub struct SleepQ<Q> {
    queue: Q,
}

impl<Q> SleepQ<Q> {
    /// The wrapped queue.
    pub closed spec fn inner(&self) -> Q {
        self.queue
    }

    /// Creates a new, empty sleeping queue.
    pub fn new<T>() -> (queue: Self) where Q: NonBlockingQueue<T>
        ensures
            queue.inner().ready(),
            queue.inner().contents() == Seq::<T>::empty(),
    {
        Self::from_queue(Q::new())
    }

    /// Creates a new, empty sleeping queue to be shared.
    pub fn new_arc<T>() -> (queue: Arc<Self>) where Q: NonBlockingQueue<T>
        ensures
            queue.inner().ready(),
            queue.inner().contents() == Seq::<T>::empty(),
    {
        Arc::new(Self::new())
    }

    /// Wraps an existing queue.
    pub fn from_queue(queue: Q) -> (wrapped: Self)
        ensures
            wrapped.inner() == queue,
    {
        SleepQ { queue }
    }

    /// Returns the wrapped queue.
    pub fn into_inner(self) -> (queue: Q)
        ensures
            queue == self.inner(),
    {
        self.queue
    }

    /// Whether the wrapped queue contains no values.
    pub fn is_empty<T>(&self) -> (empty: bool) where Q: NonBlockingQueue<T>
        requires
            self.inner().ready(),
        ensures
            empty == (self.inner().contents().len() == 0),
    {
        self.queue.is_empty()
    }

    /// Removes the front value, if there is one. Never sleeps.
    pub fn try_pop<T>(&mut self) -> (value: Option<T>) where Q: NonBlockingQueue<T>
        requires
            old(self).inner().ready(),
        ensures
            final(self).inner().ready(),
            if old(self).inner().contents().len() == 0 {
                value is None && final(self).inner().contents() == old(self).inner().contents()
            } else {
                value == Some(old(self).inner().contents()[0]) && final(self).inner().contents()
                    == old(self).inner().contents().skip(1)
            },
    {
        self.queue.pop()
    }

    /// The next step of a blocking pop: a try to take the front value, or a
    /// look that sends the caller to sleep exactly when the queue is empty.
    pub fn step<T>(&mut self, sleeper: &mut Sleeper) -> (value: Option<T>) where
        Q: NonBlockingQueue<T>,

        requires
            old(self).inner().ready(),
            old(sleeper).is_awake(),
        ensures
            final(self).inner().ready(),
            ({
                let contents = old(self).inner().contents();
                if old(sleeper).stage == Stage::Looking {
                    &&& value is None
                    &&& final(self).inner().contents() == contents
                    &&& final(sleeper).stage == (if contents.len() == 0 {
                        Stage::Asleep
                    } else {
                        Stage::Trying
                    })
                } else if contents.len() == 0 {
                    &&& value is None
                    &&& final(self).inner().contents() == contents
                    &&& final(sleeper).stage == Stage::Looking
                } else {
                    &&& value == Some(contents[0])
                    &&& final(self).inner().contents() == contents.skip(1)
                    &&& final(sleeper).stage == Stage::Served
                }
            }),
    {
        if sleeper.stage == Stage::Looking {
            sleeper.looked(self.queue.is_empty());
            None
        } else {
            let value = self.queue.pop();
            sleeper.tried(value.is_some());
            value
        }
    }

    /// Removes the front value of a queue that has one, which is when a
    /// blocking pop returns.
    pub fn pop<T>(&mut self) -> (value: T) where Q: NonBlockingQueue<T>
        requires
            old(self).inner().ready(),
            old(self).inner().contents().len() > 0,
        ensures
            final(self).inner().ready(),
            value == old(self).inner().contents()[0],
            final(self).inner().contents() == old(self).inner().contents().skip(1),
    {
        self.queue.pop().unwrap()
    }

    /// Pushes `val` onto the back. The caller then wakes one sleeping consumer.
    pub fn push<T>(&mut self, val: T) where Q: NonBlockingQueue<T>
        requires
            old(self).inner().ready(),
        ensures
            final(self).inner().ready(),
            final(self).inner().contents() == old(self).inner().contents().push(val),
    {
        self.queue.push(val);
    }
}

} // verus!
