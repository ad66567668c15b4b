//! Blocks of slots.
use vstd::prelude::*;

use crate::dynamic::heads::MAX_BLOCK_LENGTH;
use crate::dynamic::slot::Slot;
use crate::queue::{count, lemma_count_bound, lemma_count_set};

verus! {

/// A block: its slots, how many of them have been read, and its successor.
pub struct Block<T> {
    consumed: usize,
    slots: Vec<Slot<T>>,
    next: Option<usize>,
    /// Which slots have been read.
    read: Ghost<Seq<bool>>,
}

impl<T> Block<T> {
    pub closed spec fn slots(&self) -> Seq<Slot<T>> {
        self.slots@
    }

    /// The successor.
    pub closed spec fn link(&self) -> Option<usize> {
        self.next
    }

    /// Which slots have been read.
    pub closed spec fn flags(&self) -> Seq<bool> {
        self.read@
    }

    pub closed spec fn wf(&self) -> bool {
        &&& 1 <= self.slots@.len() <= MAX_BLOCK_LENGTH
        &&& self.read@.len() == self.slots@.len()
        &&& self.consumed == count(self.read@)
    }

    /// Every slot is free and none has been read.
    pub open spec fn blank(&self) -> bool {
        &&& self.wf()
        &&& self.flags().len() == self.slots().len()
        &&& 1 <= self.slots().len() <= MAX_BLOCK_LENGTH
        &&& forall|i: int| 0 <= i < self.slots().len() ==> (#[trigger] self.slots()[i]).fresh()
        &&& forall|i: int| 0 <= i < self.slots().len() ==> !#[trigger] self.flags()[i]
    }

    /// A block with all slots free.
    pub fn new(size: usize) -> (block: Self)
        requires
            1 <= size <= MAX_BLOCK_LENGTH,
        ensures
            block.blank(),
            block.slots().len() == size,
            block.link() is None,
    {
        let mut slots: Vec<Slot<T>> = Vec::new();
        let mut made: usize = 0;
        while made < size
            invariant
                made <= size,
                slots@.len() == made,
                forall|i: int| 0 <= i < made ==> (#[trigger] slots@[i]).fresh(),
            decreases size - made,
        {
            slots.push(Slot::new());
            made = made + 1;
        }
        let ghost read = Seq::new(size as nat, |i: int| false);
        proof {
            lemma_count_bound(read);
        }
        Block { consumed: 0, slots, next: None, read: Ghost(read) }
    }

    /// Clears the count, the successor and every slot.
    pub fn reset(&mut self)
        requires
            old(self).wf(),
        ensures
            final(self).blank(),
            final(self).slots().len() == old(self).slots().len(),
            final(self).link() is None,
    {
        self.consumed = 0;
        self.next = None;
        let len: usize = self.slots.len();
        let mut i: usize = 0;
        while i < len
            invariant
                i <= len,
                len == self.slots@.len(),
                len == old(self).slots@.len(),
                self.consumed == 0,
                self.next is None,
                forall|j: int| 0 <= j < i ==> (#[trigger] self.slots@[j]).fresh(),
            decreases len - i,
        {
            self.slots[i].reset();
            i = i + 1;
        }
        let ghost read = Seq::new(len as nat, |i: int| false);
        proof {
            lemma_count_bound(read);
        }
        self.read = Ghost(read);
    }

    /// Frees the slots.
    pub fn clear(&mut self)
        ensures
            final(self).slots().len() == 0,
    {
        self.slots = Vec::new();
    }

    pub fn len(&self) -> (len: usize)
        ensures
            len == self.slots().len(),
    {
        self.slots.len()
    }

    pub fn next(&self) -> (next: Option<usize>)
        ensures
            next == self.link(),
    {
        self.next
    }

    /// How many slots have been read.
    pub fn consumed(&self) -> (consumed: usize)
        requires
            self.wf(),
        ensures
            consumed == count(self.flags()),
    {
        self.consumed
    }

    pub fn set_next(&mut self, next: Option<usize>)
        ensures
            final(self).slots() == old(self).slots(),
            final(self).flags() == old(self).flags(),
            final(self).wf() == old(self).wf(),
            final(self).link() == next,
    {
        self.next = next;
    }

    /// Writes a slot, or skips it.
    pub fn write(&mut self, index: usize, value: Option<T>)
        requires
            old(self).wf(),
            index < old(self).slots().len(),
            old(self).slots()[index as int].fresh(),
        ensures
            final(self).wf(),
            final(self).slots().len() == old(self).slots().len(),
            final(self).slots()[index as int].holds(value),
            forall|i: int|
                0 <= i < old(self).slots().len() && i != index ==> #[trigger] final(self).slots()[i] == old(self).slots()[i],
            final(self).flags() == old(self).flags(),
            final(self).link() == old(self).link(),
    {
        self.slots[index].write_opt(value);
    }

    /// Whether a slot is neither written nor skipped.
    pub fn is_fresh(&self, index: usize) -> (fresh: bool)
        requires
            index < self.slots().len(),
            self.slots()[index as int].fresh() || exists|value: Option<T>|
                self.slots()[index as int].holds(value),
        ensures
            fresh == self.slots()[index as int].fresh(),
    {
        self.slots[index].is_fresh()
    }

    /// Reads a slot and counts it; tells whether it was the last one.
    pub fn take(&mut self, index: usize) -> (taken: (Option<T>, bool))
        requires
            old(self).wf(),
            index < old(self).slots().len(),
            !old(self).flags()[index as int],
            exists|value: Option<T>| old(self).slots()[index as int].holds(value),
        ensures
            final(self).wf(),
            final(self).slots().len() == old(self).slots().len(),
            old(self).slots()[index as int].holds(taken.0),
            final(self).slots()[index as int].holds(None),
            forall|i: int|
                0 <= i < old(self).slots().len() && i != index ==> #[trigger] final(self).slots()[i] == old(self).slots()[i],
            final(self).flags() == old(self).flags().update(index as int, true),
            final(self).link() == old(self).link(),
            taken.1 == (forall|i: int|
                0 <= i < old(self).slots().len() && i != index ==> #[trigger] old(self).flags()[i]),
    {
        let ghost flags = self.read@;
        let ghost now = flags.update(index as int, true);
        proof {
            lemma_count_set(flags, index as int);
            lemma_count_bound(flags);
            lemma_count_bound(now);
        }
        let value = self.slots[index].read();
        self.consumed = self.consumed + 1;
        self.read = Ghost(now);
        let last = self.consumed == self.slots.len();
        proof {
            if last {
                assert forall|i: int| 0 <= i < flags.len() && i != index implies #[trigger] flags[i] by {
                    assert(now[i]);
                }
            } else if forall|i: int|
                0 <= i < flags.len() && i != index ==> #[trigger] flags[i] {
                assert forall|i: int| 0 <= i < now.len() implies now[i] by {
                    if i != index {
                        assert(flags[i]);
                    }
                }
                assert(false);
            }
        }
        (value, last)
    }
}

} // verus!
