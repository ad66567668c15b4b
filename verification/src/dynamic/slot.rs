//! Slots that forget on their own that they held a value.
use vstd::prelude::*;

verus! {

pub const ZERO: u8 = 0;

pub const WRITE: u8 = 1;

pub const SKIP: u8 = 2;

/// One slot: free, written, or done with. A slot is done with when its value
/// was read and when it never got one.
pub struct Slot<T> {
    value: Option<T>,
    state: u8,
}

impl<T> Slot<T> {
    /// Neither written nor skipped.
    pub closed spec fn fresh(&self) -> bool {
        self.state == ZERO && self.value is None
    }

    /// Written with a value, or done with.
    pub closed spec fn holds(&self, value: Option<T>) -> bool {
        &&& self.value == value
        &&& self.state == (if value is Some {
            WRITE
        } else {
            SKIP
        })
    }

    pub fn new() -> (slot: Self)
        ensures
            slot.fresh(),
    {
        Slot { value: None, state: ZERO }
    }

    /// Writes a value, or skips the slot if there is none.
    pub fn write_opt(&mut self, e_opt: Option<T>)
        requires
            old(self).fresh(),
        ensures
            final(self).holds(e_opt),
    {
        if let Some(e) = e_opt {
            self.value = Some(e);
            self.state = WRITE;
        } else {
            self.state = SKIP;
        }
    }

    /// Whether the slot is neither written nor skipped.
    pub fn is_fresh(&self) -> (fresh: bool)
        requires
            self.fresh() || exists|value: Option<T>| self.holds(value),
        ensures
            fresh == self.fresh(),
    {
        self.state == ZERO
    }

    /// Moves the value out, if there is one.
    pub fn read(&mut self) -> (value: Option<T>)
        requires
            exists|value: Option<T>| old(self).holds(value),
        ensures
            old(self).holds(value),
            final(self).holds(None),
    {
        if self.state == WRITE {
            self.state = SKIP;
            self.value.take()
        } else {
            None
        }
    }

    /// Makes the slot free again.
    pub fn reset(&mut self)
        ensures
            final(self).fresh(),
    {
        self.value = None;
        self.state = ZERO;
    }

    /// A slot that holds something is not free.
    pub proof fn lemma_not_fresh(&self, value: Option<T>)
        requires
            self.holds(value),
        ensures
            !self.fresh(),
    {
    }

    /// A slot holds one thing.
    pub proof fn lemma_holds(&self, a: Option<T>, b: Option<T>)
        requires
            self.holds(a),
            self.holds(b),
        ensures
            a == b,
    {
    }
}

} // verus!
