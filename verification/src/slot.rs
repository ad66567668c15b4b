//! Payload slots with a state of their own.
//!
//! A producer reserves a slot before it writes it, so a slot says whether it
//! has been written. A reserved slot that never gets a value is skipped.
use vstd::prelude::*;

verus! {

pub const ZERO: u8 = 0;

pub const WRITTEN: u8 = 1;

pub const SKIP: u8 = 2;

/// One slot: reserved or free, written, or skipped.
pub struct Slot<T> {
    value: Option<T>,
    state: u8,
}

impl<T> Slot<T> {
    /// The state byte.
    pub closed spec fn status(&self) -> u8 {
        self.state
    }

    /// The value, as long as it has not been moved out.
    pub closed spec fn content(&self) -> Option<T> {
        self.value
    }

    /// Neither written nor skipped yet.
    pub open spec fn fresh(&self) -> bool {
        self.status() == ZERO && self.content() is None
    }

    pub fn new() -> (slot: Self)
        ensures
            slot.fresh(),
    {
        Slot { value: None, state: ZERO }
    }

    /// The state byte, as it is now.
    pub fn acquire_state(&self) -> (state: u8)
        ensures
            state == self.status(),
    {
        self.state
    }

    /// Makes the slot fresh again.
    pub fn reset(&mut self)
        ensures
            final(self).fresh(),
    {
        self.value = None;
        self.state = ZERO;
    }

    /// Moves the value out of a written slot. A skipped slot has none.
    pub fn read(&mut self) -> (value: Option<T>)
        requires
            old(self).status() == WRITTEN || old(self).status() == SKIP,
            old(self).status() == SKIP ==> old(self).content() is None,
        ensures
            value == old(self).content(),
            final(self).content() is None,
            final(self).status() == old(self).status(),
    {
        self.value.take()
    }

    pub fn skip(&mut self)
        ensures
            final(self).status() == SKIP,
            final(self).content() == old(self).content(),
    {
        self.state = SKIP;
    }

    pub fn write(&mut self, val: T)
        ensures
            final(self).status() == WRITTEN,
            final(self).content() == Some(val),
    {
        self.value = Some(val);
        self.state = WRITTEN;
    }

    /// Drops the value of a written slot.
    pub fn drop_inner(&mut self)
        ensures
            final(self).status() == old(self).status(),
            final(self).content() == (if old(self).status() == WRITTEN {
                None
            } else {
                old(self).content()
            }),
    {
        if self.state == WRITTEN {
            self.value = None;
        }
    }
}

} // verus!
