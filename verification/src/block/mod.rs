//! A single block that is filled and drained in laps.
//!
//! Producers and consumers of a block each have a pair of counters. Taking a
//! slot raises the first, finishing it raises the second. When both sides have
//! been through every slot, each starts the next lap by raising its version.
use vstd::prelude::*;

use crate::block::header::{is_width_for, widened, HeaderControl};
use crate::block::wrapped_u64::{max_index, max_version, pack, WrappedU64Components};
use crate::text::{decimal, decimal_text};

pub mod header;
pub mod wrapped_u64;

verus! {

/// Why no slot could be reserved for reading.
#[non_exhaustive]
#[derive(Clone, Copy, Debug, PartialEq, Eq, Structural)]
pub enum ReserveError {
    /// Everything written so far is reserved.
    NoEntry,
    /// A producer is still writing.
    NotAvailable,
    /// The lap is over.
    BlockDone,
}

/// The slots being written and the slots being read.
pub struct Open {
    pub writing: Set<int>,
    pub reading: Set<int>,
}

/// A block of slots with its producer and consumer counters.
pub struct Block<T> {
    pcon: HeaderControl,
    ccon: HeaderControl,
    array: Vec<Option<T>>,
    open: Ghost<Open>,
}

/// A slot that its holder has to write.
pub struct UninitRes {
    index: usize,
}

/// A slot that its holder has to read.
pub struct InitRes {
    index: usize,
}

/// The outcome of a reservation, given the consumers' take counter and the
/// producers' give and take counters as they were observed.
pub open spec fn reservation(
    reserved: WrappedU64Components,
    committed: WrappedU64Components,
    allocated: WrappedU64Components,
    len: int,
) -> Result<int, ReserveError> {
    if reserved.index >= len || committed.version < reserved.version {
        Err(ReserveError::BlockDone)
    } else if committed.index == reserved.index {
        Err(ReserveError::NoEntry)
    } else if committed.index != len && allocated.index != committed.index {
        Err(ReserveError::NotAvailable)
    } else {
        Ok(reserved.index as int)
    }
}

/// Decides a reservation from observed counters.
pub fn decide_reservation(
    reserved: WrappedU64Components,
    committed: WrappedU64Components,
    allocated: WrappedU64Components,
    len: usize,
) -> (outcome: Result<usize, ReserveError>)
    ensures
        match reservation(reserved, committed, allocated, len as int) {
            Ok(index) => outcome is Ok && outcome->Ok_0 == index && index < len,
            Err(error) => outcome == Err::<usize, ReserveError>(error),
        },
{
    if reserved.index >= len as u64 {
        return Err(ReserveError::BlockDone);
    }
    if committed.version < reserved.version {
        return Err(ReserveError::BlockDone);
    }
    if committed.index == reserved.index {
        return Err(ReserveError::NoEntry);
    }
    if committed.index != len as u64 && allocated.index != committed.index {
        return Err(ReserveError::NotAvailable);
    }
    Ok(reserved.index as usize)
}

impl<T> Block<T> {
    pub closed spec fn producers(&self) -> HeaderControl {
        self.pcon
    }

    pub closed spec fn consumers(&self) -> HeaderControl {
        self.ccon
    }

    pub closed spec fn slots(&self) -> Seq<Option<T>> {
        self.array@
    }

    pub closed spec fn open(&self) -> Open {
        self.open@
    }

    /// The producers and the consumers are in the same lap.
    pub open spec fn same_lap(&self) -> bool {
        self.producers().version() == self.consumers().version()
    }

    /// Slot `i` holds a value.
    pub open spec fn occupied(&self, i: int) -> bool {
        &&& 0 <= i < self.producers().taken()
        &&& !self.open().writing.contains(i)
        &&& if self.same_lap() {
            i >= self.consumers().taken() || self.open().reading.contains(i)
        } else {
            self.producers().version() > self.consumers().version()
        }
    }

    /// The counters fit together and say which slots hold values.
    ///
    /// The two sides are in the same lap, or one side has finished its lap
    /// and the other has moved on to the next.
    pub open spec fn wf(&self) -> bool {
        let len = self.slots().len() as int;
        let p = self.producers();
        let c = self.consumers();
        &&& p.wf()
        &&& c.wf()
        &&& p.bits() == c.bits()
        &&& len <= max_index(p.bits())
        &&& p.taken() <= len
        &&& c.taken() <= len
        &&& self.open().writing.finite()
        &&& self.open().reading.finite()
        &&& p.given() + self.open().writing.len() == p.taken()
        &&& c.given() + self.open().reading.len() == c.taken()
        &&& forall|i: int| #[trigger]
            self.open().writing.contains(i) ==> 0 <= i < p.taken() && (self.same_lap() ==> i
                >= c.taken())
        &&& forall|i: int| #[trigger] self.open().reading.contains(i) ==> 0 <= i < c.taken()
        &&& if self.same_lap() {
            c.taken() <= p.given()
        } else if p.version() > c.version() {
            p.version() == c.version() + 1 && c.given() == len
        } else {
            c.version() == p.version() + 1 && p.given() == len && c.taken() == 0
        }
        &&& forall|i: int|
            0 <= i < len ==> (#[trigger] self.slots()[i] is Some <==> self.occupied(i))
    }

    /// The producers have begun at version zero again, and the consumers are
    /// about to: they have finished the last version.
    pub open spec fn turning(&self) -> bool {
        let len = self.slots().len() as int;
        let c = self.consumers();
        &&& self.producers().starts_over(c.bits())
        &&& c.wf()
        &&& c.version() + 1 >= max_version(c.bits())
        &&& c.taken() == len
        &&& c.given() == len
        &&& len <= max_index(c.bits())
        &&& self.open().writing == Set::<int>::empty()
        &&& self.open().reading == Set::<int>::empty()
        &&& forall|i: int| 0 <= i < len ==> #[trigger] self.slots()[i] is None
    }

    /// Creates an empty block of `size` slots. The counters are wide enough for
    /// `max_access` more.
    pub fn new(size: usize, max_access: usize) -> (block: Self)
        requires
            size + max_access < 0x0100_0000_0000_0000,
            size + max_access <= usize::MAX,
        ensures
            block.wf(),
            block.slots().len() == size,
            is_width_for(block.producers().bits(), (size + max_access) as usize),
            block.producers().starts_over(block.producers().bits()),
            block.consumers().starts_over(block.producers().bits()),
    {
        let mut array: Vec<Option<T>> = Vec::new();
        let mut filled: usize = 0;
        while filled < size
            invariant
                filled <= size,
                array@.len() == filled,
                forall|i: int| 0 <= i < filled ==> #[trigger] array@[i] is None,
            decreases size - filled,
        {
            array.push(None);
            filled = filled + 1;
        }
        let pcon = HeaderControl::for_capacity(size + max_access);
        let ccon = HeaderControl::for_capacity(size + max_access);
        let block = Block {
            pcon,
            ccon,
            array,
            open: Ghost(Open { writing: Set::empty(), reading: Set::empty() }),
        };
        proof {
            crate::block::header::lemma_width_unique(
                pcon.bits(),
                ccon.bits(),
                (size + max_access) as usize,
            );
            crate::block::wrapped_u64::lemma_max_index_is_pow2(pcon.bits());
        }
        block
    }

    pub fn len(&self) -> (len: usize)
        ensures
            len == self.slots().len(),
    {
        self.array.len()
    }

    /// Whether consumers have reserved everything that producers took.
    pub fn is_empty(&self) -> (empty: bool)
        requires
            self.wf(),
        ensures
            empty == (self.producers().taken() <= self.consumers().taken()),
    {
        self.pcon.take.load().get_components().index <= self.ccon.take.load().get_components().index
    }

    /// Takes the next slot for writing, if the lap has one left.
    pub fn allocate(&mut self) -> (slot: Option<UninitRes>)
        requires
            old(self).wf(),
        ensures
            final(self).wf(),
            final(self).slots() == old(self).slots(),
            final(self).consumers() == old(self).consumers(),
            match slot {
                Some(slot) => {
                    &&& old(self).producers().taken() < old(self).slots().len()
                    &&& slot.slot() == old(self).producers().taken()
                    &&& final(self).producers().taken() == old(self).producers().taken() + 1
                    &&& final(self).producers().given() == old(self).producers().given()
                    &&& final(self).producers().version() == old(self).producers().version()
                    &&& final(self).open() == (Open {
                        writing: old(self).open().writing.insert(slot.slot()),
                        ..old(self).open()
                    })
                },
                None => old(self).producers().taken() == old(self).slots().len() && *final(self)
                    == *old(self),
            },
    {
        let current = self.pcon.take.load();
        let index: usize = current.get_components().index as usize;
        if index >= self.array.len() {
            return None;
        }
        match current.bump_index() {
            Some(next) => {
                self.pcon.take = crate::block::header::WrappedAtomicU64::from_wrapped(next);
                self.open = Ghost(
                    Open { writing: self.open@.writing.insert(index as int), ..self.open@ },
                );
                proof {
                    assert forall|i: int| 0 <= i < self.array@.len() implies (
                    #[trigger] self.slots()[i] is Some <==> self.occupied(i)) by {
                        assert(old(self).slots()[i] is Some <==> old(self).occupied(i));
                    }
                }
                Some(UninitRes { index })
            },
            None => None,
        }
    }

    /// Reserves the next written slot for reading.
    ///
    /// While any producer is between taking and writing a slot, only a full
    /// lap is readable.
    pub fn reserve(&mut self) -> (slot: Result<InitRes, ReserveError>)
        requires
            old(self).wf(),
        ensures
            final(self).wf(),
            final(self).slots() == old(self).slots(),
            final(self).producers() == old(self).producers(),
            match reservation(
                old(self).consumers().take.parts(),
                old(self).producers().give.parts(),
                old(self).producers().take.parts(),
                old(self).slots().len() as int,
            ) {
                Ok(index) => {
                    &&& slot is Ok
                    &&& slot->Ok_0.slot() == index
                    &&& index == old(self).consumers().taken()
                    &&& old(self).slots()[index] is Some
                    &&& final(self).consumers().taken() == old(self).consumers().taken() + 1
                    &&& final(self).consumers().given() == old(self).consumers().given()
                    &&& final(self).consumers().version() == old(self).consumers().version()
                    &&& final(self).open() == (Open {
                        reading: old(self).open().reading.insert(index),
                        ..old(self).open()
                    })
                },
                Err(error) => {
                    &&& slot is Err
                    &&& slot->Err_0 == error
                    &&& *final(self) == *old(self)
                },
            },
    {
        let reserved = self.ccon.take.load();
        let committed = self.pcon.give.load();
        let allocated = self.pcon.take.load();
        let len: usize = self.array.len();
        match decide_reservation(
            reserved.get_components(),
            committed.get_components(),
            allocated.get_components(),
            len,
        ) {
            Ok(index) => {
                proof {
                    assert(self.same_lap());
                    // Nobody is writing: either the lap is full, or all that
                    // was taken has been given.
                    assert(self.open@.writing =~= Set::empty()) by {
                        assert(self.open@.writing.len() == 0);
                    }
                    assert(self.occupied(index as int));
                }
                if let Some(next) = reserved.bump_index() {
                    self.ccon.take = crate::block::header::WrappedAtomicU64::from_wrapped(next);
                    self.open = Ghost(
                        Open { reading: self.open@.reading.insert(index as int), ..self.open@ },
                    );
                }
                proof {
                    assert forall|i: int| 0 <= i < self.array@.len() implies (
                    #[trigger] self.slots()[i] is Some <==> self.occupied(i)) by {
                        assert(old(self).slots()[i] is Some <==> old(self).occupied(i));
                    }
                }
                Ok(InitRes { index })
            },
            Err(error) => Err(error),
        }
    }

    /// Starts the producers' next lap if the consumers have finished theirs.
    pub fn reset_pcon(&mut self) -> (reset: bool)
        requires
            old(self).wf(),
        ensures
            final(self).slots() == old(self).slots(),
            final(self).consumers() == old(self).consumers(),
            final(self).open() == old(self).open(),
            reset == (old(self).producers().version() < old(self).consumers().version() || (old(
                self,
            ).same_lap() && old(self).consumers().given() >= old(self).slots().len())),
            !reset ==> *final(self) == *old(self),
            reset && old(self).producers().version() + 1 < max_version(old(self).producers().bits())
                ==> {
                &&& final(self).wf()
                &&& final(self).producers().version() == old(self).producers().version() + 1
                &&& final(self).producers().taken() == 0
                &&& final(self).producers().given() == 0
            },
            reset && old(self).producers().version() + 1 >= max_version(
                old(self).producers().bits(),
            ) ==> {
                &&& final(self).producers().starts_over(old(self).producers().bits())
                &&& old(self).same_lap() ==> final(self).turning()
            },
    {
        let pgive = self.pcon.give.load();
        let cgive = self.ccon.give.load();
        let produced = pgive.get_components();
        let consumed = cgive.get_components();
        let len: usize = self.array.len();
        if produced.version < consumed.version || (produced.version == consumed.version
            && consumed.index >= len as u64) {
            self.pcon.update_max_or_compare_exchange(pgive);
            proof {
                if produced.version + 1 < max_version(produced.bits) {
                    let old_p = old(self).pcon;
                    assert(old_p.given() == len && old_p.taken() == len);
                    lemma_next_lap(&old_p);
                    crate::block::wrapped_u64::law_round_trip(
                        WrappedU64Components {
                            bits: produced.bits,
                            version: (produced.version + 1) as u64,
                            index: 0,
                        },
                    );
                    assert(self.open@.writing =~= Set::empty()) by {
                        assert(self.open@.writing.len() == 0);
                    }
                    assert(self.open@.reading =~= Set::empty()) by {
                        assert(self.open@.reading.len() == 0);
                    }
                    assert forall|i: int| 0 <= i < self.array@.len() implies (
                    #[trigger] self.slots()[i] is Some <==> self.occupied(i)) by {
                        assert(old(self).slots()[i] is Some <==> old(self).occupied(i));
                    }
                } else {
                    lemma_first_lap(&old(self).pcon, &self.pcon);
                    assert(self.open@.writing =~= Set::empty()) by {
                        assert(self.open@.writing.len() == 0);
                    }
                    assert(self.open@.reading =~= Set::empty()) by {
                        assert(self.open@.reading.len() == 0);
                    }
                    assert forall|i: int|
                        0 <= i < self.array@.len() && old(self).same_lap() implies
                        #[trigger] self.slots()[i] is None by {
                        assert(old(self).slots()[i] is Some <==> old(self).occupied(i));
                    }
                }
            }
            true
        } else {
            false
        }
    }

    /// Starts the consumers' next lap if they have read every slot.
    pub fn reset_ccon(&mut self) -> (reset: bool)
        requires
            old(self).wf() || old(self).turning(),
        ensures
            final(self).slots() == old(self).slots(),
            final(self).producers() == old(self).producers(),
            final(self).open() == old(self).open(),
            reset == (old(self).consumers().given() >= old(self).slots().len()),
            !reset ==> *final(self) == *old(self),
            old(self).turning() ==> reset && final(self).wf(),
            reset && old(self).slots().len() > 0 && old(self).consumers().version() + 1
                < max_version(old(self).consumers().bits()) ==> {
                &&& final(self).wf()
                &&& final(self).consumers().version() == old(self).consumers().version() + 1
                &&& final(self).consumers().taken() == 0
                &&& final(self).consumers().given() == 0
            },
            reset && old(self).slots().len() == 0 && old(self).consumers().version() + 1
                < max_version(old(self).consumers().bits()) ==> {
                &&& final(self).consumers().wf()
                &&& final(self).consumers().bits() == old(self).consumers().bits()
                &&& final(self).consumers().version() == old(self).consumers().version() + 1
                &&& final(self).consumers().taken() == 0
                &&& final(self).consumers().given() == 0
            },
            reset && old(self).consumers().version() + 1 >= max_version(
                old(self).consumers().bits(),
            ) ==> final(self).consumers().starts_over(old(self).consumers().bits()),
    {
        let cgive = self.ccon.give.load();
        let consumed = cgive.get_components();
        let len: usize = self.array.len();
        if consumed.index >= len as u64 {
            self.ccon.update_max_or_compare_exchange(cgive);
            proof {
                if consumed.version + 1 < max_version(consumed.bits) {
                    lemma_next_lap(&old(self).ccon);
                    crate::block::wrapped_u64::law_round_trip(
                        WrappedU64Components {
                            bits: consumed.bits,
                            version: (consumed.version + 1) as u64,
                            index: 0,
                        },
                    );
                } else {
                    lemma_first_lap(&old(self).ccon, &self.ccon);
                }
                if len > 0 && consumed.version + 1 < max_version(consumed.bits) {
                    assert(self.open@.reading =~= Set::empty()) by {
                        assert(self.open@.reading.len() == 0);
                    }
                    if old(self).same_lap() {
                        assert(self.open@.writing =~= Set::empty()) by {
                            assert(self.open@.writing.len() == 0);
                        }
                    }
                    assert forall|i: int| 0 <= i < self.array@.len() implies (
                    #[trigger] self.slots()[i] is Some <==> self.occupied(i)) by {
                        assert(old(self).slots()[i] is Some <==> old(self).occupied(i));
                    }
                }
            }
            true
        } else {
            false
        }
    }

    /// The block at a place, its length and both pairs of counters as text.
    pub open spec fn shown(&self, place: Seq<char>) -> Seq<char> {
        place + ": {l: "@ + decimal(self.slots().len()) + ", p: "@ + self.producers().shown()
            + ", c: "@ + self.consumers().shown() + "}"@
    }

    /// The state of the block as text. The caller says where the block is.
    pub fn debug(&self, place: &str) -> (text: String)
        requires
            self.producers().wf(),
            self.consumers().wf(),
        ensures
            text@ == self.shown(place@),
    {
        let mut text = place.to_owned();
        text.append(": {l: ");
        text.append(decimal_text(self.array.len() as u128).as_str());
        text.append(", p: ");
        text.append(self.pcon.debug().as_str());
        text.append(", c: ");
        text.append(self.ccon.debug().as_str());
        text.append("}");
        assert(text@ =~= self.shown(place@));
        text
    }

    pub fn not_available_for_producing(&self) -> (busy: bool)
        requires
            self.wf(),
        ensures
            busy == !self.producible(),
    {
        !self.available_for_producing()
    }

    /// All four counters agree, or the consumers have finished the producers'
    /// lap.
    pub open spec fn producible(&self) -> bool {
        let p = self.producers();
        let c = self.consumers();
        ||| (p.give.word() == p.take.word() && p.give.word() == c.give.word() && p.give.word()
            == c.take.word())
        ||| p.version() < c.version()
        ||| (self.same_lap() && c.given() >= self.slots().len())
    }

    pub fn available_for_producing(&self) -> (available: bool)
        requires
            self.wf(),
        ensures
            available == self.producible(),
    {
        let cgive = self.ccon.give.load();
        let ctake = self.ccon.take.load();
        let pgive = self.pcon.give.load();
        let ptake = self.pcon.take.load();
        if pgive.get_raw() == ptake.get_raw() && pgive.get_raw() == cgive.get_raw()
            && pgive.get_raw() == ctake.get_raw() {
            return true;
        }
        let produced = pgive.get_components();
        let consumed = cgive.get_components();
        produced.version < consumed.version || (produced.version == consumed.version
            && consumed.index >= self.array.len() as u64)
    }

    /// Widens all four counters for `max_access` indices beyond the slots.
    pub fn set_max_access(&mut self, max_access: usize)
        requires
            old(self).wf(),
            old(self).slots().len() + max_access < 0x8000_0000_0000_0000,
            old(self).slots().len() + max_access <= usize::MAX,
        ensures
            final(self).slots() == old(self).slots(),
            final(self).open() == old(self).open(),
            forall|bits: u8| #[trigger]
                is_width_for(bits, (old(self).slots().len() + max_access) as usize) ==> {
                    &&& final(self).consumers().give.parts() == widened(
                        old(self).consumers().give.parts(),
                        bits,
                    )
                    &&& final(self).consumers().take.parts() == widened(
                        old(self).consumers().take.parts(),
                        bits,
                    )
                    &&& final(self).producers().give.parts() == widened(
                        old(self).producers().give.parts(),
                        bits,
                    )
                    &&& final(self).producers().take.parts() == widened(
                        old(self).producers().take.parts(),
                        bits,
                    )
                },
    {
        let capacity: usize = self.array.len() + max_access;
        self.ccon.give.set_bits_for_capacity(capacity);
        self.ccon.take.set_bits_for_capacity(capacity);
        self.pcon.give.set_bits_for_capacity(capacity);
        self.pcon.take.set_bits_for_capacity(capacity);
    }

    /// Whether no counter has moved yet.
    pub fn is_brand_new(&self) -> (brand_new: bool)
        ensures
            brand_new == (self.consumers().give.word() & 0x00ff_ffff_ffff_ffff == 0
                && self.consumers().take.word() & 0x00ff_ffff_ffff_ffff == 0
                && self.producers().give.word() & 0x00ff_ffff_ffff_ffff == 0
                && self.producers().take.word() & 0x00ff_ffff_ffff_ffff == 0),
    {
        self.ccon.give.load().payload() == 0 && self.ccon.take.load().payload() == 0
            && self.pcon.give.load().payload() == 0 && self.pcon.take.load().payload() == 0
    }
}

/// Counters in step are both exchanged when the versions run out.
proof fn lemma_first_lap(before: &HeaderControl, after: &HeaderControl)
    requires
        before.wf(),
        before.taken() == before.given(),
        after.take.word() == pack(before.bits(), 0, 0),
        after.give.word() == pack(before.bits(), 0, 0),
    ensures
        after.starts_over(before.bits()),
{
    crate::block::wrapped_u64::law_round_trip(
        WrappedU64Components { bits: before.bits(), version: 0, index: 0 },
    );
}

/// The first word of the next lap is larger than every word of this one.
proof fn lemma_next_lap(control: &HeaderControl)
    requires
        control.wf(),
        control.version() + 1 < max_version(control.bits()),
    ensures
        pack(control.bits(), (control.version() + 1) as u64, 0) > control.take.word(),
        pack(control.bits(), (control.version() + 1) as u64, 0) > control.give.word(),
{
    let next = (control.version() + 1) as u64;
    crate::block::header::law_word_order(
        control.bits(),
        control.version(),
        control.take.parts().index,
        next,
        0,
    );
    crate::block::header::law_word_order(
        control.bits(),
        control.version(),
        control.give.parts().index,
        next,
        0,
    );
}

impl UninitRes {
    pub closed spec fn slot(&self) -> int {
        self.index as int
    }

    pub fn get_idx(&self) -> (index: usize)
        ensures
            index == self.slot(),
    {
        self.index
    }

    /// Writes the slot and gives it to the consumers.
    pub fn write<T>(self, block: &mut Block<T>, val: T)
        requires
            old(block).wf(),
            old(block).open().writing.contains(self.slot()),
        ensures
            final(block).wf(),
            final(block).slots() == old(block).slots().update(self.slot(), Some(val)),
            final(block).consumers() == old(block).consumers(),
            final(block).producers().taken() == old(block).producers().taken(),
            final(block).producers().given() == old(block).producers().given() + 1,
            final(block).producers().version() == old(block).producers().version(),
            final(block).open() == (Open {
                writing: old(block).open().writing.remove(self.slot()),
                ..old(block).open()
            }),
    {
        let ghost writing = block.open@.writing;
        let ghost given = block.pcon.give.parts();
        proof {
            vstd::set_lib::lemma_set_empty_equivalency_len(writing);
            crate::block::wrapped_u64::lemma_index_step(given);
        }
        block.array.set(self.index, Some(val));
        let _previous = block.pcon.give.fetch_add(1);
        block.open = Ghost(Open { writing: writing.remove(self.index as int), ..block.open@ });
        proof {
            assert forall|i: int| 0 <= i < block.array@.len() implies (
            #[trigger] block.slots()[i] is Some <==> block.occupied(i)) by {
                assert(old(block).slots()[i] is Some <==> old(block).occupied(i));
            }
        }
    }
}

impl InitRes {
    pub closed spec fn slot(&self) -> int {
        self.index as int
    }

    /// Moves the value out and gives the slot back.
    pub fn read<T>(self, block: &mut Block<T>) -> (value: T)
        requires
            old(block).wf(),
            old(block).open().reading.contains(self.slot()),
        ensures
            final(block).wf(),
            old(block).slots()[self.slot()] == Some(value),
            final(block).slots() == old(block).slots().update(self.slot(), None),
            final(block).producers() == old(block).producers(),
            final(block).consumers().taken() == old(block).consumers().taken(),
            final(block).consumers().given() == old(block).consumers().given() + 1,
            final(block).consumers().version() == old(block).consumers().version(),
            final(block).open() == (Open {
                reading: old(block).open().reading.remove(self.slot()),
                ..old(block).open()
            }),
    {
        let ghost reading = block.open@.reading;
        let ghost given = block.ccon.give.parts();
        proof {
            vstd::set_lib::lemma_set_empty_equivalency_len(reading);
            assert(reading.len() > 0);
            crate::block::wrapped_u64::lemma_index_step(given);
            assert(block.occupied(self.index as int));
        }
        let value = block.array[self.index].take().unwrap();
        let _previous = block.ccon.give.fetch_add(1);
        block.open = Ghost(Open { reading: reading.remove(self.index as int), ..block.open@ });
        proof {
            assert forall|i: int| 0 <= i < block.array@.len() implies (
            #[trigger] block.slots()[i] is Some <==> block.occupied(i)) by {
                assert(old(block).slots()[i] is Some <==> old(block).occupied(i));
            }
        }
        value
    }
}

/// A slot is handed to a consumer exactly if the block has one left for it in this
/// lap, it has been committed, and no producer is still writing unless the block
/// is full. A block without one in this lap is done, and one with nothing
/// committed beyond what is reserved has no entry.
pub proof fn law_when_a_slot_is_reserved(
    reserved: WrappedU64Components,
    committed: WrappedU64Components,
    allocated: WrappedU64Components,
    len: int,
)
    ensures
        reservation(reserved, committed, allocated, len) is Ok <==> {
            &&& reserved.index < len
            &&& committed.version >= reserved.version
            &&& committed.index != reserved.index
            &&& committed.index == len || allocated.index == committed.index
        },
        reservation(reserved, committed, allocated, len) matches Ok(slot) ==> slot
            == reserved.index,
        reservation(reserved, committed, allocated, len) == Err::<int, ReserveError>(
            ReserveError::BlockDone,
        ) <==> reserved.index >= len || committed.version < reserved.version,
        reservation(reserved, committed, allocated, len) == Err::<int, ReserveError>(
            ReserveError::NoEntry,
        ) <==> {
            &&& reserved.index < len
            &&& committed.version >= reserved.version
            &&& committed.index == reserved.index
        },
{
}

} // verus!
