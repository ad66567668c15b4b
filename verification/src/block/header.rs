//! The pair of counters that one side of a block works with.
use vstd::arithmetic::power2::{lemma_pow2_strictly_increases, pow2};
use vstd::prelude::*;

use crate::block::wrapped_u64::{
    fits, max_version, pack, show_width, unpack, width_text, WrappedU64, WrappedU64Components,
};
use crate::text::{decimal, decimal_text};

verus! {

/// `bits` is the least number of bits that hold `capacity`.
pub open spec fn is_width_for(bits: u8, capacity: usize) -> bool {
    capacity < pow2(bits as nat) && (bits > 0 ==> pow2((bits - 1) as nat) <= capacity)
}

pub proof fn lemma_width_unique(a: u8, b: u8, capacity: usize)
    requires
        is_width_for(a, capacity),
        is_width_for(b, capacity),
    ensures
        a == b,
{
    if a < b && a < b - 1 {
        lemma_pow2_strictly_increases(a as nat, (b - 1) as nat);
    }
    if b < a && b < a - 1 {
        lemma_pow2_strictly_increases(b as nat, (a - 1) as nat);
    }
}

/// The parts with `bits` bits for the index, where that is more than before
/// and they fit it.
pub open spec fn widened(parts: WrappedU64Components, bits: u8) -> WrappedU64Components {
    let wider = WrappedU64Components { bits, ..parts };
    if parts.bits < bits && fits(wider) {
        wider
    } else {
        parts
    }
}

/// One counter word.
#[derive(Clone, Copy, Debug)]
pub struct WrappedAtomicU64 {
    inner: u64,
}

impl WrappedAtomicU64 {
    pub closed spec fn word(&self) -> u64 {
        self.inner
    }

    pub open spec fn parts(&self) -> WrappedU64Components {
        unpack(self.word())
    }

    /// The word is the packing of parts that fit.
    pub open spec fn wf(&self) -> bool {
        fits(self.parts()) && self.word() == pack(
            self.parts().bits,
            self.parts().version,
            self.parts().index,
        )
    }

    pub fn from_wrapped(value: WrappedU64) -> (counter: Self)
        ensures
            counter.word() == value.raw(),
    {
        WrappedAtomicU64 { inner: value.get_raw() }
    }

    pub fn load(&self) -> (value: WrappedU64)
        ensures
            value.raw() == self.word(),
    {
        WrappedU64::from_raw(self.inner)
    }

    /// Adds to the word, wrapping around, and returns what it was.
    pub fn fetch_add(&mut self, val: u64) -> (previous: WrappedU64)
        ensures
            previous.raw() == old(self).word(),
            final(self).word() == (if old(self).word() + val > u64::MAX {
                old(self).word() + val - 0x1_0000_0000_0000_0000
            } else {
                old(self).word() + val
            }),
    {
        let previous = WrappedU64::from_raw(self.inner);
        self.inner = self.inner.wrapping_add(val);
        previous
    }

    /// Raises the word to at least `val` and returns what it was.
    pub fn fetch_max(&mut self, val: WrappedU64) -> (previous: WrappedU64)
        ensures
            previous.raw() == old(self).word(),
            final(self).word() == (if val.raw() > old(self).word() {
                val.raw()
            } else {
                old(self).word()
            }),
    {
        let previous = WrappedU64::from_raw(self.inner);
        let raw: u64 = val.get_raw();
        if raw > self.inner {
            self.inner = raw;
        }
        previous
    }

    /// Replaces the word by `new` if it is `current`, and returns what it was.
    pub fn compare_exchange(&mut self, current: WrappedU64, new: WrappedU64) -> (result: Result<
        WrappedU64,
        WrappedU64,
    >)
        ensures
            if old(self).word() == current.raw() {
                &&& result is Ok
                &&& result->Ok_0.raw() == old(self).word()
                &&& final(self).word() == new.raw()
            } else {
                &&& result is Err
                &&& result->Err_0.raw() == old(self).word()
                &&& final(self).word() == old(self).word()
            },
    {
        let previous = WrappedU64::from_raw(self.inner);
        if self.inner == current.get_raw() {
            self.inner = new.get_raw();
            Ok(previous)
        } else {
            Err(previous)
        }
    }

    /// Widens the index so that it can hold `capacity`, where version and
    /// index fit the new width. A word never becomes narrower.
    pub fn set_bits_for_capacity(&mut self, capacity: usize)
        requires
            old(self).wf(),
            capacity < 0x8000_0000_0000_0000,
        ensures
            final(self).wf(),
            forall|bits: u8| #[trigger]
                is_width_for(bits, capacity) ==> final(self).parts() == widened(
                    old(self).parts(),
                    bits,
                ),
    {
        let bits: u8 = WrappedU64::bits_for_capacity(capacity);
        let old_word = WrappedU64::from_raw(self.inner);
        proof {
            assert forall|other: u8| #[trigger] is_width_for(other, capacity) implies other
                == bits by {
                lemma_width_unique(other, bits, capacity);
            }
        }
        if old_word.get_bits() < bits {
            if let Some(new) = old_word.set_bits(bits) {
                self.inner = new.get_raw();
            }
        }
    }
}

/// Words of one width are ordered by version, then by index.
pub proof fn law_word_order(bits: u8, a_version: u64, a_index: u64, b_version: u64, b_index: u64)
    requires
        fits((WrappedU64Components { bits, version: a_version, index: a_index })),
        fits((WrappedU64Components { bits, version: b_version, index: b_index })),
    ensures
        pack(bits, a_version, a_index) < pack(bits, b_version, b_index) <==> (a_version < b_version
            || (a_version == b_version && a_index < b_index)),
{
    let wide = bits as u64;
    let top = crate::block::wrapped_u64::max_index(bits);
    let above = max_version(bits);
    let rest = (56 - bits) as u8;
    let a = pack(bits, a_version, a_index);
    let b = pack(bits, b_version, b_index);
    assert(a < b <==> (a_version < b_version || (a_version == b_version && a_index < b_index)))
        by (bit_vector)
        requires
            bits <= 56,
            rest == 56 - bits,
            top == ((1u64 << bits) - 1) as u64,
            above == ((1u64 << rest) - 1) as u64,
            a_version <= above,
            b_version <= above,
            a_index <= top,
            b_index <= top,
            a == (wide << 56u64) | (a_version << bits) | a_index,
            b == (wide << 56u64) | (b_version << bits) | b_index,
    ;
}

/// What one side of a block has taken and what it has given.
pub struct HeaderControl {
    pub take: WrappedAtomicU64,
    pub give: WrappedAtomicU64,
}

impl HeaderControl {
    pub open spec fn wf(&self) -> bool {
        &&& self.take.wf()
        &&& self.give.wf()
        &&& self.take.parts().bits == self.give.parts().bits
        &&& self.take.parts().version == self.give.parts().version
    }

    pub open spec fn bits(&self) -> u8 {
        self.take.parts().bits
    }

    pub open spec fn version(&self) -> u64 {
        self.take.parts().version
    }

    pub open spec fn taken(&self) -> int {
        self.take.parts().index as int
    }

    pub open spec fn given(&self) -> int {
        self.give.parts().index as int
    }

    /// Both counters are at the start of version zero, in words of the given
    /// width.
    pub open spec fn starts_over(&self, bits: u8) -> bool {
        &&& self.wf()
        &&& self.bits() == bits
        &&& self.version() == 0
        &&& self.taken() == 0
        &&& self.given() == 0
    }

    pub fn for_capacity(capacity: usize) -> (control: Self)
        requires
            capacity < 0x0100_0000_0000_0000,
        ensures
            control.wf(),
            control.version() == 0,
            control.taken() == 0,
            control.given() == 0,
            is_width_for(control.bits(), capacity),
    {
        let first = WrappedU64::for_capacity(capacity);
        let control = HeaderControl {
            take: WrappedAtomicU64::from_wrapped(first),
            give: WrappedAtomicU64::from_wrapped(first),
        };
        control
    }

    /// The width, then what was taken and what was given: under one version
    /// where it is the same, else each with its own.
    pub open spec fn shown(&self) -> Seq<char> {
        let take = self.take.parts();
        let give = self.give.parts();
        width_text(take.bits) + "|"@ + decimal(take.version as nat) + ":"@ + decimal(
            take.index as nat,
        ) + "/"@ + (if take.version == give.version {
            decimal(give.index as nat)
        } else {
            decimal(give.version as nat) + ":"@ + decimal(give.index as nat)
        }) + " (t/g)"@
    }

    /// The state of both counters as text.
    pub fn debug(&self) -> (text: String)
        requires
            self.take.parts().bits < 64,
            self.give.parts().bits < 64,
        ensures
            text@ == self.shown(),
    {
        let take = self.take.load().get_components();
        let give = self.give.load().get_components();
        let mut text = show_width(take.bits);
        text.append("|");
        text.append(decimal_text(take.version as u128).as_str());
        text.append(":");
        text.append(decimal_text(take.index as u128).as_str());
        text.append("/");
        let mut given = String::new();
        if take.version != give.version {
            given = decimal_text(give.version as u128);
            given.append(":");
        }
        given.append(decimal_text(give.index as u128).as_str());
        text.append(given.as_str());
        text.append(" (t/g)");
        assert(text@ =~= self.shown());
        text
    }

    /// Starts the version after that of `unbumped` on both counters.
    pub fn update_max_or_compare_exchange(&mut self, unbumped: WrappedU64)
        requires
            old(self).wf(),
            unbumped.wf(),
        ensures
            unbumped.parts().version + 1 < max_version(unbumped.parts().bits) ==> {
                let next = pack(
                    unbumped.parts().bits,
                    (unbumped.parts().version + 1) as u64,
                    0,
                );
                &&& final(self).take.word() == (if next > old(self).take.word() {
                    next
                } else {
                    old(self).take.word()
                })
                &&& final(self).give.word() == (if next > old(self).give.word() {
                    next
                } else {
                    old(self).give.word()
                })
            },
            unbumped.parts().version + 1 >= max_version(unbumped.parts().bits) ==> {
                let first = pack(unbumped.parts().bits, 0, 0);
                &&& final(self).take.word() == (if old(self).take.word() == unbumped.raw() {
                    first
                } else {
                    old(self).take.word()
                })
                &&& final(self).give.word() == (if old(self).give.word() == unbumped.raw() {
                    first
                } else {
                    old(self).give.word()
                })
            },
    {
        match unbumped.bump_version_wrapping() {
            Ok(fetch) => {
                let _taken = self.take.fetch_max(fetch);
                let _given = self.give.fetch_max(fetch);
            },
            Err(first) => {
                let _taken = self.take.compare_exchange(unbumped, first);
                let _given = self.give.compare_exchange(unbumped, first);
            },
        }
    }
}

/// Widening keeps the version and the index, and never makes the index field
/// narrower.
pub proof fn law_widening_keeps_the_parts(parts: WrappedU64Components, bits: u8)
    ensures
        widened(parts, bits).version == parts.version,
        widened(parts, bits).index == parts.index,
        widened(parts, bits).bits >= parts.bits,
        widened(parts, bits).bits == parts.bits || widened(parts, bits).bits == bits,
{
}

} // verus!
