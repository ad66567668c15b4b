//! A version and an offset in one machine word.
//!
//! The offset takes the low `OFFSET_BITS` bits, the version the rest.
use vstd::arithmetic::power2::{lemma_pow2_unfold, pow2};
use vstd::prelude::*;

use crate::text::{decimal, decimal_text};

verus! {

/// A version with an offset.
#[derive(Clone, Copy, Debug, PartialEq, Eq, PartialOrd, Ord)]
pub struct Cursor<const OFFSET_BITS: u32> {
    inner: usize,
}

/// The number of bits that hold every number below `value`.
pub fn ceil_log2(value: usize) -> (bits: u32)
    ensures
        value <= 1 ==> bits == 0,
        value > 1 ==> bits > 0 && pow2((bits - 1) as nat) < value <= pow2(bits as nat),
{
    if value <= 1 {
        return 0;
    }
    let mut bits: u32 = 1;
    let mut rest: usize = (value - 1) / 2;
    let ghost mut power: nat = 2;
    proof {
        vstd::arithmetic::power2::lemma2_to64();
    }
    while rest > 0
        invariant
            value > 1,
            0 < bits,
            bits + rest <= usize::MAX,
            bits <= usize::BITS,
            power == pow2(bits as nat),
            power * rest <= value - 1 < power * (rest + 1),
            pow2((bits - 1) as nat) < value,
            power > 0,
        decreases rest,
    {
        proof {
            lemma_pow2_unfold((bits + 1) as nat);
            assert(power <= value - 1) by (nonlinear_arith)
                requires
                    power * rest <= value - 1,
                    rest >= 1,
                    power > 0,
            ;
            lemma_bits_bound(bits as nat, value);
            let half = rest / 2;
            assert(2 * power * half <= value - 1 < 2 * power * (half + 1)) by (nonlinear_arith)
                requires
                    power * rest <= value - 1 < power * (rest + 1),
                    half == rest / 2,
                    power > 0,
            ;
            assert((2 * power) * half == 2 * power * half) by (nonlinear_arith);
            power = 2 * power;
        }
        rest = rest / 2;
        bits = bits + 1;
    }
    assert(power * (rest + 1) == power) by (nonlinear_arith)
        requires
            rest == 0,
    ;
    bits
}

/// A power of two below a machine number has fewer bits than the machine.
proof fn lemma_bits_bound(bits: nat, value: usize)
    requires
        pow2(bits) < value,
    ensures
        bits < usize::BITS,
{
    vstd::arithmetic::power2::lemma2_to64();
    vstd::arithmetic::power2::lemma2_to64_rest();
    if bits >= usize::BITS {
        if bits > usize::BITS {
            vstd::arithmetic::power2::lemma_pow2_strictly_increases(usize::BITS as nat, bits);
        }
        assert(false);
    }
}

impl<const OFFSET_BITS: u32> Cursor<OFFSET_BITS> {
    pub closed spec fn raw(&self) -> usize {
        self.inner
    }

    pub open spec fn mask() -> usize {
        ((1usize << OFFSET_BITS) - 1) as usize
    }

    /// The largest version.
    pub open spec fn max_vsn() -> usize {
        usize::MAX >> OFFSET_BITS
    }

    pub open spec fn offset(&self) -> usize {
        self.raw() & Self::mask()
    }

    pub open spec fn version(&self) -> usize {
        self.raw() >> OFFSET_BITS
    }

    /// The start of a version.
    pub fn for_version(version: usize) -> (cursor: Self)
        requires
            OFFSET_BITS < usize::BITS,
        ensures
            cursor.raw() == version << OFFSET_BITS,
            cursor.offset() == 0,
            version <= Self::max_vsn() ==> cursor.version() == version,
    {
        let bits: u32 = OFFSET_BITS;
        let ghost max = usize::MAX;
        proof {
            lemma_cursor_bits(version, 0, bits, max);
        }
        Cursor { inner: version << OFFSET_BITS }
    }

    pub fn from_raw(value: usize) -> (cursor: Self)
        ensures
            cursor.raw() == value,
    {
        Cursor { inner: value }
    }

    pub fn into_raw(self) -> (value: usize)
        ensures
            value == self.raw(),
    {
        self.inner
    }

    pub fn off(self) -> (offset: usize)
        requires
            OFFSET_BITS < usize::BITS,
        ensures
            offset == self.offset(),
    {
        let bits: u32 = OFFSET_BITS;
        let ghost max = usize::MAX;
        proof {
            lemma_cursor_bits(0, 0, bits, max);
        }
        self.inner & ((1usize << OFFSET_BITS) - 1)
    }

    /// One further. Inside a version this is the next offset.
    pub fn incr_off(self) -> (cursor: Self)
        requires
            OFFSET_BITS < usize::BITS,
            self.raw() < usize::MAX,
        ensures
            cursor.raw() == self.raw() + 1,
            self.offset() < Self::mask() ==> cursor.offset() == self.offset() + 1
                && cursor.version() == self.version(),
            self.offset() == Self::mask() ==> cursor.offset() == 0 && cursor.version()
                == self.version() + 1,
    {
        let bits: u32 = OFFSET_BITS;
        let ghost max = usize::MAX;
        proof {
            lemma_cursor_bits(0, self.inner, bits, max);
        }
        Cursor { inner: self.inner + 1 }
    }

    pub fn vsn(self) -> (version: usize)
        requires
            OFFSET_BITS < usize::BITS,
        ensures
            version == self.version(),
    {
        self.inner >> OFFSET_BITS
    }

    /// The version and the offset with a colon between them.
    pub fn text(self) -> (text: String)
        requires
            OFFSET_BITS < usize::BITS,
        ensures
            text@ == decimal(self.version() as nat) + ":"@ + decimal(self.offset() as nat),
    {
        let mut text = decimal_text(self.vsn() as u128);
        text.append(":");
        text.append(decimal_text(self.off() as u128).as_str());
        text
    }
}

proof fn lemma_cursor_bits(version: usize, raw: usize, bits: u32, max: usize)
    requires
        bits < usize::BITS,
        max == usize::MAX,
    ensures
        1usize << bits != 0,
        (version << bits) & (((1usize << bits) - 1) as usize) == 0,
        version <= max >> bits ==> (version << bits) >> bits == version,
        ({
            let mask = ((1usize << bits) - 1) as usize;
            let next = (raw + 1) as usize;
            raw < max ==> {
                &&& raw & mask < mask ==> next & mask == (raw & mask) + 1 && next >> bits == raw
                    >> bits
                &&& raw & mask == mask ==> next & mask == 0 && next >> bits == (raw >> bits) + 1
            }
        }),
        raw & (((1usize << bits) - 1) as usize) <= ((1usize << bits) - 1) as usize,
{
    assert(max <= !0usize && max >= max) by (bit_vector);
    assert({
        let mask = ((1usize << bits) - 1) as usize;
        let next = (raw + 1) as usize;
        &&& 1usize << bits != 0
        &&& (version << bits) & mask == 0
        &&& version <= max >> bits ==> (version << bits) >> bits == version
        &&& raw & mask <= mask
        &&& raw < max ==> {
            &&& raw & mask < mask ==> next & mask == (raw & mask) + 1 && next >> bits == raw
                >> bits
            &&& raw & mask == mask ==> next & mask == 0 && next >> bits == (raw >> bits) + 1
        }
    }) by (bit_vector)
        requires
            bits < usize::BITS,
            max == !0usize,
    ;
}

/// A cursor that is replaced as a whole.
pub struct AtomicCursor<const OFFSET_BITS: u32> {
    inner: usize,
}

impl<const OFFSET_BITS: u32> AtomicCursor<OFFSET_BITS> {
    pub closed spec fn raw(&self) -> usize {
        self.inner
    }

    pub fn new(value: Cursor<OFFSET_BITS>) -> (cell: Self)
        ensures
            cell.raw() == value.raw(),
    {
        AtomicCursor { inner: value.into_raw() }
    }

    pub fn load(&self) -> (value: Cursor<OFFSET_BITS>)
        ensures
            value.raw() == self.raw(),
    {
        Cursor::from_raw(self.inner)
    }

    pub fn store(&mut self, value: Cursor<OFFSET_BITS>)
        ensures
            final(self).raw() == value.raw(),
    {
        self.inner = value.into_raw();
    }

    /// Adds to the word, wrapping around, and returns what it was.
    pub fn fetch_add(&mut self, value: usize) -> (previous: Cursor<OFFSET_BITS>)
        ensures
            previous.raw() == old(self).raw(),
            final(self).raw() == (if old(self).raw() + value > usize::MAX {
                old(self).raw() + value - usize::MAX - 1
            } else {
                old(self).raw() + value
            }),
    {
        let previous = Cursor::from_raw(self.inner);
        self.inner = self.inner.wrapping_add(value);
        previous
    }

    /// Raises the word to at least `value` and returns what it was.
    pub fn fetch_max(&mut self, value: Cursor<OFFSET_BITS>) -> (previous: Cursor<OFFSET_BITS>)
        ensures
            previous.raw() == old(self).raw(),
            final(self).raw() == (if value.raw() > old(self).raw() {
                value.raw()
            } else {
                old(self).raw()
            }),
    {
        let previous = Cursor::from_raw(self.inner);
        let raw: usize = value.into_raw();
        if raw > self.inner {
            self.inner = raw;
        }
        previous
    }
}

/// Cursors are ordered by version, then by offset.
pub proof fn law_cursor_order<const OFFSET_BITS: u32>(
    a: Cursor<OFFSET_BITS>,
    b: Cursor<OFFSET_BITS>,
)
    requires
        OFFSET_BITS < usize::BITS,
    ensures
        a.raw() < b.raw() <==> (a.version() < b.version() || (a.version() == b.version()
            && a.offset() < b.offset())),
        a.raw() == b.raw() <==> a.version() == b.version() && a.offset() == b.offset(),
{
    let bits: u32 = OFFSET_BITS;
    let x = a.raw();
    let y = b.raw();
    let mask = Cursor::<OFFSET_BITS>::mask();
    assert({
        &&& x < y <==> (x >> bits < y >> bits || (x >> bits == y >> bits && x & mask < y & mask))
        &&& x == y <==> x >> bits == y >> bits && x & mask == y & mask
    }) by (bit_vector)
        requires
            bits < usize::BITS,
            mask == ((1usize << bits) - 1) as usize,
    ;
}

} // verus!
