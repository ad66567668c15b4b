//! A versioned slot index in one word.
//!
//! The top byte says how many low bits hold the index; the bits between hold
//! the version:
//!
//! ```text
//! | 8 bits | 56 - bits | bits  |
//! |  bits  |  version  | index |
//! ```
use vstd::arithmetic::power2::{lemma2_to64, lemma2_to64_rest, lemma_pow2_strictly_increases, lemma_pow2_unfold, pow2};
use vstd::prelude::*;

use crate::text::{decimal, decimal_text};

verus! {

/// A packed version and index.
#[derive(Clone, Copy, Debug, PartialEq, Eq, Structural)]
pub struct WrappedU64 {
    inner: u64,
}

/// The parts of a packed word.
#[derive(Clone, Copy, Debug, PartialEq, Eq, Structural)]
pub struct WrappedU64Components {
    pub bits: u8,
    pub version: u64,
    pub index: u64,
}

/// A width with the largest index that it allows.
pub open spec fn width_text(bits: u8) -> Seq<char> {
    decimal(bits as nat) + "("@ + decimal(max_index(bits) as nat) + ")"@
}

/// A width with the largest index that it allows.
pub(crate) fn show_width(bits: u8) -> (text: String)
    requires
        bits < 64,
    ensures
        text@ == width_text(bits),
{
    let mut text = decimal_text(bits as u128);
    text.append("(");
    text.append(decimal_text(WrappedU64::max_index_for_bits(bits) as u128).as_str());
    text.append(")");
    text
}

impl WrappedU64Components {
    /// The width, the version and the index.
    pub open spec fn shown(self) -> Seq<char> {
        width_text(self.bits) + ":"@ + decimal(self.version as nat) + ":"@ + decimal(
            self.index as nat,
        )
    }

    /// The width, the version and the index.
    pub fn text(self) -> (text: String)
        requires
            self.bits < 64,
        ensures
            text@ == self.shown(),
    {
        let mut text = show_width(self.bits);
        text.append(":");
        text.append(decimal_text(self.version as u128).as_str());
        text.append(":");
        text.append(decimal_text(self.index as u128).as_str());
        text
    }
}

/// Largest index that `bits` bits hold.
pub open spec fn max_index(bits: u8) -> u64 {
    ((1u64 << bits) - 1) as u64
}

/// Largest version beside an index of `bits` bits.
pub open spec fn max_version(bits: u8) -> u64 {
    ((1u64 << ((56 - bits) as u8)) - 1) as u64
}

/// The word for given parts.
pub open spec fn pack(bits: u8, version: u64, index: u64) -> u64 {
    ((bits as u64) << 56u64) | (version << bits) | index
}

/// The parts of a word.
pub open spec fn unpack(raw: u64) -> WrappedU64Components {
    WrappedU64Components {
        bits: (raw >> 56u64) as u8,
        version: (raw & 0x00ff_ffff_ffff_ffff) >> ((raw >> 56u64) as u8),
        index: (raw & 0x00ff_ffff_ffff_ffff) & max_index((raw >> 56u64) as u8),
    }
}

/// The parts fit into one word.
pub open spec fn fits(parts: WrappedU64Components) -> bool {
    parts.bits <= 56 && parts.version <= max_version(parts.bits) && parts.index <= max_index(
        parts.bits,
    )
}

/// A word whose width is possible is the packing of its parts, and they fit.
pub proof fn law_a_word_is_its_parts(raw: u64)
    requires
        unpack(raw).bits <= 56,
    ensures
        fits(unpack(raw)),
        raw == pack(unpack(raw).bits, unpack(raw).version, unpack(raw).index),
{
    let bits = unpack(raw).bits;
    let version = unpack(raw).version;
    let index = unpack(raw).index;
    let rest = (56 - bits) as u8;
    let wide = bits as u64;
    let top = max_index(bits);
    let above = max_version(bits);
    let packed = pack(bits, version, index);
    assert({
        &&& version <= above
        &&& index <= top
        &&& packed == raw
    }) by (bit_vector)
        requires
            bits <= 56,
            bits == (raw >> 56u64) as u8,
            wide == bits as u64,
            rest == 56 - bits,
            top == ((1u64 << bits) - 1) as u64,
            above == ((1u64 << rest) - 1) as u64,
            version == (raw & 0x00ff_ffff_ffff_ffff) >> bits,
            index == (raw & 0x00ff_ffff_ffff_ffff) & top,
            packed == (wide << 56u64) | (version << bits) | index,
    ;
}

/// Packing and unpacking are inverse on parts that fit.
pub proof fn law_round_trip(parts: WrappedU64Components)
    requires
        fits(parts),
    ensures
        unpack(pack(parts.bits, parts.version, parts.index)) == parts,
{
    lemma_pack(parts.bits, parts.version, parts.index);
}

proof fn lemma_pack(bits: u8, version: u64, index: u64)
    requires
        bits <= 56,
    ensures
        index & !max_index(bits) == 0 <==> index <= max_index(bits),
        version & !max_version(bits) == 0 <==> version <= max_version(bits),
        index <= max_index(bits) ==> index & max_index(bits) == index,
        version <= max_version(bits) ==> version & max_version(bits) == version,
        index <= max_index(bits) && version <= max_version(bits) ==> {
            let raw = pack(bits, version, index);
            &&& raw >> 56u64 == bits
            &&& (raw >> 56u64) as u8 == bits
            &&& (raw & 0x00ff_ffff_ffff_ffff) >> bits == version
            &&& (raw & 0x00ff_ffff_ffff_ffff) & max_index(bits) == index
            &&& index < max_index(bits) ==> raw < u64::MAX && raw + 1 == pack(
                bits,
                version,
                (index + 1) as u64,
            )
        },
        1u64 << bits != 0,
        1u64 << ((56 - bits) as u8) != 0,
{
    let rest = (56 - bits) as u8;
    let raw = pack(bits, version, index);
    let top = max_index(bits);
    let above = max_version(bits);
    let wide = bits as u64;
    let next = pack(bits, version, (index + 1) as u64);
    assert({
        &&& index & !top == 0 <==> index <= top
        &&& version & !above == 0 <==> version <= above
        &&& index <= top ==> index & top == index
        &&& version <= above ==> version & above == version
        &&& index <= top && version <= above ==> {
            &&& raw >> 56u64 == wide
            &&& (raw >> 56u64) as u8 == bits
            &&& (raw & 0x00ff_ffff_ffff_ffff) >> bits == version
            &&& (raw & 0x00ff_ffff_ffff_ffff) & top == index
            &&& index < top ==> raw < 0xffff_ffff_ffff_ffffu64 && (raw + 1) as u64 == next
        }
        &&& 1u64 << bits != 0
        &&& 1u64 << rest != 0
    }) by (bit_vector)
        requires
            bits <= 56,
            rest == 56 - bits,
            wide == bits as u64,
            top == ((1u64 << bits) - 1) as u64,
            above == ((1u64 << rest) - 1) as u64,
            raw == (wide << 56u64) | (version << bits) | index,
            next == (wide << 56u64) | (version << bits) | ((index + 1) as u64),
    ;
}

/// The largest index is one less than a power of two.
pub proof fn lemma_max_index_is_pow2(bits: u8)
    requires
        bits <= 56,
    ensures
        max_index(bits) == pow2(bits as nat) - 1,
{
    lemma_pack(bits, 0, 0);
    lemma2_to64();
    lemma2_to64_rest();
    if bits < 56 {
        lemma_pow2_strictly_increases(bits as nat, 56);
    }
    vstd::bits::lemma_u64_shl_is_mul(1, bits as u64);
}

/// Adding one to a word moves on to the next index, as long as there is one.
pub proof fn lemma_index_step(parts: WrappedU64Components)
    requires
        fits(parts),
        parts.index < max_index(parts.bits),
    ensures
        ({
            let next = WrappedU64Components { index: (parts.index + 1) as u64, ..parts };
            let raw = pack(parts.bits, parts.version, parts.index);
            &&& raw < u64::MAX
            &&& raw + 1 == pack(next.bits, next.version, next.index)
            &&& fits(next)
            &&& unpack((raw + 1) as u64) == next
        }),
{
    let next = WrappedU64Components { index: (parts.index + 1) as u64, ..parts };
    lemma_pack(parts.bits, parts.version, parts.index);
    law_round_trip(next);
}

impl WrappedU64 {
    pub closed spec fn raw(&self) -> u64 {
        self.inner
    }

    pub open spec fn parts(&self) -> WrappedU64Components {
        unpack(self.raw())
    }

    /// The word is the packing of parts that fit.
    pub open spec fn wf(&self) -> bool {
        fits(self.parts()) && self.raw() == pack(
            self.parts().bits,
            self.parts().version,
            self.parts().index,
        )
    }

    /// Number of bits that hold every count up to `capacity`.
    pub fn bits_for_capacity(capacity: usize) -> (bits: u8)
        requires
            capacity < 0x8000_0000_0000_0000,
        ensures
            bits <= 63,
            capacity < pow2(bits as nat),
            bits > 0 ==> pow2((bits - 1) as nat) <= capacity,
    {
        let wanted: u64 = capacity as u64;
        let mut bits: u8 = 0;
        let mut power: u64 = 1;
        proof {
            lemma2_to64();
        }
        while power <= wanted
            invariant
                wanted == capacity,
                wanted < 0x8000_0000_0000_0000,
                bits <= 63,
                power == pow2(bits as nat),
                bits > 0 ==> pow2((bits - 1) as nat) <= wanted,
            decreases 64 - bits,
        {
            proof {
                lemma2_to64();
                lemma2_to64_rest();
                lemma_pow2_unfold((bits + 1) as nat);
                if bits == 63 {
                    assert(power == 0x8000_0000_0000_0000);
                }
            }
            power = power * 2;
            bits = bits + 1;
        }
        bits
    }

    /// An empty word wide enough for every index up to `capacity`.
    pub fn for_capacity(capacity: usize) -> (word: Self)
        requires
            capacity < 0x0100_0000_0000_0000,
        ensures
            word.wf(),
            word.parts().version == 0,
            word.parts().index == 0,
            capacity < pow2(word.parts().bits as nat),
            word.parts().bits > 0 ==> pow2((word.parts().bits - 1) as nat) <= capacity,
    {
        let bits: u8 = Self::bits_for_capacity(capacity);
        proof {
            lemma2_to64();
            lemma2_to64_rest();
            if bits > 56 {
                if bits > 57 {
                    lemma_pow2_strictly_increases(56, (bits - 1) as nat);
                }
                assert(pow2(56) == 0x0100_0000_0000_0000);
            }
            lemma_pack(bits, 0, 0);
            law_round_trip(WrappedU64Components { bits, version: 0, index: 0 });
        }
        Self::from_raw(Self::raw_from_components_unchecked(bits, 0, 0))
    }

    pub fn from_raw(inner: u64) -> (word: Self)
        ensures
            word.raw() == inner,
    {
        WrappedU64 { inner }
    }

    pub fn get_raw(self) -> (raw: u64)
        ensures
            raw == self.raw(),
    {
        self.inner
    }

    /// Packs the parts, if they fit.
    pub fn new(bits: u8, version: u64, index: u64) -> (word: Option<Self>)
        ensures
            ({
                let parts = WrappedU64Components { bits, version, index };
                match word {
                    Some(word) => fits(parts) && word.wf() && word.parts() == parts && word.raw()
                        == pack(bits, version, index),
                    None => !fits(parts),
                }
            }),
    {
        match Self::raw_from_components(bits, version, index) {
            Some(raw) => {
                proof {
                    law_round_trip(WrappedU64Components { bits, version, index });
                }
                Some(Self::from_raw(raw))
            },
            None => None,
        }
    }

    pub fn get_bits(self) -> (bits: u8)
        requires
            self.parts().bits < 64,
        ensures
            bits == self.parts().bits,
    {
        self.get_components().bits
    }

    pub fn get_index(self) -> (index: usize)
        requires
            self.parts().bits < 64,
            self.parts().index <= usize::MAX,
        ensures
            index == self.parts().index,
    {
        self.get_components().index as usize
    }

    pub fn get_version(self) -> (version: u64)
        requires
            self.parts().bits < 64,
        ensures
            version == self.parts().version,
    {
        self.get_components().version
    }

    /// Version and index together.
    pub fn payload(self) -> (payload: u64)
        ensures
            payload == self.raw() & 0x00ff_ffff_ffff_ffff,
    {
        self.inner & 0x00ff_ffff_ffff_ffff
    }

    pub fn get_components(self) -> (parts: WrappedU64Components)
        requires
            self.parts().bits < 64,
        ensures
            parts == self.parts(),
    {
        Self::components_from_raw(self.inner)
    }

    /// The parts as text.
    pub fn text(self) -> (text: String)
        requires
            self.parts().bits < 64,
        ensures
            text@ == self.parts().shown(),
    {
        self.get_components().text()
    }

    /// The next index of the same version, if there is one.
    pub fn bump_index(self) -> (bumped: Option<Self>)
        requires
            self.wf(),
        ensures
            match bumped {
                Some(word) => {
                    &&& self.parts().index < max_index(self.parts().bits)
                    &&& word.wf()
                    &&& word.parts() == (WrappedU64Components {
                        index: (self.parts().index + 1) as u64,
                        ..self.parts()
                    })
                },
                None => self.parts().index == max_index(self.parts().bits),
            },
    {
        let parts = self.get_components();
        proof {
            lemma_pack(parts.bits, parts.version, parts.index);
        }
        if parts.index < Self::max_index_for_bits(parts.bits) {
            proof {
                law_round_trip(
                    WrappedU64Components { index: (parts.index + 1) as u64, ..parts },
                );
            }
            Some(Self::from_raw(self.inner + 1))
        } else {
            None
        }
    }

    /// The same version and index with another width, if they fit it.
    pub fn set_bits(self, bits: u8) -> (word: Option<Self>)
        requires
            self.wf(),
        ensures
            ({
                let parts = WrappedU64Components { bits, ..self.parts() };
                match word {
                    Some(word) => fits(parts) && word.wf() && word.parts() == parts,
                    None => !fits(parts),
                }
            }),
    {
        let parts = self.get_components();
        Self::new(bits, parts.version, parts.index)
    }

    /// The start of the next version. `Ok` is a larger word, so that it can be
    /// installed by taking a maximum; `Err` starts over at version zero and
    /// has to be exchanged.
    pub fn bump_version_wrapping(self) -> (word: Result<Self, Self>)
        requires
            self.wf(),
        ensures
            match word {
                Ok(next) => {
                    &&& self.parts().version + 1 < max_version(self.parts().bits)
                    &&& next.wf()
                    &&& next.parts() == (WrappedU64Components {
                        version: (self.parts().version + 1) as u64,
                        index: 0,
                        ..self.parts()
                    })
                },
                Err(first) => {
                    &&& self.parts().version + 1 >= max_version(self.parts().bits)
                    &&& first.wf()
                    &&& first.parts() == (WrappedU64Components {
                        version: 0,
                        index: 0,
                        ..self.parts()
                    })
                },
            },
    {
        let parts = self.get_components();
        proof {
            lemma_pack(parts.bits, parts.version, 0);
            let rest = (56 - parts.bits) as u8;
            let above = max_version(parts.bits);
            assert(above < 0xffff_ffff_ffff_ffffu64) by (bit_vector)
                requires
                    rest <= 56,
                    above == ((1u64 << rest) - 1) as u64,
            ;
        }
        let next: u64 = parts.version + 1;
        if Self::max_version_for_bits(parts.bits) > next {
            proof {
                lemma_pack(parts.bits, next, 0);
                law_round_trip(WrappedU64Components { version: next, index: 0, ..parts });
            }
            Ok(Self::from_raw(Self::raw_from_components_unchecked(parts.bits, next, 0)))
        } else {
            proof {
                lemma_pack(parts.bits, 0, 0);
                law_round_trip(WrappedU64Components { version: 0, index: 0, ..parts });
            }
            Err(Self::from_raw(Self::raw_from_components_unchecked(parts.bits, 0, 0)))
        }
    }

    fn max_version_for_bits(bits: u8) -> (version: u64)
        requires
            bits <= 56,
        ensures
            version == max_version(bits),
    {
        proof {
            lemma_pack(bits, 0, 0);
        }
        (1u64 << (56 - bits)) - 1
    }

    pub fn max_index_for_bits(bits: u8) -> (index: u64)
        requires
            bits < 64,
        ensures
            index == max_index(bits),
    {
        assert(1u64 << bits != 0) by (bit_vector)
            requires
                bits < 64,
        ;
        (1u64 << bits) - 1
    }

    fn raw_from_components(bits: u8, version: u64, index: u64) -> (raw: Option<u64>)
        ensures
            ({
                let parts = WrappedU64Components { bits, version, index };
                match raw {
                    Some(raw) => fits(parts) && raw == pack(bits, version, index),
                    None => !fits(parts),
                }
            }),
    {
        if bits > 56 {
            return None;
        }
        let index_mask: u64 = Self::max_index_for_bits(bits);
        let version_mask: u64 = Self::max_version_for_bits(bits);
        proof {
            lemma_pack(bits, version, index);
        }
        if index & !index_mask != 0 || version & !version_mask != 0 {
            return None;
        }
        Some(Self::raw_from_components_unchecked(bits, version, index))
    }

    /// Packs parts that are known to fit.
    fn raw_from_components_unchecked(bits: u8, version: u64, index: u64) -> (raw: u64)
        requires
            fits((WrappedU64Components { bits, version, index })),
        ensures
            raw == pack(bits, version, index),
    {
        let index_mask: u64 = Self::max_index_for_bits(bits);
        let version_mask: u64 = Self::max_version_for_bits(bits);
        proof {
            lemma_pack(bits, version, index);
        }
        ((bits as u64) << 56u64) | ((version & version_mask) << bits) | (index & index_mask)
    }

    fn components_from_raw(inner: u64) -> (parts: WrappedU64Components)
        requires
            unpack(inner).bits < 64,
        ensures
            parts == unpack(inner),
    {
        let bits: u8 = (inner >> 56u64) as u8;
        let payload: u64 = inner & 0x00ff_ffff_ffff_ffff;
        WrappedU64Components {
            bits,
            version: payload >> bits,
            index: payload & Self::max_index_for_bits(bits),
        }
    }
}

} // verus!
