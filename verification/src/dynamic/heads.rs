//! Producer and consumer heads that carry the length of their block.
//!
//! A producer head packs into 128 bits:
//!
//! ```text
//! |  64 bits | 16 bits | 16 bits | 16 bits | 16 bits |
//! |  pointer |  token  | excess  | length  |  index  |
//! ```
//!
//! A consumer head has a successor flag and a token of 31 bits in place of
//! token and excess. The token changes with the pointer, so that the low 64
//! bits alone tell whether the pointer is still the same.
use vstd::prelude::*;

verus! {

pub const MAX_BLOCK_LENGTH: usize = 0xffff;

pub const TOKEN_VALUE_MASK: u32 = 0x7fff_ffff;

/// A lower bound on the capacity of the blocks linked behind a head's block.
#[derive(Clone, Copy, Debug, PartialEq, Eq, Structural)]
pub struct Excess(pub u16);

impl Default for Excess {
    fn default() -> (excess: Self)
        ensures
            excess.slots() == 0,
    {
        Excess(0)
    }
}

impl Excess {
    pub open spec fn slots(&self) -> int {
        self.0 as int
    }

    /// The number of successor slots that are known to exist.
    pub fn known_slots(self) -> (slots: usize)
        ensures
            slots == self.slots(),
    {
        self.0 as usize
    }

    /// Counts newly linked capacity, up to what the field can hold.
    pub fn add_capacity(self, capacity: usize) -> (excess: Self)
        ensures
            excess.slots() == (if self.slots() + capacity <= u16::MAX {
                self.slots() + capacity
            } else {
                u16::MAX as int
            }),
    {
        if capacity <= 0xffff - self.0 as usize {
            Excess((self.0 as usize + capacity) as u16)
        } else {
            Excess(u16::MAX)
        }
    }

    /// Takes the block that the head is about to enter out of the count.
    pub fn remove_block(self, block_length: u16) -> (excess: Self)
        ensures
            excess.slots() == (if self.slots() >= block_length {
                self.slots() - block_length
            } else {
                0
            }),
    {
        if self.0 >= block_length {
            Excess(self.0 - block_length)
        } else {
            Excess(0)
        }
    }
}

/// Where producers write next.
#[derive(Clone, Copy, Debug, PartialEq, Eq, Structural)]
pub struct PHead {
    pub ptr: u64,
    pub token: u16,
    pub excess: Excess,
    pub block_length: u16,
    pub index: u16,
}

/// Where consumers read next.
#[derive(Clone, Copy, Debug, PartialEq, Eq, Structural)]
pub struct CHead {
    pub ptr: u64,
    pub block_length: u16,
    pub has_next: bool,
    pub index: u16,
    pub token: u32,
}

/// The pointer-less producer head of a queue without blocks.
pub open spec fn zero_phead() -> PHead {
    PHead { ptr: 0, token: 0, excess: Excess(0), block_length: 0, index: 0 }
}

/// The pointer-less consumer head of a queue without blocks.
pub open spec fn zero_chead() -> CHead {
    CHead { ptr: 0, block_length: 0, has_next: false, index: 0, token: 0 }
}

impl PHead {
    /// The head as one number.
    pub open spec fn wide(&self) -> u128 {
        ((self.ptr as u128) << 64u128) | ((self.token as u128) << 48u128) | ((
        self.excess.0 as u128) << 32u128) | ((self.block_length as u128) << 16u128) | (
        self.index as u128)
    }

    /// The low half of it: everything but the pointer.
    pub open spec fn narrow(&self) -> u64 {
        ((self.token as u64) << 48u64) | ((self.excess.0 as u64) << 32u64) | ((
        self.block_length as u64) << 16u64) | (self.index as u64)
    }

    pub fn zero() -> (head: Self)
        ensures
            head == zero_phead(),
    {
        PHead { ptr: 0, token: 0, excess: Excess(0), block_length: 0, index: 0 }
    }

    /// The start of a block, with no successors known.
    pub fn from_ptr(ptr: u64, block_length: u16) -> (head: Self)
        ensures
            head == (PHead { ptr, block_length, ..zero_phead() }),
    {
        PHead { ptr, token: 0, excess: Excess(0), block_length, index: 0 }
    }

    pub fn from_u128(v: u128) -> (head: Self)
        ensures
            head.wide() == v,
            head.ptr == (v >> 64u128) as u64,
            head.token == (v >> 48u128) as u16,
            head.excess.0 == (v >> 32u128) as u16,
            head.block_length == (v >> 16u128) as u16,
            head.index == v as u16,
    {
        let head = PHead {
            ptr: (v >> 64u128) as u64,
            token: (v >> 48u128) as u16,
            excess: Excess((v >> 32u128) as u16),
            block_length: (v >> 16u128) as u16,
            index: v as u16,
        };
        assert(((((v >> 64u128) as u64) as u128) << 64u128) | ((((v >> 48u128) as u16) as u128)
            << 48u128) | ((((v >> 32u128) as u16) as u128) << 32u128) | ((((v
            >> 16u128) as u16) as u128) << 16u128) | ((v as u16) as u128) == v) by (bit_vector);
        head
    }

    pub fn from_u64(v: u64) -> (head: Self)
        ensures
            head.ptr == 0,
            head.narrow() == v,
            head.token == (v >> 48u64) as u16,
            head.excess.0 == (v >> 32u64) as u16,
            head.block_length == (v >> 16u64) as u16,
            head.index == v as u16,
    {
        let head = PHead {
            ptr: 0,
            token: (v >> 48u64) as u16,
            excess: Excess((v >> 32u64) as u16),
            block_length: (v >> 16u64) as u16,
            index: v as u16,
        };
        assert(((((v >> 48u64) as u16) as u64) << 48u64) | ((((v >> 32u64) as u16) as u64)
            << 32u64) | ((((v >> 16u64) as u16) as u64) << 16u64) | ((v as u16) as u64) == v)
            by (bit_vector);
        head
    }

    pub fn is_zero(&self) -> (zero: bool)
        ensures
            zero == (*self == zero_phead()),
    {
        self.ptr == 0 && self.token == 0 && self.excess.0 == 0 && self.block_length == 0
            && self.index == 0
    }

    pub fn pack_u128(self) -> (v: u128)
        ensures
            v == self.wide(),
    {
        ((self.ptr as u128) << 64u128) | ((self.token as u128) << 48u128) | ((
        self.excess.0 as u128) << 32u128) | ((self.block_length as u128) << 16u128) | (
        self.index as u128)
    }

    pub fn pack_u64(self) -> (v: u64)
        ensures
            v == self.narrow(),
    {
        ((self.token as u64) << 48u64) | ((self.excess.0 as u64) << 32u64) | ((
        self.block_length as u64) << 16u64) | (self.index as u64)
    }

    /// The start of the block at `ptr`, which follows this head's block.
    pub fn with_block(self, ptr: u64, block_length: u16) -> (head: Self)
        ensures
            head.ptr == ptr,
            head.token == (if self.token == u16::MAX {
                0
            } else {
                self.token + 1
            }),
            head.excess.slots() == (if self.excess.slots() >= block_length {
                self.excess.slots() - block_length
            } else {
                0
            }),
            head.block_length == block_length,
            head.index == 0,
    {
        PHead {
            ptr,
            token: self.token.wrapping_add(1),
            excess: self.excess.remove_block(block_length),
            block_length,
            index: 0,
        }
    }
}

/// Two producer heads with the same word are the same head.
pub proof fn law_phead_words(a: PHead, b: PHead)
    ensures
        a.wide() == b.wide() ==> a == b,
        a.narrow() == b.narrow() ==> a == (PHead { ptr: a.ptr, ..b }),
{
    let (p, t, e, l, i) = (a.ptr, a.token, a.excess.0, a.block_length, a.index);
    let (q, u, f, m, j) = (b.ptr, b.token, b.excess.0, b.block_length, b.index);
    assert({
        &&& ((p as u128) << 64u128) | ((t as u128) << 48u128) | ((e as u128) << 32u128) | ((
        l as u128) << 16u128) | (i as u128) == ((q as u128) << 64u128) | ((u as u128) << 48u128)
            | ((f as u128) << 32u128) | ((m as u128) << 16u128) | (j as u128) ==> p == q && t == u
            && e == f && l == m && i == j
        &&& ((t as u64) << 48u64) | ((e as u64) << 32u64) | ((l as u64) << 16u64) | (i as u64) == (
        (u as u64) << 48u64) | ((f as u64) << 32u64) | ((m as u64) << 16u64) | (j as u64) ==> t
            == u && e == f && l == m && i == j
    }) by (bit_vector);
}

impl CHead {
    /// The token fits its field.
    pub open spec fn valid(&self) -> bool {
        self.token <= TOKEN_VALUE_MASK
    }

    /// The head as one number.
    pub open spec fn wide(&self) -> u128 {
        ((self.ptr as u128) << 64u128) | ((if self.has_next {
            1u128
        } else {
            0u128
        }) << 63u128) | ((self.token as u128) << 32u128) | ((self.block_length as u128) << 16u128)
            | (self.index as u128)
    }

    /// The low half of it: everything but the pointer.
    pub open spec fn narrow(&self) -> u64 {
        ((if self.has_next {
            1u64
        } else {
            0u64
        }) << 63u64) | ((self.token as u64) << 32u64) | ((self.block_length as u64) << 16u64) | (
        self.index as u64)
    }

    pub fn zero() -> (head: Self)
        ensures
            head == zero_chead(),
    {
        CHead { ptr: 0, block_length: 0, has_next: false, index: 0, token: 0 }
    }

    /// The start of a block.
    pub fn from_ptr(ptr: u64, block_length: u16) -> (head: Self)
        ensures
            head == (CHead { ptr, block_length, ..zero_chead() }),
    {
        CHead { ptr, block_length, has_next: false, index: 0, token: 0 }
    }

    pub fn from_u128(v: u128) -> (head: Self)
        ensures
            head.valid(),
            head.wide() == v,
    {
        let flag: u128 = (v >> 63u128) & 1;
        let head = CHead {
            ptr: (v >> 64u128) as u64,
            has_next: flag != 0,
            token: ((v >> 32u128) & 0x7fff_ffff) as u32,
            block_length: (v >> 16u128) as u16,
            index: v as u16,
        };
        let ghost bit: u128 = if flag != 0 {
            1
        } else {
            0
        };
        assert({
            &&& ((((v >> 64u128) as u64) as u128) << 64u128) | (bit << 63u128) | (((((v >> 32u128)
                & 0x7fff_ffff) as u32) as u128) << 32u128) | ((((v >> 16u128) as u16) as u128)
                << 16u128) | ((v as u16) as u128) == v
            &&& ((v >> 32u128) & 0x7fff_ffff) as u32 <= 0x7fff_ffffu32
        }) by (bit_vector)
            requires
                flag == (v >> 63u128) & 1,
                bit == (if flag != 0 {
                    1u128
                } else {
                    0u128
                }),
        ;
        head
    }

    pub fn from_u64(v: u64) -> (head: Self)
        ensures
            head.valid(),
            head.ptr == 0,
            head.narrow() == v,
    {
        let flag: u64 = (v >> 63u64) & 1;
        let head = CHead {
            ptr: 0,
            has_next: flag != 0,
            token: ((v >> 32u64) & 0x7fff_ffff) as u32,
            block_length: (v >> 16u64) as u16,
            index: v as u16,
        };
        let ghost bit: u64 = if flag != 0 {
            1
        } else {
            0
        };
        assert({
            &&& (bit << 63u64) | (((((v >> 32u64) & 0x7fff_ffff) as u32) as u64) << 32u64) | ((((v
                >> 16u64) as u16) as u64) << 16u64) | ((v as u16) as u64) == v
            &&& ((v >> 32u64) & 0x7fff_ffff) as u32 <= 0x7fff_ffffu32
        }) by (bit_vector)
            requires
                flag == (v >> 63u64) & 1,
                bit == (if flag != 0 {
                    1u64
                } else {
                    0u64
                }),
        ;
        head
    }

    pub fn is_zero(&self) -> (zero: bool)
        ensures
            zero == (*self == zero_chead()),
    {
        self.ptr == 0 && self.block_length == 0 && !self.has_next && self.index == 0 && self.token
            == 0
    }

    /// Same block and same index.
    pub fn full_addr_eq(&self, other: &Self) -> (same: bool)
        ensures
            same == (self.ptr == other.ptr && self.index == other.index),
    {
        self.ptr == other.ptr && self.index == other.index
    }

    pub fn pack_u128(self) -> (v: u128)
        requires
            self.valid(),
        ensures
            v == self.wide(),
    {
        let flag: u128 = if self.has_next {
            1
        } else {
            0
        };
        ((self.ptr as u128) << 64u128) | (flag << 63u128) | ((self.token as u128) << 32u128) | ((
        self.block_length as u128) << 16u128) | (self.index as u128)
    }

    pub fn pack_u64(self) -> (v: u64)
        requires
            self.valid(),
        ensures
            v == self.narrow(),
    {
        let flag: u64 = if self.has_next {
            1
        } else {
            0
        };
        (flag << 63u64) | ((self.token as u64) << 32u64) | ((self.block_length as u64) << 16u64) | (
        self.index as u64)
    }

    /// The start of the block at `ptr`, which follows this head's block.
    pub fn with_block(self, ptr: u64, block_length: u16) -> (head: Self)
        requires
            self.valid(),
        ensures
            head.valid(),
            head.ptr == ptr,
            head.block_length == block_length,
            head.token == (if self.token == TOKEN_VALUE_MASK {
                0
            } else {
                self.token + 1
            }),
            head.index == 0,
            !head.has_next,
    {
        let token: u32 = if self.token == TOKEN_VALUE_MASK {
            0
        } else {
            self.token + 1
        };
        CHead { ptr, block_length, has_next: false, index: 0, token }
    }
}

/// Two consumer heads with the same word are the same head.
pub proof fn law_chead_words(a: CHead, b: CHead)
    requires
        a.valid(),
        b.valid(),
    ensures
        a.wide() == b.wide() ==> a == b,
        a.narrow() == b.narrow() ==> a == (CHead { ptr: a.ptr, ..b }),
{
    let (p, n, t, l, i) = (a.ptr, a.has_next, a.token, a.block_length, a.index);
    let (q, h, u, m, j) = (b.ptr, b.has_next, b.token, b.block_length, b.index);
    assert({
        &&& ((p as u128) << 64u128) | ((if n {
            1u128
        } else {
            0u128
        }) << 63u128) | ((t as u128) << 32u128) | ((l as u128) << 16u128) | (i as u128) == ((
        q as u128) << 64u128) | ((if h {
            1u128
        } else {
            0u128
        }) << 63u128) | ((u as u128) << 32u128) | ((m as u128) << 16u128) | (j as u128) ==> p == q
            && n == h && t == u && l == m && i == j
        &&& ((if n {
            1u64
        } else {
            0u64
        }) << 63u64) | ((t as u64) << 32u64) | ((l as u64) << 16u64) | (i as u64) == ((if h {
            1u64
        } else {
            0u64
        }) << 63u64) | ((u as u64) << 32u64) | ((m as u64) << 16u64) | (j as u64) ==> n == h && t
            == u && l == m && i == j
    }) by (bit_vector)
        requires
            t <= 0x7fff_ffffu32,
            u <= 0x7fff_ffffu32,
    ;
}

} // verus!
