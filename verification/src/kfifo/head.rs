//! Queue heads packed into one machine word.
//!
//! A head names a block and an index inside it. Blocks are page aligned, so
//! the low bits of a block's address are free to carry the index and, where a
//! bit is left over, a hint that the block has a successor.
use vstd::prelude::*;

use crate::page::is_power_of_two;

verus! {

/// How block addresses, slot indices and the successor hint share a word.
#[derive(Clone, Copy, Debug)]
pub struct HeadCodec {
    page_bits: u32,
    block_length: usize,
    pointer_mask: usize,
    index_mask: usize,
    has_next_mask: usize,
}

/// A decoded head: a block address (zero for none), a slot index and a hint.
#[derive(Clone, Copy, Debug, PartialEq, Eq, Structural)]
pub struct Head {
    pub block: usize,
    pub index: usize,
    pub has_next: bool,
}

impl HeadCodec {
    /// Number of slots in one block.
    pub closed spec fn length(&self) -> usize {
        self.block_length
    }

    /// The low address bits that are zero for every block.
    pub closed spec fn bits(&self) -> u32 {
        self.page_bits
    }

    /// Whether the hint has a bit of its own.
    pub closed spec fn hint_encoded(&self) -> bool {
        self.has_next_mask != 0
    }

    pub closed spec fn wf(&self) -> bool {
        let page = 1usize << self.page_bits;
        let low = (page - 1) as usize;
        &&& self.page_bits < usize::BITS
        &&& 0 < self.block_length <= self.index_mask
        &&& self.index_mask / 2 < self.block_length
        &&& self.index_mask & ((self.index_mask + 1) as usize) == 0
        &&& self.index_mask < usize::MAX
        &&& self.index_mask & low == self.index_mask
        &&& self.pointer_mask == !low
        &&& self.has_next_mask == (if self.index_mask == low {
            0usize
        } else {
            (self.index_mask + 1) as usize
        })
    }

    /// The page address of the block with number `id` in a queue's arena.
    pub open spec fn address(&self, id: int) -> usize
        recommends
            self.addressable(id),
    {
        ((id + 1) as usize) << self.bits()
    }

    /// Block `id` has a page of its own in the address space.
    pub open spec fn addressable(&self, id: int) -> bool {
        0 <= id < usize::MAX >> self.bits()
    }

    /// How many blocks have a page of their own.
    pub open spec fn limit(&self) -> int {
        (usize::MAX >> self.bits()) as int
    }

    /// A head that the word can hold: a page address and an index up to and
    /// including the block length.
    pub open spec fn representable(&self, head: Head) -> bool {
        &&& head.block == (head.block >> self.bits()) << self.bits()
        &&& head.index <= self.length()
    }

    /// What is left of a head after a round trip through the word: all of it
    /// where the hint has a bit, everything but the hint where it has not.
    pub open spec fn stored(&self, head: Head) -> Head {
        Head { has_next: head.has_next && self.hint_encoded(), ..head }
    }

    pub closed spec fn encode(&self, head: Head) -> usize {
        head.block | (head.index & self.index_mask) | (if head.has_next {
            self.has_next_mask
        } else {
            0
        })
    }

    pub closed spec fn decode(&self, word: usize) -> Head {
        Head {
            block: word & self.pointer_mask,
            index: word & self.index_mask,
            has_next: self.has_next_mask != 0 && word & self.has_next_mask != 0,
        }
    }

    /// Builds the codec for pages of `page_size` bytes holding `block_length`
    /// slots each. An index up to the block length has to fit beside the
    /// pointer, which is the case below the page size.
    pub fn new(page_size: usize, block_length: usize) -> (codec: Self)
        requires
            is_power_of_two(page_size),
            0 < block_length < page_size,
        ensures
            codec.wf(),
            codec.length() == block_length,
            1usize << codec.bits() == page_size,
            codec.limit() == usize::MAX / page_size,
            codec.hint_encoded() <==> exists|smaller: usize|
                #[trigger] is_power_of_two(smaller) && block_length < smaller < page_size,
    {
        let mut page_bits: u32 = 0;
        let mut rest: usize = page_size;
        proof {
            assert(page_size >> 0u32 == page_size && page_size << 0u32 == page_size)
                by (bit_vector);
        }
        while rest != 1
            invariant
                page_bits < usize::BITS,
                is_power_of_two(rest),
                rest == page_size >> page_bits,
                rest << page_bits == page_size,
            decreases rest,
        {
            let ghost old_bits = page_bits;
            let ghost old_rest = rest;
            assert({
                let half = old_rest >> 1;
                &&& half < old_rest
                &&& half != 0
                &&& half & ((half - 1) as usize) == 0
                &&& old_bits + 1 < usize::BITS
                &&& half == page_size >> ((old_bits + 1) as u32)
                &&& half << ((old_bits + 1) as u32) == page_size
            }) by (bit_vector)
                requires
                    old_bits < usize::BITS,
                    old_rest != 0,
                    old_rest != 1,
                    old_rest & ((old_rest - 1) as usize) == 0,
                    old_rest == page_size >> old_bits,
                    old_rest << old_bits == page_size,
            ;
            rest = rest >> 1;
            page_bits = page_bits + 1;
        }
        let low: usize = page_size - 1;
        let mut index_mask: usize = 1;
        assert(1usize & ((1usize + 1) as usize) == 0) by (bit_vector);
        assert(low >= 1 ==> 1usize & low == 1) by (bit_vector)
            requires
                page_size & ((page_size - 1) as usize) == 0,
                page_size != 0,
                low == page_size - 1,
        ;
        while index_mask < block_length
            invariant
                page_size != 0,
                page_size & ((page_size - 1) as usize) == 0,
                low == page_size - 1,
                0 < block_length <= low,
                1 <= index_mask <= low,
                index_mask / 2 < block_length,
                index_mask & ((index_mask + 1) as usize) == 0,
                index_mask & low == index_mask,
            decreases low - index_mask,
        {
            let ghost mask = index_mask;
            assert({
                let wider = ((mask << 1) | 1) as usize;
                &&& mask < wider <= low
                &&& wider / 2 == mask
                &&& wider & ((wider + 1) as usize) == 0
                &&& wider & low == wider
            }) by (bit_vector)
                requires
                    page_size & ((page_size - 1) as usize) == 0,
                    page_size != 0,
                    low == page_size - 1,
                    1 <= mask < low,
                    mask & ((mask + 1) as usize) == 0,
                    mask & low == mask,
            ;
            index_mask = (index_mask << 1) | 1;
        }
        let has_next_mask: usize = if index_mask == low {
            0
        } else {
            index_mask + 1
        };
        let codec = HeadCodec {
            page_bits,
            block_length,
            pointer_mask: !low,
            index_mask,
            has_next_mask,
        };
        proof {
            codec.lemma_limit(page_size);
            if index_mask != low {
                let smaller = (index_mask + 1) as usize;
                assert(smaller & ((smaller - 1) as usize) == 0 && smaller < page_size) by (bit_vector)
                    requires
                        page_size & ((page_size - 1) as usize) == 0,
                        page_size != 0,
                        low == page_size - 1,
                        index_mask < low,
                        index_mask & ((index_mask + 1) as usize) == 0,
                        smaller == index_mask + 1,
                ;
                assert(is_power_of_two(smaller));
            } else {
                assert forall|smaller: usize|
                    #[trigger] is_power_of_two(smaller) && block_length < smaller implies smaller >= page_size by {
                    assert(smaller >= page_size) by (bit_vector)
                        requires
                            page_size & ((page_size - 1) as usize) == 0,
                            page_size != 0,
                            low == page_size - 1,
                            low / 2 < block_length,
                            smaller != 0,
                            smaller & ((smaller - 1) as usize) == 0,
                            block_length < smaller,
                    ;
                }
            }
        }
        codec
    }

    pub fn block_length(&self) -> (length: usize)
        ensures
            length == self.length(),
    {
        self.block_length
    }

    pub fn has_next_enabled(&self) -> (enabled: bool)
        ensures
            enabled == self.hint_encoded(),
    {
        self.has_next_mask != 0
    }

    /// The page address of arena block `id`.
    pub fn address_of(&self, id: usize) -> (address: usize)
        requires
            self.wf(),
            self.addressable(id as int),
        ensures
            address == self.address(id as int),
    {
        (id + 1) << self.page_bits
    }

    /// The arena block behind a page address.
    pub fn id_of(&self, address: usize) -> (id: usize)
        requires
            self.wf(),
            address >> self.bits() >= 1,
        ensures
            id == (address >> self.bits()) - 1,
    {
        (address >> self.page_bits) - 1
    }

    /// Whether one more arena block than `count` still has an address.
    pub fn has_room(&self, count: usize) -> (room: bool)
        requires
            self.wf(),
        ensures
            room == self.addressable(count as int),
    {
        count < usize::MAX >> self.page_bits
    }

    /// There are as many blocks as pages fit into the address space, but for
    /// the page that stands for none.
    proof fn lemma_limit(&self, page_size: usize)
        requires
            self.bits() < usize::BITS,
            1usize << self.bits() == page_size,
        ensures
            self.limit() == usize::MAX / page_size,
    {
        let bits = self.bits() as usize;
        vstd::bits::lemma_usize_shr_is_div(usize::MAX, bits);
        vstd::bits::lemma_usize_pow2_no_overflow(bits as nat);
        vstd::bits::lemma_usize_shl_is_mul(1, bits);
    }

    /// A block has at least one slot, and an index past its end still fits.
    pub proof fn lemma_length(&self)
        requires
            self.wf(),
        ensures
            0 < self.length() < usize::MAX,
            2 * self.length() < usize::MAX,
            self.bits() < usize::BITS,
    {
        let bits = self.page_bits;
        let mask = self.index_mask;
        let max = usize::MAX;
        assert(max <= !0usize && 2 * mask < !0usize) by (bit_vector)
            requires
                bits < usize::BITS,
                mask & (((1usize << bits) - 1) as usize) == mask,
        ;
    }

    /// Addresses are page aligned, never zero, and tell blocks apart.
    pub proof fn lemma_address(&self, id: int)
        requires
            self.wf(),
            self.addressable(id),
        ensures
            self.address(id) != 0,
            self.address(id) >> self.bits() == id + 1,
            self.address(id) == (self.address(id) >> self.bits()) << self.bits(),
    {
        let n = (id + 1) as usize;
        let bits = self.page_bits;
        let max = usize::MAX;
        assert(max <= !0usize) by (bit_vector);
        assert((n << bits) >> bits == n && n << bits != 0) by (bit_vector)
            requires
                bits < usize::BITS,
                0 < n <= max >> bits,
                max == !0usize,
        ;
    }

    /// Two blocks with the same address are one block.
    pub proof fn lemma_address_injective(&self, a: int, b: int)
        requires
            self.wf(),
            self.addressable(a),
            self.addressable(b),
            self.address(a) == self.address(b),
        ensures
            a == b,
    {
        self.lemma_address(a);
        self.lemma_address(b);
    }

    /// Decoding an encoded head gives it back, except for a hint that has no
    /// bit to live in.
    pub proof fn lemma_round_trip(&self, head: Head)
        requires
            self.wf(),
            self.representable(head),
        ensures
            self.decode(self.encode(head)) == self.stored(head),
    {
        let bits = self.page_bits;
        let page = 1usize << bits;
        let low = (page - 1) as usize;
        let block = head.block;
        let high = block >> bits;
        let index = head.index;
        let mask = self.index_mask;
        let has_next_mask = self.has_next_mask;
        let max = usize::MAX;
        assert(max <= !0usize) by (bit_vector);
        let hint = if head.has_next {
            has_next_mask
        } else {
            0usize
        };
        let word = block | (index & mask) | hint;
        assert({
            &&& word & !low == block
            &&& word & mask == index
            &&& word & has_next_mask == hint
        }) by (bit_vector)
            requires
                bits < usize::BITS,
                page == 1usize << bits,
                low == (page - 1) as usize,
                high == block >> bits,
                block == high << bits,
                index <= mask,
                mask & ((mask + 1) as usize) == 0,
                mask & low == mask,
                mask != !0usize,
                has_next_mask == (if mask == low {
                    0usize
                } else {
                    (mask + 1) as usize
                }),
                hint == 0 || hint == has_next_mask,
                word == block | (index & mask) | hint,
        ;
    }

    /// Two representable heads share a word only if they agree on everything
    /// that is stored.
    pub proof fn lemma_encode_injective(&self, a: Head, b: Head)
        requires
            self.wf(),
            self.representable(a),
            self.representable(b),
            self.encode(a) == self.encode(b),
        ensures
            self.stored(a) == self.stored(b),
    {
        self.lemma_round_trip(a);
        self.lemma_round_trip(b);
    }

    /// A head and what is stored of it have the same word.
    pub proof fn lemma_encode_stored(&self, head: Head)
        ensures
            self.encode(self.stored(head)) == self.encode(head),
    {
    }

    /// The zero word is the zero head, both ways.
    pub proof fn lemma_zero(&self)
        requires
            self.wf(),
        ensures
            self.decode(0) == zero_head(),
            self.encode(zero_head()) == 0,
    {
        let pointer_mask = self.pointer_mask;
        let mask = self.index_mask;
        let hint = self.has_next_mask;
        assert(0usize & pointer_mask == 0 && 0usize & mask == 0 && 0usize & hint == 0 && 0usize | (
        0usize & mask) | 0usize == 0) by (bit_vector);
    }

    /// A head that names a block is not stored as the zero word.
    pub proof fn lemma_nonzero(&self, head: Head)
        requires
            self.wf(),
            self.representable(head),
            head.block != 0,
        ensures
            self.encode(head) != 0,
    {
        self.lemma_round_trip(head);
        self.lemma_zero();
    }
}

/// No block, no index, no hint.
pub open spec fn zero_head() -> Head {
    Head { block: 0, index: 0, has_next: false }
}

impl Head {
    pub fn zero() -> (head: Self)
        ensures
            head == zero_head(),
    {
        Head { block: 0, index: 0, has_next: false }
    }

    /// The start of a block, without a hint.
    pub fn from_ptr(block: usize) -> (head: Self)
        ensures
            head == (Head { block, index: 0, has_next: false }),
    {
        Head { block, index: 0, has_next: false }
    }

    pub fn from_usize(value: usize, codec: &HeadCodec) -> (head: Self)
        ensures
            head == codec.decode(value),
    {
        Head {
            block: value & codec.pointer_mask,
            index: value & codec.index_mask,
            has_next: codec.has_next_mask != 0 && value & codec.has_next_mask != 0,
        }
    }

    pub fn to_usize(self, codec: &HeadCodec) -> (value: usize)
        requires
            codec.wf(),
            codec.representable(self),
        ensures
            value == codec.encode(self),
            codec.decode(value) == codec.stored(self),
    {
        proof {
            codec.lemma_round_trip(self);
        }
        self.block | (self.index & codec.index_mask) | (if self.has_next {
            codec.has_next_mask
        } else {
            0
        })
    }

    pub fn is_zero(&self) -> (zero: bool)
        ensures
            zero == (*self == zero_head()),
    {
        self.block == 0 && self.index == 0 && !self.has_next
    }
}

} // verus!
