//! Two half-word counters in one word: claimed in the upper half, committed in
//! the lower.
use vstd::prelude::*;

verus! {

/// Number of element slots per block.
pub const L: u16 = 32;

/// The lower half: the committed count.
pub fn low(r: u32) -> (count: u16)
    ensures
        count == spec_low(r),
{
    r as u16
}

pub open spec fn spec_low(r: u32) -> u16 {
    r as u16
}

/// The upper half: the claimed count.
pub fn high(r: u32) -> (count: u16)
    ensures
        count == spec_high(r),
{
    (r >> 16u32) as u16
}

pub open spec fn spec_high(r: u32) -> u16 {
    (r >> 16u32) as u16
}

/// Packs `h` into the upper half and `l` into the lower.
pub fn merge(h: u16, l: u16) -> (r: u32)
    ensures
        r == spec_merge(h, l),
        r == h * 0x1_0000 + l,
{
    proof {
        law_merge(h, l);
    }
    ((h as u32) << 16u32) | (l as u32)
}

pub open spec fn spec_merge(h: u16, l: u16) -> u32 {
    ((h as u32) << 16u32) | (l as u32)
}

/// The halves of a merged word are the parts it was merged from.
pub proof fn law_merge(h: u16, l: u16)
    ensures
        spec_low(spec_merge(h, l)) == l,
        spec_high(spec_merge(h, l)) == h,
        spec_merge(h, l) == h * 0x1_0000 + l,
{
    assert({
        let r = ((h as u32) << 16u32) | (l as u32);
        &&& r as u16 == l
        &&& (r >> 16u32) as u16 == h
        &&& r == h * 0x1_0000 + l
    }) by (bit_vector);
}

/// Merging the halves of a word gives the word back.
pub proof fn law_split(r: u32)
    ensures
        spec_merge(spec_high(r), spec_low(r)) == r,
        r == spec_high(r) * 0x1_0000 + spec_low(r),
{
    law_merge(spec_high(r), spec_low(r));
    assert(((((r >> 16u32) as u16) as u32) << 16u32) | ((r as u16) as u32) == r) by (bit_vector);
}

/// Whether no claimed slot is still uncommitted, or the block is full.
pub fn stab(u: u32) -> (stable: bool)
    ensures
        stable == spec_stab(u),
{
    high(u) == low(u) || low(u) == L
}

pub open spec fn spec_stab(u: u32) -> bool {
    spec_high(u) == spec_low(u) || spec_low(u) == L
}

} // verus!
