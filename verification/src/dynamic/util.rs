//! Small conversions.
use vstd::prelude::*;

verus! {

/// `cap` values, each made by `fill`.
pub fn new_filled_box_slice<T, F: Fn() -> T>(fill: F, cap: usize) -> (slice: Vec<T>)
    requires
        call_requires(fill, ()),
    ensures
        slice@.len() == cap,
        forall|i: int| 0 <= i < cap ==> call_ensures(fill, (), #[trigger] slice@[i]),
{
    let mut slice: Vec<T> = Vec::new();
    let mut made: usize = 0;
    while made < cap
        invariant
            call_requires(fill, ()),
            made <= cap,
            slice@.len() == made,
            forall|i: int| 0 <= i < made ==> call_ensures(fill, (), #[trigger] slice@[i]),
        decreases cap - made,
    {
        slice.push(fill());
        made = made + 1;
    }
    slice
}

/// The value, or the largest `u16` if it is larger than that.
pub fn usize_as_u16_or_max(value: usize) -> (short: u16)
    ensures
        short == (if value <= u16::MAX {
            value as int
        } else {
            u16::MAX as int
        }),
{
    if value <= 0xffff {
        value as u16
    } else {
        u16::MAX
    }
}

} // verus!
