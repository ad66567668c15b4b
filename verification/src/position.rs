//! Positions in a chain of fixed-length blocks.
use vstd::prelude::*;

verus! {

/// Position of slot `index` of block number `number`.
pub open spec fn position(length: int, number: int, index: int) -> int {
    number * length + index
}

/// Positions in different blocks are ordered like the blocks.
pub proof fn lemma_position_order(length: int, a: int, b: int)
    requires
        0 < length,
        a < b,
    ensures
        position(length, a, length) <= position(length, b, 0),
{
    assert(a * length + length <= b * length) by (nonlinear_arith)
        requires
            0 < length,
            a < b,
    ;
}

pub proof fn lemma_position_nonnegative(length: int, number: int, index: int)
    requires
        0 <= length,
        0 <= number,
        0 <= index,
    ensures
        0 <= position(length, number, index),
{
    assert(0 <= number * length) by (nonlinear_arith)
        requires
            0 <= length,
            0 <= number,
    ;
}

pub proof fn lemma_position_next(length: int, number: int)
    ensures
        position(length, number, length) == position(length, number + 1, 0),
{
    assert(number * length + length == (number + 1) * length) by (nonlinear_arith);
}

/// Whole blocks add up.
pub proof fn lemma_position_sum(length: int, a: int, b: int)
    ensures
        position(length, a + b, 0) == position(length, a, 0) + position(length, b, 0),
{
    assert((a + b) * length == a * length + b * length) by (nonlinear_arith);
}

/// A position determines its block number and index.
pub proof fn lemma_position_injective(length: int, a: int, i: int, b: int, j: int)
    requires
        0 < length,
        0 <= i < length,
        0 <= j < length,
        position(length, a, i) == position(length, b, j),
    ensures
        a == b,
        i == j,
{
    if a < b {
        lemma_position_order(length, a, b);
    } else if b < a {
        lemma_position_order(length, b, a);
    }
}

/// The positions from `from` up to but not including `to`.
pub open spec fn span(from: int, to: int) -> Set<int> {
    Set::new(|p: int| from <= p < to)
}

} // verus!
