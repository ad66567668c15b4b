//! Sums over lists of numbers.
use vstd::prelude::*;

verus! {

/// The sum of a list of numbers.
pub open spec fn sum(list: Seq<int>) -> int
    decreases list.len(),
{
    if list.len() == 0 {
        0
    } else {
        sum(list.drop_last()) + list.last()
    }
}

/// One number in place of another changes the sum by their difference.
pub proof fn lemma_sum_update(list: Seq<int>, t: int, value: int)
    requires
        0 <= t < list.len(),
    ensures
        sum(list.update(t, value)) == sum(list) - list[t] + value,
    decreases list.len(),
{
    let last = list.len() - 1;
    if t == last {
        assert(list.update(t, value).drop_last() =~= list.drop_last());
    } else {
        lemma_sum_update(list.drop_last(), t, value);
        assert(list.update(t, value).drop_last() =~= list.drop_last().update(t, value));
    }
}

/// No number of a list without negative numbers is larger than the sum.
pub proof fn lemma_sum_covers(list: Seq<int>, t: int)
    requires
        0 <= t < list.len(),
        forall|i: int| 0 <= i < list.len() ==> #[trigger] list[i] >= 0,
    ensures
        list[t] <= sum(list),
    decreases list.len(),
{
    lemma_sum_is_natural(list.drop_last());
    if t < list.len() - 1 {
        lemma_sum_covers(list.drop_last(), t);
    }
}

/// A list without negative numbers has no negative sum.
pub proof fn lemma_sum_is_natural(list: Seq<int>)
    requires
        forall|i: int| 0 <= i < list.len() ==> #[trigger] list[i] >= 0,
    ensures
        sum(list) >= 0,
    decreases list.len(),
{
    if list.len() > 0 {
        lemma_sum_is_natural(list.drop_last());
    }
}

/// The sum of zeros is zero.
pub proof fn lemma_sum_of_zeros(list: Seq<int>)
    requires
        forall|i: int| 0 <= i < list.len() ==> #[trigger] list[i] == 0,
    ensures
        sum(list) == 0,
    decreases list.len(),
{
    if list.len() > 0 {
        lemma_sum_of_zeros(list.drop_last());
    }
}

} // verus!
