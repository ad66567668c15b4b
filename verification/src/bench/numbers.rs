//! Sorted lists of numbers.
use vstd::prelude::*;

verus! {

/// In increasing order, without repetition.
pub open spec fn rising(list: Seq<u64>) -> bool {
    forall|i: int, j: int| 0 <= i < j < list.len() ==> #[trigger] list[i] < #[trigger] list[j]
}

/// Puts a number into an increasing list, unless it is there already.
pub fn insert_number(list: &mut Vec<u64>, value: u64)
    requires
        rising(old(list)@),
    ensures
        rising(final(list)@),
        forall|v: u64| #[trigger]
            final(list)@.contains(v) <==> old(list)@.contains(v) || v == value,
{
    let ghost before = list@;
    let mut at: usize = 0;
    while at < list.len() && list[at] < value
        invariant
            list@ == before,
            at <= list@.len(),
            rising(before),
            forall|j: int| 0 <= j < at ==> before[j] < value,
        decreases list@.len() - at,
    {
        at = at + 1;
    }
    if at < list.len() && list[at] == value {
        assert(before.contains(value));
        return;
    }
    list.insert(at, value);
    proof {
        let after = list@;
        assert(after =~= before.insert(at as int, value));
        assert forall|i: int, j: int| 0 <= i < j < after.len() implies #[trigger] after[i]
            < #[trigger] after[j] by {
            let a = if i < at {
                i
            } else {
                i - 1
            };
            let b = if j < at {
                j
            } else {
                j - 1
            };
            if i != at {
                assert(after[i] == before[a]);
            }
            if j != at {
                assert(after[j] == before[b]);
            }
            if i == at && b > at {
                assert(before[at as int] < before[b]);
            }
        }
        assert forall|v: u64| #[trigger] after.contains(v) <==> before.contains(v) || v
            == value by {
            if before.contains(v) {
                let k = before.index_of(v);
                if k < at {
                    assert(after[k] == v);
                } else {
                    assert(after[k + 1] == v);
                }
            }
            if v == value {
                assert(after[at as int] == v);
            }
            if after.contains(v) {
                let k = after.index_of(v);
                if k < at {
                    assert(before[k] == v);
                } else if k > at {
                    assert(before[k - 1] == v);
                }
            }
        }
    }
}

/// The numbers of a list in increasing order, each once.
pub fn sorted_distinct(values: &[u64]) -> (list: Vec<u64>)
    ensures
        rising(list@),
        forall|v: u64| #[trigger] list@.contains(v) <==> values@.contains(v),
{
    let mut list: Vec<u64> = Vec::new();
    let mut i: usize = 0;
    while i < values.len()
        invariant
            i <= values@.len(),
            rising(list@),
            forall|v: u64| #[trigger]
                list@.contains(v) <==> exists|j: int| 0 <= j < i && values@[j] == v,
        decreases values@.len() - i,
    {
        insert_number(&mut list, values[i]);
        i = i + 1;
    }
    list
}

/// The last number of an increasing list is its largest.
pub proof fn law_last_is_largest(list: Seq<u64>, v: u64)
    requires
        rising(list),
        list.contains(v),
    ensures
        v <= list.last(),
{
    let k = list.index_of(v);
    if k < list.len() - 1 {
        assert(list[k] < list[list.len() - 1]);
    }
}

} // verus!
