//! The base-page size, the unit in which queue blocks are allocated.
use vstd::prelude::*;

verus! {

/// `n` is a positive power of two.
pub open spec fn is_power_of_two(n: usize) -> bool {
    n != 0 && n & ((n - 1) as usize) == 0
}

/// Whether `size` can be the size of a page.
pub fn is_page_size(size: usize) -> (fit: bool)
    ensures
        fit == is_power_of_two(size),
{
    size != 0 && size & (size - 1) == 0
}

/// A cached answer to the page-size query.
///
/// Zero stands for "not asked yet"; after the first accepted answer the value
/// never changes again.
pub struct PageSizeCache {
    value: usize,
}

impl PageSizeCache {
    /// The cached size, zero before the first answer.
    pub closed spec fn cached(&self) -> usize {
        self.value
    }

    pub open spec fn wf(&self) -> bool {
        self.cached() != 0 ==> is_power_of_two(self.cached())
    }

    pub fn new() -> (cache: Self)
        ensures
            cache.wf(),
            cache.cached() == 0,
    {
        PageSizeCache { value: 0 }
    }

    /// Answers from the cache, or accepts `queried` as the first answer.
    ///
    /// A size which is not a power of two cannot be used as an alignment; the
    /// caller has to reject it first.
    pub fn page_size(&mut self, queried: usize) -> (size: usize)
        requires
            old(self).wf(),
            old(self).cached() == 0 ==> is_power_of_two(queried),
        ensures
            final(self).wf(),
            final(self).cached() == size,
            size == (if old(self).cached() != 0 {
                old(self).cached()
            } else {
                queried
            }),
            is_power_of_two(size),
    {
        if self.value != 0 {
            return self.value;
        }
        self.value = queried;
        queried
    }
}

/// The sizes of pages are the powers of two.
pub proof fn law_page_sizes_are_powers_of_two(n: usize)
    ensures
        is_power_of_two(n) <==> exists|k: nat| n == #[trigger] vstd::arithmetic::power2::pow2(k),
{
    lemma_halves(n);
    crate::bench::blocks::law_powers_of_two(n as nat);
}

proof fn lemma_halves(n: usize)
    ensures
        is_power_of_two(n) == crate::bench::blocks::is_power_of_two(n as nat),
    decreases n,
{
    if n == 1 {
        assert(1usize & 0usize == 0) by (bit_vector);
    } else if n > 1 {
        let less = (n - 1) as usize;
        let half = n / 2;
        let below = (half - 1) as usize;
        assert(n > 1 && less == n - 1 && n % 2 == 1 ==> n & less != 0) by (bit_vector);
        assert(n > 1 && less == n - 1 && half == n / 2 && below == half - 1 && n % 2 == 0 ==> ((n
            & less == 0) <==> (half & below == 0))) by (bit_vector);
        lemma_halves(half);
    }
}

} // verus!
