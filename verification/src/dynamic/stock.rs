//! How long the blocks are that a producer prepares, and which the pool keeps.
//!
//! The pool has places for blocks that were read completely. A producer that
//! needs more slots than are linked takes blocks out of the pool first, and
//! makes new ones for the rest.
use vstd::prelude::*;

use crate::dynamic::heads::MAX_BLOCK_LENGTH;
use crate::queue::{law_the_first_value_follows_the_lead, lead};

verus! {

/// The sum of some lengths.
pub open spec fn total(lengths: Seq<int>) -> int
    decreases lengths.len(),
{
    if lengths.len() == 0 {
        0
    } else {
        total(lengths.drop_last()) + lengths.last()
    }
}

pub proof fn lemma_total_push(lengths: Seq<int>, length: int)
    ensures
        total(lengths.push(length)) == total(lengths) + length,
{
    assert(lengths.push(length).drop_last() =~= lengths);
}

/// The length of a new block for some missing slots.
pub open spec fn new_length(missing: int, least: int) -> int {
    if missing < least {
        least
    } else if missing > MAX_BLOCK_LENGTH {
        MAX_BLOCK_LENGTH as int
    } else {
        missing
    }
}

/// The first place of the pool that is free.
pub open spec fn first_free(pool: Seq<Option<int>>) -> int
    decreases pool.len(),
{
    if pool.len() == 0 || pool.first() is None {
        0
    } else {
        1 + first_free(pool.drop_first())
    }
}

/// The pool after a block was given to it: the block goes to the first free
/// place, and is dropped if there is none.
pub open spec fn given(pool: Seq<Option<int>>, length: int) -> Seq<Option<int>> {
    if first_free(pool) < pool.len() {
        pool.update(first_free(pool), Some(length))
    } else {
        pool
    }
}

/// The first free place is the one before which there is none.
pub proof fn lemma_first_free(pool: Seq<Option<int>>, place: int)
    requires
        0 <= place <= pool.len(),
        forall|i: int| 0 <= i < place ==> #[trigger] pool[i] is Some,
        place < pool.len() ==> pool[place] is None,
    ensures
        first_free(pool) == place,
    decreases pool.len(),
{
    if place > 0 {
        let rest = pool.drop_first();
        assert(pool[0] is Some);
        assert forall|i: int| 0 <= i < place - 1 implies #[trigger] rest[i] is Some by {
            assert(pool[i + 1] is Some);
        }
        lemma_first_free(rest, place - 1);
    }
}

/// The first place with a block is the one before which there is none.
pub proof fn lemma_first_kept(pool: Seq<Option<int>>, place: int)
    requires
        0 <= place <= pool.len(),
        forall|i: int| 0 <= i < place ==> #[trigger] pool[i] is None,
        place < pool.len() ==> pool[place] is Some,
    ensures
        lead(pool) == place,
{
    law_the_first_value_follows_the_lead(pool);
    if lead(pool) < place {
        assert(pool[lead(pool)] is None);
    } else if place < lead(pool) {
        assert(pool[place] is None);
    }
}

/// The lengths of the blocks in the places of the pool, and of those in the
/// private chain of a producer.
#[verifier::ext_equal]
pub struct Stock {
    pub pool: Seq<Option<int>>,
    pub chain: Seq<int>,
}

impl Stock {
    /// How far the chain is from holding some slots.
    pub open spec fn missing(self, request: int) -> int {
        if total(self.chain) < request {
            request - total(self.chain)
        } else {
            0
        }
    }

    /// Blocks out of the pool are added to the chain, in the order of their
    /// places, until it holds so many slots or the pool has none left.
    pub open spec fn refilled(self, request: int) -> Stock
        decreases self.missing(request),
    {
        let place = lead(self.pool);
        if self.missing(request) == 0 || place >= self.pool.len() || self.pool[place]->0 < 1 {
            self
        } else {
            let length = self.pool[place]->0;
            proof {
                lemma_total_push(self.chain, length);
            }
            (Stock {
                pool: self.pool.update(place, None),
                chain: self.chain.push(length),
            }).refilled(request)
        }
    }

    /// New blocks are added to the chain until it holds so many slots. Each is
    /// as long as what is missing, within the limits.
    pub open spec fn grown(self, request: int, least: int) -> Stock
        decreases self.missing(request),
    {
        let length = new_length(self.missing(request), least);
        if self.missing(request) == 0 || length < 1 {
            self
        } else {
            proof {
                lemma_total_push(self.chain, length);
            }
            (Stock { chain: self.chain.push(length), ..self }).grown(request, least)
        }
    }

    /// The chain is made long enough for a batch behind a head that knows of
    /// `excess` slots in later blocks. The pool is asked only for an empty
    /// chain.
    pub open spec fn ensured(self, excess: int, len: int, least: int) -> Stock {
        let request = len + 1 - excess;
        if self.missing(request) == 0 {
            self
        } else if self.chain.len() == 0 {
            self.refilled(request).grown(request, least)
        } else {
            self.grown(request, least)
        }
    }
}

proof fn lemma_refilled_pool(stock: Stock, request: int)
    requires
        forall|i: int|
            0 <= i < stock.pool.len() && stock.pool[i] is Some ==> #[trigger] stock.pool[i]->0 >= 1,
    ensures
        stock.refilled(request).missing(request) == 0 || forall|i: int|
            0 <= i < stock.pool.len() ==> #[trigger] stock.refilled(request).pool[i] is None,
        stock.refilled(request).pool.len() == stock.pool.len(),
    decreases stock.missing(request),
{
    let place = lead(stock.pool);
    law_the_first_value_follows_the_lead(stock.pool);
    if stock.missing(request) > 0 && place < stock.pool.len() {
        let length = stock.pool[place]->0;
        let next = Stock {
            pool: stock.pool.update(place, None),
            chain: stock.chain.push(length),
        };
        lemma_total_push(stock.chain, length);
        assert forall|i: int| 0 <= i < next.pool.len() && next.pool[i] is Some implies
            #[trigger] next.pool[i]->0 >= 1 by {
            assert(stock.pool[i] == next.pool[i]);
        }
        lemma_refilled_pool(next, request);
    }
}

/// New blocks are made only when the pool has none left.
pub proof fn law_the_pool_comes_first(stock: Stock, excess: int, len: int, least: int)
    requires
        stock.chain.len() == 0,
        forall|i: int|
            0 <= i < stock.pool.len() && stock.pool[i] is Some ==> #[trigger] stock.pool[i]->0 >= 1,
    ensures
        ({
            let request = len + 1 - excess;
            let refilled = stock.refilled(request);
            stock.ensured(excess, len, least) == refilled || forall|i: int|
                0 <= i < stock.pool.len() ==> #[trigger] refilled.pool[i] is None
        }),
{
    lemma_refilled_pool(stock, len + 1 - excess);
}

/// A chain that grew holds as many slots as were asked for, and the pool is left
/// alone.
pub proof fn law_a_grown_chain_is_long_enough(stock: Stock, request: int, least: int)
    requires
        least >= 1,
    ensures
        stock.grown(request, least).missing(request) == 0,
        stock.grown(request, least).pool == stock.pool,
    decreases stock.missing(request),
{
    if stock.missing(request) > 0 {
        let length = new_length(stock.missing(request), least);
        lemma_total_push(stock.chain, length);
        law_a_grown_chain_is_long_enough(
            Stock { chain: stock.chain.push(length), ..stock },
            request,
            least,
        );
    }
}

/// A new block has as many slots as are missing, but never fewer than the least
/// length and, beyond that, never more than a block can have.
pub proof fn law_the_length_of_a_new_block(missing: int, least: int)
    requires
        least <= MAX_BLOCK_LENGTH,
    ensures
        least <= new_length(missing, least) <= MAX_BLOCK_LENGTH,
        least <= missing <= MAX_BLOCK_LENGTH ==> new_length(missing, least) == missing,
        missing < least ==> new_length(missing, least) == least,
        missing > MAX_BLOCK_LENGTH ==> new_length(missing, least) == MAX_BLOCK_LENGTH,
{
}

/// A block that is given back goes to a free place of the pool where there is one,
/// and to the first; all other places keep what they have.
pub proof fn law_a_block_goes_to_the_first_free_place(
    pool: Seq<Option<int>>,
    length: int,
    place: int,
)
    requires
        0 <= place <= pool.len(),
        forall|i: int| 0 <= i < place ==> #[trigger] pool[i] is Some,
        place < pool.len() ==> pool[place] is None,
    ensures
        given(pool, length) == (if place < pool.len() {
            pool.update(place, Some(length))
        } else {
            pool
        }),
{
    lemma_first_free(pool, place);
}

} // verus!
