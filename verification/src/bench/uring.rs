//! Bounded queues between a submitter, a kernel and a completer.
use vstd::arithmetic::div_mod::{lemma_fundamental_div_mod, lemma_mod_bound, lemma_small_mod};
use vstd::prelude::*;

use crate::bench::blocks::is_power_of_two;
use crate::queue::UBQ;
use crate::text::{decimal, decimal_text};

verus! {

/// A ring with an index array in front of its entries, as the kernel's
/// submission queue has it.
pub struct IoUringQueue {
    capacity: usize,
    head: usize,
    tail: usize,
    array: Vec<usize>,
    entries: Vec<u64>,
}

fn power_of_two(n: usize) -> (result: bool)
    ensures
        result == is_power_of_two(n as nat),
{
    if n == 0 {
        return false;
    }
    let mut rest: usize = n;
    while rest % 2 == 0
        invariant
            rest > 0,
            is_power_of_two(n as nat) == is_power_of_two(rest as nat),
        decreases rest,
    {
        rest = rest / 2;
    }
    rest == 1
}

/// Two numbers less than `n` apart have different remainders.
proof fn lemma_distinct_slots(a: int, b: int, n: int)
    requires
        n > 0,
        0 <= a < b < a + n,
    ensures
        a % n != b % n,
{
    lemma_fundamental_div_mod(a, n);
    lemma_fundamental_div_mod(b, n);
    let p = a / n;
    let q = b / n;
    if a % n == b % n {
        assert(b - a == n * q - n * p);
        assert(n * q - n * p == n * (q - p)) by (nonlinear_arith);
        assert(q - p <= 0 || n * (q - p) >= n) by (nonlinear_arith)
            requires
                n > 0,
        ;
        assert(q - p > 0 || n * (q - p) <= 0) by (nonlinear_arith)
            requires
                n > 0,
        ;
    }
}

/// Why there is no ring of a capacity, if there is none.
pub open spec fn ring_refusal(capacity: usize) -> Option<Seq<char>> {
    if capacity == 0 {
        Some("io_uring queue capacity must be > 0"@)
    } else if !is_power_of_two(capacity as nat) {
        Some("io_uring queue capacity must be a power of two, got "@ + decimal(capacity as nat))
    } else {
        None
    }
}

impl IoUringQueue {
    pub closed spec fn capacity(&self) -> int {
        self.capacity as int
    }

    /// How many values have been taken in all.
    pub closed spec fn taken(&self) -> int {
        self.head as int
    }

    /// How many values have been put in in all.
    pub closed spec fn given(&self) -> int {
        self.tail as int
    }

    /// The values that wait, in order.
    pub closed spec fn waiting(&self) -> Seq<u64> {
        Seq::new(
            (self.tail - self.head) as nat,
            |i: int| self.entries@[(self.head + i) % self.capacity as int],
        )
    }

    pub closed spec fn wf(&self) -> bool {
        &&& is_power_of_two(self.capacity as nat)
        &&& self.capacity > 0
        &&& self.head <= self.tail
        &&& self.tail - self.head <= self.capacity
        &&& self.array@.len() == self.capacity
        &&& self.entries@.len() == self.capacity
        &&& forall|i: int| 0 <= i < self.capacity ==> self.array@[i] == i
    }

    /// What is always true of a ring.
    pub proof fn lemma_bounds(&self)
        requires
            self.wf(),
        ensures
            self.capacity() > 0,
            self.waiting().len() == self.given() - self.taken(),
            self.waiting().len() <= self.capacity(),
    {
    }

    /// An empty ring; its capacity must be a power of two.
    pub fn new(capacity: usize) -> (result: Result<IoUringQueue, String>)
        ensures
            match result {
                Ok(queue) => {
                    &&& ring_refusal(capacity) is None
                    &&& queue.wf()
                    &&& queue.capacity() == capacity
                    &&& queue.given() == 0
                    &&& queue.taken() == 0
                    &&& queue.waiting() == Seq::<u64>::empty()
                },
                Err(message) => ring_refusal(capacity) == Some(message@),
            },
    {
        if capacity == 0 {
            return Err("io_uring queue capacity must be > 0".to_owned());
        }
        if !power_of_two(capacity) {
            let number = decimal_text(capacity as u128);
            let mut message = "io_uring queue capacity must be a power of two, got ".to_owned();
            message.append(number.as_str());
            return Err(message);
        }
        let mut array: Vec<usize> = Vec::new();
        let mut entries: Vec<u64> = Vec::new();
        let mut i: usize = 0;
        while i < capacity
            invariant
                i <= capacity,
                array@.len() == i,
                entries@.len() == i,
                forall|j: int| 0 <= j < i ==> array@[j] == j,
            decreases capacity - i,
        {
            array.push(i);
            entries.push(0);
            i = i + 1;
        }
        let queue = IoUringQueue { capacity, head: 0, tail: 0, array, entries };
        assert(queue.waiting() =~= Seq::<u64>::empty());
        Ok(queue)
    }

    /// Puts one value behind the others.
    fn put(&mut self, value: u64)
        requires
            old(self).wf(),
            old(self).waiting().len() < old(self).capacity(),
            old(self).given() < usize::MAX,
        ensures
            final(self).wf(),
            final(self).capacity() == old(self).capacity(),
            final(self).taken() == old(self).taken(),
            final(self).given() == old(self).given() + 1,
            final(self).waiting() == old(self).waiting().push(value),
    {
        let slot: usize = self.tail % self.capacity;
        proof {
            lemma_mod_bound(self.tail as int, self.capacity as int);
        }
        self.entries.set(slot, value);
        self.array.set(slot, slot);
        self.tail = self.tail + 1;
        proof {
            assert forall|i: int| 0 <= i < self.tail - self.head implies self.waiting()[i] == old(
                self,
            ).waiting().push(value)[i] by {
                if i < self.tail - 1 - self.head {
                    lemma_distinct_slots(
                        self.head + i,
                        self.tail - 1,
                        self.capacity as int,
                    );
                    lemma_mod_bound(self.head + i, self.capacity as int);
                }
            }
            assert(self.waiting() =~= old(self).waiting().push(value));
        }
    }

    /// How many of `count` values there is room for.
    pub open spec fn accepted(&self, count: int) -> int {
        if self.capacity() - self.waiting().len() < count {
            self.capacity() - self.waiting().len()
        } else {
            count
        }
    }

    /// Puts in as many values as there is room for, from the first on.
    pub fn push_batch(&mut self, values: &[u64]) -> (count: usize)
        requires
            old(self).wf(),
            old(self).given() + old(self).accepted(values@.len() as int) <= usize::MAX,
        ensures
            final(self).wf(),
            final(self).capacity() == old(self).capacity(),
            final(self).taken() == old(self).taken(),
            final(self).given() == old(self).given() + count,
            count == old(self).accepted(values@.len() as int),
            final(self).waiting() == old(self).waiting() + values@.take(count as int),
    {
        let ghost before = self.waiting();
        let available: usize = self.capacity - (self.tail - self.head);
        let count: usize = if available < values.len() {
            available
        } else {
            values.len()
        };
        let mut i: usize = 0;
        assert(before + values@.take(0) =~= before);
        while i < count
            invariant
                self.wf(),
                i <= count <= values@.len(),
                self.capacity() == old(self).capacity(),
                self.taken() == old(self).taken(),
                self.given() == old(self).given() + i,
                old(self).given() + count <= usize::MAX,
                before.len() + count <= self.capacity(),
                self.waiting() == before + values@.take(i as int),
            decreases count - i,
        {
            self.put(values[i]);
            assert(before + values@.take(i + 1) =~= (before + values@.take(i as int)).push(
                values@[i as int],
            ));
            i = i + 1;
        }
        count
    }

    /// Puts in consecutive numbers, as many of them as there is room for.
    pub fn push_sequential_batch(&mut self, start_value: u64, count: usize) -> (pushed: usize)
        requires
            old(self).wf(),
            old(self).given() + old(self).accepted(count as int) <= usize::MAX,
            start_value + old(self).accepted(count as int) <= u64::MAX + 1,
        ensures
            final(self).wf(),
            final(self).capacity() == old(self).capacity(),
            final(self).taken() == old(self).taken(),
            final(self).given() == old(self).given() + pushed,
            pushed == old(self).accepted(count as int),
            final(self).waiting() == old(self).waiting() + consecutive(
                start_value as int,
                pushed as nat,
            ),
    {
        let ghost before = self.waiting();
        let available: usize = self.capacity - (self.tail - self.head);
        let pushed: usize = if available < count {
            available
        } else {
            count
        };
        let mut i: usize = 0;
        assert(before + consecutive(start_value as int, 0) =~= before);
        while i < pushed
            invariant
                self.wf(),
                i <= pushed <= count,
                self.capacity() == old(self).capacity(),
                self.taken() == old(self).taken(),
                self.given() == old(self).given() + i,
                old(self).given() + pushed <= usize::MAX,
                start_value + pushed <= u64::MAX + 1,
                before.len() + pushed <= self.capacity(),
                self.waiting() == before + consecutive(start_value as int, i as nat),
            decreases pushed - i,
        {
            let ghost so_far = self.waiting();
            self.put(start_value + i as u64);
            i = i + 1;
            assert(self.waiting() =~= before + consecutive(start_value as int, i as nat));
        }
        pushed
    }

    pub fn try_push(&mut self, value: u64) -> (pushed: bool)
        requires
            old(self).wf(),
            old(self).given() < usize::MAX,
        ensures
            final(self).wf(),
            final(self).capacity() == old(self).capacity(),
            final(self).taken() == old(self).taken(),
            final(self).given() == old(self).given() + (if pushed {
                1int
            } else {
                0int
            }),
            pushed == (old(self).waiting().len() < old(self).capacity()),
            final(self).waiting() == (if pushed {
                old(self).waiting().push(value)
            } else {
                old(self).waiting()
            }),
    {
        proof {
            self.lemma_bounds();
        }
        let count: usize = self.push_sequential_batch(value, 1);
        proof {
            if count == 1 {
                assert(self.waiting() =~= old(self).waiting().push(value));
            } else {
                assert(self.waiting() =~= old(self).waiting());
            }
        }
        count == 1
    }

    /// Takes out at most so many values, the oldest first.
    pub fn pop_batch(&mut self, most: usize) -> (values: Vec<u64>)
        requires
            old(self).wf(),
        ensures
            final(self).wf(),
            final(self).capacity() == old(self).capacity(),
            final(self).given() == old(self).given(),
            values@.len() == (if old(self).waiting().len() < most {
                old(self).waiting().len() as int
            } else {
                most as int
            }),
            values@ == old(self).waiting().take(values@.len() as int),
            final(self).waiting() == old(self).waiting().skip(values@.len() as int),
    {
        let available: usize = self.tail - self.head;
        let count: usize = if available < most {
            available
        } else {
            most
        };
        let mut values: Vec<u64> = Vec::new();
        let mut i: usize = 0;
        while i < count
            invariant
                self.wf(),
                *self == *old(self),
                i <= count,
                count <= self.tail - self.head,
                values@.len() == i,
                forall|j: int| 0 <= j < i ==> values@[j] == self.waiting()[j],
            decreases count - i,
        {
            let slot: usize = (self.head + i) % self.capacity;
            proof {
                lemma_mod_bound(self.head + i, self.capacity as int);
            }
            let entry: usize = self.array[slot] % self.capacity;
            proof {
                lemma_small_mod(slot as nat, self.capacity as nat);
            }
            values.push(self.entries[entry]);
            i = i + 1;
        }
        self.head = self.head + count;
        assert(values@ =~= old(self).waiting().take(count as int));
        assert(self.waiting() =~= old(self).waiting().skip(count as int));
        values
    }

    pub fn try_pop(&mut self) -> (value: Option<u64>)
        requires
            old(self).wf(),
        ensures
            final(self).wf(),
            final(self).capacity() == old(self).capacity(),
            final(self).given() == old(self).given(),
            match value {
                Some(value) => old(self).waiting().len() > 0 && value == old(self).waiting()[0]
                    && final(self).waiting() == old(self).waiting().skip(1),
                None => old(self).waiting().len() == 0 && final(self).waiting() == old(
                    self,
                ).waiting(),
            },
    {
        let values = self.pop_batch(1);
        if values.len() == 1 {
            Some(values[0])
        } else {
            assert(self.waiting() =~= old(self).waiting());
            None
        }
    }
}

/// Numbers that follow each other.
pub open spec fn consecutive(start: int, count: nat) -> Seq<u64> {
    Seq::new(count, |i: int| (start + i) as u64)
}

/// An unbounded queue behind a limit on how many values wait.
pub struct BoundedUbq {
    inner: UBQ<u64>,
    capacity: usize,
    len: usize,
}

impl BoundedUbq {
    pub closed spec fn inner(&self) -> UBQ<u64> {
        self.inner
    }

    pub closed spec fn capacity(&self) -> int {
        self.capacity as int
    }

    /// The values that wait, in order.
    pub open spec fn waiting(&self) -> Seq<u64> {
        self.inner().waiting().map_values(|value: Option<u64>| value->Some_0)
    }

    pub closed spec fn wf(&self) -> bool {
        &&& self.inner.wf()
        &&& self.inner.quiet()
        &&& self.len == self.inner.waiting().len()
        &&& self.len <= self.capacity
        &&& forall|i: int|
            0 <= i < self.inner.waiting().len() ==> (#[trigger] self.inner.waiting()[i]) is Some
    }

    /// An empty queue for at most `capacity` values.
    pub fn new(capacity: usize, page_size: usize, block_length: usize) -> (result: Result<
        BoundedUbq,
        String,
    >)
        requires
            crate::page::is_power_of_two(page_size),
            0 < block_length < page_size,
        ensures
            match result {
                Ok(queue) => {
                    &&& capacity > 0
                    &&& queue.wf()
                    &&& queue.capacity() == capacity
                    &&& queue.waiting() == Seq::<u64>::empty()
                    &&& queue.inner().length() == block_length
                    &&& queue.inner().allocated() == 0
                    &&& queue.inner().codec().limit() == usize::MAX / page_size
                },
                Err(message) => capacity == 0 && message@
                    == "UBQ bounded wrapper capacity must be > 0"@,
            },
    {
        if capacity == 0 {
            return Err("UBQ bounded wrapper capacity must be > 0".to_owned());
        }
        let queue = BoundedUbq { inner: UBQ::new(page_size, block_length), capacity, len: 0 };
        assert(queue.waiting() =~= Seq::<u64>::empty());
        Ok(queue)
    }

    /// Whether one more value has an address.
    pub fn has_room(&self) -> (fits: bool)
        requires
            self.wf(),
        ensures
            fits == self.inner().room_for(1),
    {
        self.inner.has_room_for(1)
    }

    /// Puts a value in unless the limit is reached.
    pub fn try_push(&mut self, value: u64) -> (pushed: bool)
        requires
            old(self).wf(),
            old(self).inner().room_for(1),
        ensures
            final(self).wf(),
            final(self).capacity() == old(self).capacity(),
            final(self).inner().codec() == old(self).inner().codec(),
            final(self).inner().allocated() <= old(self).inner().allocated() + 2,
            pushed == (old(self).waiting().len() < old(self).capacity()),
            final(self).waiting() == (if pushed {
                old(self).waiting().push(value)
            } else {
                old(self).waiting()
            }),
    {
        if self.len >= self.capacity {
            return false;
        }
        self.len = self.len + 1;
        self.inner.push(value);
        proof {
            let before = old(self).inner.waiting();
            assert(self.inner.waiting() == before.push(Some(value)));
            assert forall|i: int| 0 <= i < self.inner.waiting().len() implies (
            #[trigger] self.inner.waiting()[i]) is Some by {
                if i < before.len() {
                    assert(before[i] is Some);
                }
            }
            assert(self.waiting() =~= old(self).waiting().push(value));
        }
        true
    }

    /// Takes the oldest value.
    pub fn try_pop(&mut self) -> (value: Option<u64>)
        requires
            old(self).wf(),
        ensures
            final(self).wf(),
            final(self).capacity() == old(self).capacity(),
            final(self).inner().codec() == old(self).inner().codec(),
            final(self).inner().allocated() <= old(self).inner().allocated(),
            if old(self).waiting().len() == 0 {
                value is None && final(self).waiting() == old(self).waiting()
            } else {
                value == Some(old(self).waiting()[0]) && final(self).waiting() == old(
                    self,
                ).waiting().skip(1)
            },
    {
        let value = self.inner.pop();
        if value.is_some() {
            self.len = self.len - 1;
        }
        proof {
            let before = old(self).inner.waiting();
            if before.len() > 0 {
                assert(before[0] is Some);
                assert(self.inner.waiting() == before.skip(1));
                assert forall|i: int| 0 <= i < self.inner.waiting().len() implies (
                #[trigger] self.inner.waiting()[i]) is Some by {
                    assert(before[i + 1] is Some);
                }
                assert(self.waiting() =~= old(self).waiting().skip(1));
            } else {
                assert(self.waiting() =~= old(self).waiting());
            }
        }
        value
    }

    /// How many of so many values there is a place for.
    pub open spec fn accepted(&self, count: int) -> int {
        if self.capacity() - self.waiting().len() < count {
            self.capacity() - self.waiting().len()
        } else {
            count
        }
    }

    /// Puts values in, in order, until the limit is reached or the addresses
    /// are used up.
    pub fn push_batch(&mut self, values: &[u64]) -> (pushed: usize)
        requires
            old(self).wf(),
        ensures
            final(self).wf(),
            final(self).capacity() == old(self).capacity(),
            final(self).inner().codec() == old(self).inner().codec(),
            pushed <= old(self).accepted(values@.len() as int),
            pushed < old(self).accepted(values@.len() as int) ==> !final(self).inner().room_for(1),
            final(self).waiting() == old(self).waiting() + values@.take(pushed as int),
    {
        let mut pushed: usize = 0;
        proof {
            self.lemma_limit();
        }
        assert(self.waiting() =~= old(self).waiting() + values@.take(0));
        while pushed < values.len() && self.has_room()
            invariant
                self.wf(),
                self.capacity() == old(self).capacity(),
                self.inner().codec() == old(self).inner().codec(),
                pushed <= old(self).accepted(values@.len() as int),
                self.waiting() == old(self).waiting() + values@.take(pushed as int),
            ensures
                pushed < old(self).accepted(values@.len() as int) ==> !self.inner().room_for(1),
            decreases values@.len() - pushed,
        {
            let ghost before = self.waiting();
            if !self.try_push(values[pushed]) {
                break;
            }
            assert(before.push(values@[pushed as int]) =~= old(self).waiting() + values@.take(
                pushed + 1,
            ));
            pushed = pushed + 1;
        }
        pushed
    }

    /// Puts consecutive values in until the limit is reached or the addresses
    /// are used up.
    pub fn push_sequential_batch(&mut self, start_value: u64, count: usize) -> (pushed: usize)
        requires
            old(self).wf(),
            start_value + old(self).accepted(count as int) <= u64::MAX + 1,
        ensures
            final(self).wf(),
            final(self).capacity() == old(self).capacity(),
            final(self).inner().codec() == old(self).inner().codec(),
            pushed <= old(self).accepted(count as int),
            pushed < old(self).accepted(count as int) ==> !final(self).inner().room_for(1),
            final(self).waiting() == old(self).waiting() + consecutive(
                start_value as int,
                pushed as nat,
            ),
    {
        let mut pushed: usize = 0;
        proof {
            self.lemma_limit();
        }
        assert(self.waiting() =~= old(self).waiting() + consecutive(start_value as int, 0));
        while pushed < count && self.has_room()
            invariant
                self.wf(),
                self.capacity() == old(self).capacity(),
                self.inner().codec() == old(self).inner().codec(),
                start_value + old(self).accepted(count as int) <= u64::MAX + 1,
                pushed <= old(self).accepted(count as int),
                self.waiting() == old(self).waiting() + consecutive(
                    start_value as int,
                    pushed as nat,
                ),
            ensures
                pushed < old(self).accepted(count as int) ==> !self.inner().room_for(1),
            decreases count - pushed,
        {
            let ghost before = self.waiting();
            if self.is_full() {
                break;
            }
            self.try_push(start_value + pushed as u64);
            assert(before.push((start_value + pushed) as u64) =~= old(self).waiting()
                + consecutive(start_value as int, (pushed + 1) as nat));
            pushed = pushed + 1;
        }
        pushed
    }

    /// Whether the limit is reached.
    pub fn is_full(&self) -> (full: bool)
        requires
            self.wf(),
        ensures
            full == (self.waiting().len() == self.capacity()),
    {
        self.len == self.capacity
    }

    proof fn lemma_limit(&self)
        requires
            self.wf(),
        ensures
            self.waiting().len() <= self.capacity(),
    {
    }

    /// Takes the oldest values, `most` at the most.
    pub fn pop_batch(&mut self, most: usize) -> (values: Vec<u64>)
        requires
            old(self).wf(),
        ensures
            final(self).wf(),
            final(self).capacity() == old(self).capacity(),
            final(self).inner().codec() == old(self).inner().codec(),
            values@.len() == (if old(self).waiting().len() < most {
                old(self).waiting().len() as int
            } else {
                most as int
            }),
            values@ == old(self).waiting().take(values@.len() as int),
            final(self).waiting() == old(self).waiting().skip(values@.len() as int),
    {
        let mut values: Vec<u64> = Vec::new();
        assert(self.waiting() =~= old(self).waiting().skip(0));
        assert(values@ =~= old(self).waiting().take(0));
        while values.len() < most
            invariant
                self.wf(),
                self.capacity() == old(self).capacity(),
                self.inner().codec() == old(self).inner().codec(),
                values@.len() <= most,
                values@.len() <= old(self).waiting().len(),
                values@ == old(self).waiting().take(values@.len() as int),
                self.waiting() == old(self).waiting().skip(values@.len() as int),
            ensures
                values@.len() == most || values@.len() == old(self).waiting().len(),
            decreases most - values@.len(),
        {
            let ghost n = values@.len() as int;
            match self.try_pop() {
                Some(value) => {
                    values.push(value);
                    assert(values@ =~= old(self).waiting().take(n + 1));
                    assert(self.waiting() =~= old(self).waiting().skip(n + 1));
                },
                None => {
                    break;
                },
            }
        }
        values
    }
}

/// How many blocks a bounded block queue needs for a capacity: enough for the
/// values, and two more.
pub fn bbq_block_count(capacity: usize, bbq_block_size: usize) -> (result: Result<usize, String>)
    ensures
        match result {
            Ok(count) => {
                &&& capacity > 0
                &&& bbq_block_size > 0
                &&& (count - 3) * bbq_block_size < capacity <= (count - 2) * bbq_block_size
            },
            Err(message) => if capacity == 0 {
                message@ == "BBQ bounded wrapper capacity must be > 0"@
            } else if bbq_block_size == 0 {
                message@ == "BBQ block size must be > 0"@
            } else {
                capacity > (usize::MAX - 2) * bbq_block_size && message@
                    == "BBQ block count overflow"@
            },
        },
{
    if capacity == 0 {
        return Err("BBQ bounded wrapper capacity must be > 0".to_owned());
    }
    if bbq_block_size == 0 {
        return Err("BBQ block size must be > 0".to_owned());
    }
    let full: usize = capacity / bbq_block_size;
    let rest: usize = capacity % bbq_block_size;
    proof {
        let d = bbq_block_size as int;
        lemma_fundamental_div_mod(capacity as int, d);
        lemma_mod_bound(capacity as int, d);
        assert(d * full == full * d) by (nonlinear_arith);
        assert((full - 1) * d == full * d - d) by (nonlinear_arith);
        assert((full + 1) * d == full * d + d) by (nonlinear_arith);
        assert(full > usize::MAX - 2 ==> full * d >= (usize::MAX - 1) * d) by (nonlinear_arith)
            requires
                d > 0,
        ;
        assert((usize::MAX - 1) * d == (usize::MAX - 2) * d + d) by (nonlinear_arith);
        assert(full == usize::MAX - 2 ==> full * d == (usize::MAX - 2) * d);
    }
    if rest > 0 {
        if full > usize::MAX - 3 {
            return Err("BBQ block count overflow".to_owned());
        }
        Ok(full + 3)
    } else {
        if full > usize::MAX - 2 {
            return Err("BBQ block count overflow".to_owned());
        }
        Ok(full + 2)
    }
}

/// Whether requests come one by one or in groups.
#[derive(Clone, Copy, Debug, PartialEq, Eq, Structural)]
pub enum BatchMode {
    Fixed1,
    Random1To32,
}

/// A generator of numbers that only look random.
pub struct XorShift64 {
    state: u64,
}

/// The number behind a number.
pub open spec fn xorshift(x: u64) -> u64 {
    let a = x ^ (x << 13);
    let b = a ^ (a >> 7);
    b ^ (b << 17)
}

/// The generator never gets stuck at zero.
pub proof fn law_xorshift_stays_nonzero(x: u64)
    requires
        x != 0,
    ensures
        xorshift(x) != 0,
{
    assert(x != 0 ==> ({
        let a = x ^ (x << 13);
        let b = a ^ (a >> 7);
        b ^ (b << 17)
    }) != 0) by (bit_vector);
}

impl XorShift64 {
    pub closed spec fn state(&self) -> u64 {
        self.state
    }

    pub fn new(seed: u64) -> (rng: XorShift64)
        ensures
            rng.state() == (if seed == 0 {
                1
            } else {
                seed
            }),
    {
        XorShift64 {
            state: if seed == 0 {
                1
            } else {
                seed
            },
        }
    }

    pub fn next_u64(&mut self) -> (value: u64)
        ensures
            value == xorshift(old(self).state()),
            final(self).state() == value,
    {
        let mut x: u64 = self.state;
        x = x ^ (x << 13);
        x = x ^ (x >> 7);
        x = x ^ (x << 17);
        self.state = x;
        x
    }
}

/// The seed of a role in a repeat, by the mode and the size of the ring.
pub open spec fn role_seed(repeat: usize, sq_size: usize, mode: BatchMode, role: u64) -> u64 {
    (match mode {
        BatchMode::Fixed1 => 0x9e37_79b9_7f4a_7c15u64,
        BatchMode::Random1To32 => 0xbf58_476d_1ce4_e5b9u64,
    }) ^ ((repeat as u64) << 32) ^ ((sq_size as u64) << 11) ^ role
}

/// The seed of a role in a repeat.
pub fn seed_for(repeat: usize, sq_size: usize, batch_mode: BatchMode, role: u64) -> (seed: u64)
    ensures
        seed == role_seed(repeat, sq_size, batch_mode, role),
{
    let mode: u64 = match batch_mode {
        BatchMode::Fixed1 => 0x9e37_79b9_7f4a_7c15,
        BatchMode::Random1To32 => 0xbf58_476d_1ce4_e5b9,
    };
    mode ^ ((repeat as u64) << 32) ^ ((sq_size as u64) << 11) ^ role
}

impl BatchMode {
    pub open spec fn title(self) -> Seq<char> {
        match self {
            BatchMode::Fixed1 => "fixed1"@,
            BatchMode::Random1To32 => "random1to32"@,
        }
    }

    pub fn name(self) -> (name: &'static str)
        ensures
            name@ == self.title(),
    {
        match self {
            BatchMode::Fixed1 => "fixed1",
            BatchMode::Random1To32 => "random1to32",
        }
    }

    /// The largest group.
    pub fn max(self) -> (max: usize)
        ensures
            max == (match self {
                BatchMode::Fixed1 => 1usize,
                BatchMode::Random1To32 => 32,
            }),
    {
        match self {
            BatchMode::Fixed1 => 1,
            BatchMode::Random1To32 => 32,
        }
    }

    /// The size of the group after a state of the generator.
    pub open spec fn group(self, state: u64) -> int {
        match self {
            BatchMode::Fixed1 => 1,
            BatchMode::Random1To32 => xorshift(state) % 32 + 1,
        }
    }

    /// The state of the generator after a group.
    pub open spec fn state_after(self, state: u64) -> u64 {
        match self {
            BatchMode::Fixed1 => state,
            BatchMode::Random1To32 => xorshift(state),
        }
    }

    /// The size of the next group.
    pub fn next(self, rng: &mut XorShift64) -> (size: usize)
        ensures
            size == self.group(old(rng).state()),
            final(rng).state() == self.state_after(old(rng).state()),
    {
        match self {
            BatchMode::Fixed1 => 1,
            BatchMode::Random1To32 => (rng.next_u64() % 32) as usize + 1,
        }
    }

    /// The size of the next group, not more than what is left.
    pub fn next_of(self, rng: &mut XorShift64, requests: u64, done: u64) -> (size: usize)
        requires
            done < requests,
        ensures
            size == (if self.group(old(rng).state()) < requests - done {
                self.group(old(rng).state())
            } else {
                requests - done
            }),
            size > 0,
            final(rng).state() == self.state_after(old(rng).state()),
    {
        let size: usize = self.next(rng);
        let left: u64 = requests - done;
        if (size as u64) < left {
            size
        } else {
            left as usize
        }
    }
}

/// Checks that completions carry the numbers they should.
pub fn check_completions(values: &Vec<u64>, start: u64) -> (result: Result<(), String>)
    requires
        start + values@.len() <= u64::MAX + 1,
    ensures
        match result {
            Ok(_) => values@ == consecutive(start as int, values@.len()),
            Err(message) => exists|i: int|
                {
                    &&& 0 <= i < values@.len()
                    &&& #[trigger] values@[i] != start + i
                    &&& forall|j: int| 0 <= j < i ==> #[trigger] values@[j] == start + j
                    &&& message@ == "completion order mismatch: expected "@ + decimal(
                        (start + i) as nat,
                    ) + ", got "@ + decimal(values@[i] as nat)
                },
        },
{
    let mut i: usize = 0;
    while i < values.len()
        invariant
            start + values@.len() <= u64::MAX + 1,
            i <= values@.len(),
            forall|j: int| 0 <= j < i ==> #[trigger] values@[j] == start + j,
        decreases values@.len() - i,
    {
        let expected: u64 = start + i as u64;
        if values[i] != expected {
            let a = decimal_text(expected as u128);
            let b = decimal_text(values[i] as u128);
            let mut message = "completion order mismatch: expected ".to_owned();
            message.append(a.as_str());
            message.append(", got ");
            message.append(b.as_str());
            return Err(message);
        }
        i = i + 1;
    }
    assert(values@ =~= consecutive(start as int, values@.len()));
    Ok(())
}

/// A group has one number, or from one to thirty-two of them.
pub proof fn law_group_sizes(mode: BatchMode, state: u64)
    ensures
        mode == BatchMode::Fixed1 ==> mode.group(state) == 1 && mode.state_after(state) == state,
        1 <= mode.group(state) <= 32,
        state != 0 ==> mode.state_after(state) != 0,
{
    if state != 0 {
        law_xorshift_stays_nonzero(state);
    }
}

/// Roles that differ draw from seeds that differ.
pub proof fn law_roles_have_their_own_seeds(
    repeat: usize,
    sq_size: usize,
    mode: BatchMode,
    a: u64,
    b: u64,
)
    requires
        a != b,
    ensures
        role_seed(repeat, sq_size, mode, a) != role_seed(repeat, sq_size, mode, b),
{
    let base = (match mode {
        BatchMode::Fixed1 => 0x9e37_79b9_7f4a_7c15u64,
        BatchMode::Random1To32 => 0xbf58_476d_1ce4_e5b9u64,
    }) ^ ((repeat as u64) << 32) ^ ((sq_size as u64) << 11);
    assert(a != b ==> base ^ a != base ^ b) by (bit_vector);
}

/// A ring can be made exactly of a capacity that is a power of two.
pub proof fn law_a_ring_has_a_power_of_two(capacity: usize)
    ensures
        ring_refusal(capacity) is None <==> exists|k: nat|
            capacity == #[trigger] vstd::arithmetic::power2::pow2(k),
{
    crate::bench::blocks::law_powers_of_two(capacity as nat);
}

/// As many values are accepted as there is room for, and no more than there are.
pub proof fn law_a_ring_accepts_what_it_has_room_for(ring: &IoUringQueue, queue: &BoundedUbq, count: int)
    requires
        ring.waiting().len() <= ring.capacity(),
        queue.waiting().len() <= queue.capacity(),
        0 <= count,
    ensures
        0 <= ring.accepted(count) <= count,
        ring.waiting().len() + ring.accepted(count) <= ring.capacity(),
        ring.accepted(count) < count ==> ring.waiting().len() + ring.accepted(count)
            == ring.capacity(),
        0 <= queue.accepted(count) <= count,
        queue.waiting().len() + queue.accepted(count) <= queue.capacity(),
        queue.accepted(count) < count ==> queue.waiting().len() + queue.accepted(count)
            == queue.capacity(),
{
}

} // verus!
