//! The queue as Java sees it: numbers in, numbers out.
use vstd::prelude::*;

use crate::page::is_power_of_two;
use crate::queue::UBQ;
use crate::text::{decimal, decimal_text};

verus! {

pub const UBQ_VARIANT_COUNT: i32 = 6;

pub const DEFAULT_UBQ_VARIANT_ID: i32 = 1;

pub const JNI_TRUE: u8 = 1;

pub const JNI_FALSE: u8 = 0;

/// How a queue is configured.
#[derive(Clone, Copy, Debug, PartialEq, Eq, Structural)]
pub struct Variant {
    /// The slots of a block.
    pub block: usize,
    /// Whether a thread that has to wait yields at once.
    pub yields: bool,
}

impl Variant {
    /// The label under which the configuration is measured.
    pub open spec fn title(self) -> Seq<char> {
        "balanced,1,"@ + decimal(self.block as nat) + (if self.yields {
            ",yield"@
        } else {
            ",crossbeam"@
        })
    }

    pub fn label(self) -> (label: String)
        ensures
            label@ == self.title(),
    {
        let mut label = "balanced,1,".to_owned();
        label.append(decimal_text(self.block as u128).as_str());
        label.append(
            if self.yields {
                ",yield"
            } else {
                ",crossbeam"
            },
        );
        label
    }
}

/// The configurations, by their number.
pub open spec fn variant_of(id: i32) -> Option<Variant> {
    if id == 0 {
        Some(Variant { block: 63, yields: false })
    } else if id == 1 {
        Some(Variant { block: 127, yields: false })
    } else if id == 2 {
        Some(Variant { block: 255, yields: false })
    } else if id == 3 {
        Some(Variant { block: 31, yields: false })
    } else if id == 4 {
        Some(Variant { block: 511, yields: false })
    } else if id == 5 {
        Some(Variant { block: 127, yields: true })
    } else {
        None
    }
}

/// A configuration by its number.
pub fn variant(id: i32) -> (variant: Option<Variant>)
    ensures
        variant == variant_of(id),
        variant is Some <==> 0 <= id < UBQ_VARIANT_COUNT,
{
    match id {
        0 => Some(Variant { block: 63, yields: false }),
        1 => Some(Variant { block: 127, yields: false }),
        2 => Some(Variant { block: 255, yields: false }),
        3 => Some(Variant { block: 31, yields: false }),
        4 => Some(Variant { block: 511, yields: false }),
        5 => Some(Variant { block: 127, yields: true }),
        _ => None,
    }
}

/// A count as a length, unless it is negative or too large.
pub fn valid_count(count: i64) -> (len: Option<usize>)
    ensures
        match len {
            Some(len) => len == count,
            None => count < 0 || count > usize::MAX,
        },
{
    if count < 0 {
        return None;
    }
    let len: u64 = count as u64;
    if len > usize::MAX as u64 {
        None
    } else {
        Some(len as usize)
    }
}

/// How many values a count stands for: none where it is not valid.
pub open spec fn counted(count: i64) -> int {
    if 0 < count <= usize::MAX {
        count as int
    } else {
        0
    }
}

/// The blocks of a ring that is to hold `capacity` values, and their length:
/// two blocks more than the values need.
pub fn ring_shape(capacity: i64, block_size: i32) -> (shape: Option<(usize, usize)>)
    ensures
        match shape {
            Some((blocks, length)) => {
                let whole = (capacity + block_size - 1) / (block_size as int);
                &&& 0 <= capacity <= usize::MAX
                &&& block_size > 0
                &&& length == block_size
                &&& blocks == if whole + 2 <= usize::MAX {
                    whole + 2
                } else {
                    usize::MAX as int
                }
            },
            None => capacity < 0 || capacity > usize::MAX || block_size <= 0,
        },
{
    let capacity = match valid_count(capacity) {
        Some(capacity) => capacity,
        None => {
            return None;
        },
    };
    if block_size <= 0 {
        return None;
    }
    let length: usize = block_size as usize;
    let mut whole: usize = capacity / length;
    proof {
        lemma_ceiling(capacity as int, length as int);
        vstd::arithmetic::div_mod::lemma_div_is_ordered_by_denominator(
            capacity as int,
            1,
            length as int,
        );
    }
    let rest: usize = capacity % length;
    if rest != 0 {
        assert(whole < usize::MAX) by {
            if length == 1 {
            } else {
                vstd::arithmetic::div_mod::lemma_div_is_ordered_by_denominator(
                    capacity as int,
                    2,
                    length as int,
                );
            }
        }
        whole = whole + 1;
    }
    if whole > usize::MAX - 2 {
        Some((usize::MAX, length))
    } else {
        Some((whole + 2, length))
    }
}

proof fn lemma_ceiling(n: int, d: int)
    requires
        0 <= n,
        0 < d,
    ensures
        (n + d - 1) / d == n / d + (if n % d != 0 {
            1int
        } else {
            0int
        }),
{
    let q = n / d;
    let r = n % d;
    vstd::arithmetic::div_mod::lemma_fundamental_div_mod(n, d);
    vstd::arithmetic::div_mod::lemma_mod_bound(n, d);
    if r == 0 {
        vstd::arithmetic::div_mod::lemma_fundamental_div_mod_converse(n + d - 1, d, q, d - 1);
    } else {
        assert(d * (q + 1) == d * q + d) by (nonlinear_arith);
        assert(d * q == q * d && d * (q + 1) == (q + 1) * d) by (nonlinear_arith);
        vstd::arithmetic::div_mod::lemma_fundamental_div_mod_converse(n + d - 1, d, q + 1, r - 1);
    }
}

/// How popped values are combined.
#[derive(Clone, Copy, Debug, PartialEq, Eq, Structural)]
pub enum Combine {
    Sum,
    Difference,
    And,
}

/// Two values combined.
pub open spec fn combined(how: Combine, left: i64, right: i64) -> i64 {
    match how {
        Combine::Sum => left.wrapping_add(right),
        Combine::Difference => left.wrapping_sub(right),
        Combine::And => left & right,
    }
}

/// A value combined with several, one after the other.
pub open spec fn folded(how: Combine, value: i64, items: Seq<u64>) -> i64
    decreases items.len(),
{
    if items.len() == 0 {
        value
    } else {
        combined(how, folded(how, value, items.drop_last()), items.last() as i64)
    }
}

impl Combine {
    fn apply(self, left: i64, right: i64) -> (value: i64)
        ensures
            value == combined(self, left, right),
    {
        match self {
            Combine::Sum => left.wrapping_add(right),
            Combine::Difference => left.wrapping_sub(right),
            Combine::And => left & right,
        }
    }
}

/// A pop of an exact number of values that is under way.
#[derive(Clone, Copy, Debug, PartialEq, Eq, Structural)]
pub struct ExactPop {
    pub how: Combine,
    /// How many values are still to come.
    pub left: usize,
    /// The combination of those that came.
    pub value: i64,
}

/// The start of such a pop; a count that is not valid asks for nothing.
pub fn exact_pop(how: Combine, count: i64) -> (pop: ExactPop)
    ensures
        pop.how == how,
        pop.value == 0,
        pop.left == (if 0 <= count <= usize::MAX {
            count as int
        } else {
            0
        }),
{
    match valid_count(count) {
        Some(left) => ExactPop { how, left, value: 0 },
        None => ExactPop { how, left: 0, value: 0 },
    }
}

/// The numbers from `first` on, going round at the end of the range.
pub open spec fn range_values(first: i64, count: int) -> Seq<u64> {
    Seq::new(count as nat, |i: int| first.wrapping_add(i as i64) as u64)
}

/// A queue of numbers.
pub struct JniQueue {
    queue: UBQ<u64>,
    kind: Variant,
}

impl JniQueue {
    pub closed spec fn inner(&self) -> UBQ<u64> {
        self.queue
    }

    pub closed spec fn kind(&self) -> Variant {
        self.kind
    }

    /// Every waiting position has a value, and it is written.
    pub open spec fn wf(&self) -> bool {
        &&& self.inner().wf()
        &&& self.inner().quiet()
        &&& forall|i: int|
            0 <= i < self.inner().waiting().len() ==> #[trigger] self.inner().waiting()[i] is Some
    }

    /// The values that wait, oldest first.
    pub open spec fn values(&self) -> Seq<u64> {
        Seq::new(self.inner().waiting().len(), |i: int| self.inner().waiting()[i]->Some_0)
    }

    /// There are addresses for `n` more values.
    pub open spec fn room_for(&self, n: int) -> bool {
        self.inner().room_for(n)
    }

    /// At most `n` values were pushed since `before`, for the addresses.
    pub open spec fn grown(&self, before: &Self, n: int) -> bool {
        &&& self.inner().codec() == before.inner().codec()
        &&& self.inner().allocated() <= before.inner().allocated() + n + 1
    }

    /// No more addresses are taken than before.
    pub open spec fn as_small(&self, before: &Self) -> bool {
        &&& self.inner().codec() == before.inner().codec()
        &&& self.inner().allocated() <= before.inner().allocated()
    }

    /// Whether there are addresses for `n` more values.
    pub fn has_room_for(&self, n: usize) -> (fits: bool)
        requires
            self.wf(),
            n < usize::MAX,
        ensures
            fits == self.room_for(n as int),
    {
        self.queue.has_room_for(n)
    }

    /// A queue with the configuration of that number, if there is one.
    pub fn new(page_size: usize, variant_id: i32) -> (queue: Option<JniQueue>)
        requires
            is_power_of_two(page_size),
            page_size > 511,
        ensures
            match queue {
                Some(queue) => {
                    &&& queue.wf()
                    &&& queue.values() == Seq::<u64>::empty()
                    &&& variant_of(variant_id) == Some(queue.kind())
                    &&& queue.inner().length() == queue.kind().block
                    &&& queue.inner().allocated() == 0
                    &&& queue.inner().codec().limit() == usize::MAX / page_size
                },
                None => variant_of(variant_id) is None,
            },
    {
        match variant(variant_id) {
            Some(kind) => {
                let queue = JniQueue { queue: UBQ::new(page_size, kind.block), kind };
                assert(queue.values() =~= Seq::<u64>::empty());
                Some(queue)
            },
            None => None,
        }
    }

    /// Whether a thread that has to wait yields at once.
    pub fn yields(&self) -> (yields: bool)
        ensures
            yields == self.kind().yields,
    {
        self.kind.yields
    }

    fn push_all(&mut self, items: Vec<u64>)
        requires
            old(self).wf(),
            old(self).room_for(items@.len() as int),
            items@.len() < usize::MAX,
        ensures
            final(self).wf(),
            final(self).kind() == old(self).kind(),
            final(self).grown(old(self), items@.len() as int),
            final(self).values() == old(self).values() + items@,
    {
        self.queue.push_batch(items);
        proof {
            let more = items@.map_values(|value: u64| Some(value));
            let before = old(self).inner().waiting();
            assert(self.inner().waiting() == before + more);
            assert forall|i: int|
                0 <= i < self.inner().waiting().len() implies (
            #[trigger] self.inner().waiting()[i]) is Some by {
                if i >= before.len() {
                    assert(self.inner().waiting()[i] == more[i - before.len()]);
                }
            }
            assert(self.values() =~= old(self).values() + items@);
        }
    }

    pub fn push(&mut self, value: i64)
        requires
            old(self).wf(),
            old(self).room_for(1),
        ensures
            final(self).wf(),
            final(self).kind() == old(self).kind(),
            final(self).grown(old(self), 1),
            final(self).values() == old(self).values().push(value as u64),
    {
        let mut items: Vec<u64> = Vec::new();
        items.push(value as u64);
        self.push_all(items);
        assert(self.values() =~= old(self).values().push(value as u64));
    }

    /// Pushes `count` numbers from `first_value` on; none if the count is not
    /// positive.
    pub fn push_range(&mut self, first_value: i64, count: i32)
        requires
            old(self).wf(),
            counted(count as i64) < usize::MAX,
            old(self).room_for(counted(count as i64)),
        ensures
            final(self).wf(),
            final(self).kind() == old(self).kind(),
            final(self).grown(old(self), counted(count as i64)),
            final(self).values() == old(self).values() + range_values(
                first_value,
                counted(count as i64),
            ),
    {
        if count <= 0 {
            assert(self.values() =~= self.values() + range_values(first_value, 0));
            return;
        }
        self.push_range_exact(first_value, count as i64);
    }

    /// Pushes one number `count` times; not at all if the count is not valid.
    pub fn push_constant_exact(&mut self, value: i64, count: i64)
        requires
            old(self).wf(),
            counted(count) < usize::MAX,
            old(self).room_for(counted(count)),
        ensures
            final(self).wf(),
            final(self).kind() == old(self).kind(),
            final(self).grown(old(self), counted(count)),
            final(self).values() == old(self).values() + Seq::new(
                counted(count) as nat,
                |i: int| value as u64,
            ),
    {
        let len = match valid_count(count) {
            Some(len) => len,
            None => {
                assert(self.values() =~= self.values() + Seq::new(0, |i: int| value as u64));
                return;
            },
        };
        let mut items: Vec<u64> = Vec::new();
        let mut i: usize = 0;
        while i < len
            invariant
                i <= len,
                items@.len() == i,
                forall|j: int| 0 <= j < i ==> #[trigger] items@[j] == value as u64,
            decreases len - i,
        {
            items.push(value as u64);
            i = i + 1;
        }
        assert(items@ =~= Seq::new(len as nat, |i: int| value as u64));
        self.push_all(items);
    }

    /// The numbers of a range.
    fn range_of(first_value: i64, len: usize) -> (items: Vec<u64>)
        requires
            len <= i64::MAX,
        ensures
            items@ == range_values(first_value, len as int),
    {
        let mut items: Vec<u64> = Vec::new();
        let mut i: usize = 0;
        while i < len
            invariant
                i <= len <= i64::MAX,
                items@.len() == i,
                forall|j: int|
                    0 <= j < i ==> #[trigger] items@[j] == first_value.wrapping_add(
                        j as i64,
                    ) as u64,
            decreases len - i,
        {
            let value: i64 = first_value.wrapping_add(i as i64);
            items.push(value as u64);
            i = i + 1;
        }
        assert(items@ =~= range_values(first_value, len as int));
        items
    }

    /// Pushes `count` numbers from `first_value` on; none if the count is not
    /// valid.
    pub fn push_range_exact(&mut self, first_value: i64, count: i64)
        requires
            old(self).wf(),
            counted(count) < usize::MAX,
            old(self).room_for(counted(count)),
        ensures
            final(self).wf(),
            final(self).kind() == old(self).kind(),
            final(self).grown(old(self), counted(count)),
            final(self).values() == old(self).values() + range_values(first_value, counted(count)),
    {
        let len = match valid_count(count) {
            Some(len) => len,
            None => {
                assert(self.values() =~= self.values() + range_values(first_value, 0));
                return;
            },
        };
        let items = Self::range_of(first_value, len);
        self.push_all(items);
    }

    /// Pushes the same range into three queues.
    pub fn push_range_to_three_exact(
        first: &mut JniQueue,
        second: &mut JniQueue,
        third: &mut JniQueue,
        first_value: i64,
        count: i64,
    )
        requires
            old(first).wf(),
            old(second).wf(),
            old(third).wf(),
            counted(count) < usize::MAX,
            old(first).room_for(counted(count)),
            old(second).room_for(counted(count)),
            old(third).room_for(counted(count)),
        ensures
            final(first).wf(),
            final(second).wf(),
            final(third).wf(),
            final(first).kind() == old(first).kind(),
            final(second).kind() == old(second).kind(),
            final(third).kind() == old(third).kind(),
            final(first).grown(old(first), counted(count)),
            final(second).grown(old(second), counted(count)),
            final(third).grown(old(third), counted(count)),
            ({
                let more = range_values(first_value, counted(count));
                &&& final(first).values() == old(first).values() + more
                &&& final(second).values() == old(second).values() + more
                &&& final(third).values() == old(third).values() + more
            }),
    {
        first.push_range_exact(first_value, count);
        second.push_range_exact(first_value, count);
        third.push_range_exact(first_value, count);
    }

    fn pop(&mut self) -> (value: Option<u64>)
        requires
            old(self).wf(),
        ensures
            final(self).wf(),
            final(self).kind() == old(self).kind(),
            final(self).as_small(old(self)),
            if old(self).values().len() == 0 {
                value is None && final(self).values() == old(self).values()
            } else {
                value == Some(old(self).values()[0]) && final(self).values() == old(
                    self,
                ).values().skip(1)
            },
    {
        let value = self.queue.pop();
        proof {
            let before = old(self).inner().waiting();
            if before.len() == 0 {
                assert(self.values() =~= old(self).values());
            } else {
                assert(before[0] is Some);
                assert forall|i: int|
                    0 <= i < self.inner().waiting().len() implies (
                #[trigger] self.inner().waiting()[i]) is Some by {
                    assert(self.inner().waiting()[i] == before[i + 1]);
                }
                assert(self.values() =~= old(self).values().skip(1));
            }
        }
        value
    }

    /// The next value, or the given one if there is none.
    pub fn pop_or(&mut self, empty_value: i64) -> (value: i64)
        requires
            old(self).wf(),
        ensures
            final(self).wf(),
            final(self).kind() == old(self).kind(),
            final(self).as_small(old(self)),
            if old(self).values().len() == 0 {
                value == empty_value && final(self).values() == old(self).values()
            } else {
                value == old(self).values()[0] as i64 && final(self).values() == old(
                    self,
                ).values().skip(1)
            },
    {
        match self.pop() {
            Some(value) => value as i64,
            None => empty_value,
        }
    }

    /// Goes on with a pop of an exact number of values, as far as there are
    /// values. While some are left to come, the caller waits and tries again.
    pub fn pop_exact(&mut self, pop: ExactPop) -> (rest: ExactPop)
        requires
            old(self).wf(),
        ensures
            final(self).wf(),
            final(self).kind() == old(self).kind(),
            final(self).as_small(old(self)),
            ({
                let there = old(self).values();
                let n = if pop.left <= there.len() {
                    pop.left as int
                } else {
                    there.len() as int
                };
                &&& final(self).values() == there.skip(n)
                &&& rest == (ExactPop {
                    how: pop.how,
                    left: (pop.left - n) as usize,
                    value: folded(pop.how, pop.value, there.take(n)),
                })
            }),
    {
        let ghost there = self.values();
        let mut left: usize = pop.left;
        let mut value: i64 = pop.value;
        let ghost mut done: int = 0;
        proof {
            assert(there.skip(0) =~= there);
            assert(there.take(0) =~= Seq::<u64>::empty());
        }
        while left > 0
            invariant
                self.wf(),
                self.kind() == old(self).kind(),
                self.as_small(old(self)),
                there == old(self).values(),
                0 <= done <= there.len(),
                left == pop.left - done,
                self.values() == there.skip(done),
                value == folded(pop.how, pop.value, there.take(done)),
            ensures
                left == 0 || done == there.len(),
            decreases left,
        {
            match self.pop() {
                Some(item) => {
                    value = pop.how.apply(value, item as i64);
                    proof {
                        assert(there.skip(done).skip(1) =~= there.skip(done + 1));
                        assert(there.take(done + 1).drop_last() =~= there.take(done));
                        assert(there.take(done + 1).last() == there[done]);
                        done = done + 1;
                    }
                    left = left - 1;
                },
                None => {
                    break;
                },
            }
        }
        ExactPop { how: pop.how, left, value }
    }

    /// Pops up to `limit` values and tells how many there were.
    pub fn pop_batch(&mut self, limit: i32) -> (count: i32)
        requires
            old(self).wf(),
        ensures
            final(self).wf(),
            final(self).kind() == old(self).kind(),
            final(self).as_small(old(self)),
            count == (if limit <= 0 {
                0
            } else if limit <= old(self).values().len() {
                limit as int
            } else {
                old(self).values().len() as int
            }),
            final(self).values() == old(self).values().skip(count as int),
    {
        proof {
            assert(self.values().skip(0) =~= self.values());
        }
        if limit <= 0 {
            return 0;
        }
        let ghost there = self.values();
        let mut count: i32 = 0;
        while count < limit
            invariant
                self.wf(),
                self.kind() == old(self).kind(),
                self.as_small(old(self)),
                there == old(self).values(),
                0 <= count <= limit,
                count <= there.len(),
                self.values() == there.skip(count as int),
            ensures
                count == limit || count == there.len(),
            decreases limit - count,
        {
            match self.pop() {
                Some(_) => {
                    assert(there.skip(count as int).skip(1) =~= there.skip(count + 1));
                    count = count + 1;
                },
                None => {
                    break;
                },
            }
        }
        count
    }

    pub fn is_empty(&self) -> (empty: u8)
        requires
            self.wf(),
        ensures
            empty == (if self.values().len() == 0 {
                JNI_TRUE
            } else {
                JNI_FALSE
            }),
    {
        if self.queue.is_empty() {
            JNI_TRUE
        } else {
            JNI_FALSE
        }
    }
}

/// Values are combined one after the other: first with the first ones, then with
/// the others.
pub proof fn law_values_are_combined_in_turn(
    how: Combine,
    value: i64,
    first: Seq<u64>,
    others: Seq<u64>,
    one: u64,
)
    ensures
        folded(how, value, first + others) == folded(how, folded(how, value, first), others),
        folded(Combine::Sum, value, seq![one]) == value.wrapping_add(one as i64),
        folded(Combine::Difference, value, seq![one]) == value.wrapping_sub(one as i64),
        folded(Combine::And, value, seq![one]) == value & (one as i64),
        folded(how, value, Seq::empty()) == value,
    decreases others.len(),
{
    assert(seq![one].drop_last() =~= Seq::<u64>::empty());
    assert(folded(Combine::Sum, value, seq![one].drop_last()) == value);
    assert(folded(Combine::Difference, value, seq![one].drop_last()) == value);
    assert(folded(Combine::And, value, seq![one].drop_last()) == value);
    if others.len() == 0 {
        assert(first + others =~= first);
    } else {
        law_values_are_combined_in_turn(how, value, first, others.drop_last(), one);
        assert((first + others).drop_last() =~= first + others.drop_last());
        assert((first + others).last() == others.last());
    }
}

/// The configurations are six, with the numbers from zero on, and differ; the label
/// of each is that of a queue that can be built.
pub proof fn law_the_configurations(a: i32, b: i32)
    ensures
        variant_of(a) is Some <==> 0 <= a < 6,
        variant_of(a) is Some && variant_of(a) == variant_of(b) ==> a == b,
        variant_of(a) matches Some(variant) ==> {
            &&& seq![31usize, 63, 127, 255, 511].contains(variant.block)
            &&& crate::tooling::search::accepted_label(variant.title(), true) == Some(
                crate::tooling::search::LabelParts {
                    preset: "balanced"@,
                    pool: 1,
                    block: variant.block as u16,
                    backoff: if variant.yields {
                        "yield"@
                    } else {
                        "crossbeam"@
                    },
                },
            )
        },
{
    let lengths = seq![31usize, 63, 127, 255, 511];
    assert(lengths[0] == 31 && lengths[1] == 63 && lengths[2] == 127 && lengths[3] == 255
        && lengths[4] == 511);
    if let Some(variant) = variant_of(a) {
        let label = crate::tooling::search::LabelParts {
            preset: "balanced"@,
            pool: 1,
            block: variant.block as u16,
            backoff: if variant.yields {
                "yield"@
            } else {
                "crossbeam"@
            },
        };
        reveal_strlit("balanced");
        reveal_strlit("no_pool");
        reveal_strlit("balanced,1,");
        reveal_strlit(",yield");
        reveal_strlit(",crossbeam");
        reveal_strlit("yield");
        reveal_strlit("crossbeam");
        reveal_strlit(",");
        assert("balanced"@.len() == 8 && "no_pool"@.len() == 7);
        let blocks = crate::tooling::search::blocks();
        assert(blocks[0] == 31 && blocks[1] == 63 && blocks[2] == 127 && blocks[3] == 255
            && blocks[4] == 511);
        assert(crate::tooling::search::presets()[1] == "balanced"@);
        assert(crate::tooling::search::pools()[0] == 1);
        assert(crate::tooling::search::backoffs()[0] == "crossbeam"@);
        assert(crate::tooling::search::backoffs()[1] == "yield"@);
        assert(crate::tooling::search::is_valid(label));
        assert(decimal(1) =~= seq!['1']);
        assert(variant.title() =~= label.written(","@));
        crate::tooling::search::law_a_label_is_read_back(label);
    }
}

/// A range holds the numbers from the first on, each one more than the one before
/// it, going round at the end.
pub proof fn law_a_range_counts_up(first: i64, count: int, i: int)
    requires
        0 <= i < count <= i64::MAX,
    ensures
        range_values(first, count).len() == count,
        range_values(first, count)[i] == first.wrapping_add(i as i64) as u64,
        first + i <= i64::MAX ==> range_values(first, count)[i] == (first + i) as u64,
        range_values(first, count)[0] == first as u64,
{
}

} // verus!
