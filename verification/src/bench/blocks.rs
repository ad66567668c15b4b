//! Counters that run through blocks: the words they are kept in and the cases
//! that are measured.
use vstd::arithmetic::div_mod::{
    lemma_fundamental_div_mod, lemma_fundamental_div_mod_converse, lemma_mod_bound,
};
use vstd::prelude::*;

verus! {

/// One more than the largest index or generation.
pub const FIELD: u64 = 0x1_0000_0000;

/// How many updates a thread makes between two looks at the stop flag.
pub const UPDATE_CHUNK: usize = 4096;

/// How far one reservation moves a position whose low bit is in use.
pub const SEGQUEUE_INDEX_STEP: u64 = 2;

/// Memory orderings of the updates.
#[derive(Clone, Copy, Debug, PartialEq, Eq, Structural)]
pub enum OrderingProfile {
    Ubq,
    Relaxed,
}

/// The strength of one memory access.
#[derive(Clone, Copy, Debug, PartialEq, Eq, Structural)]
pub enum Strength {
    Relaxed,
    Acquire,
    Release,
    SeqCst,
}

impl OrderingProfile {
    pub fn name(self) -> (name: &'static str)
        ensures
            name@ == (match self {
                OrderingProfile::Ubq => "ubq"@,
                OrderingProfile::Relaxed => "relaxed"@,
            }),
    {
        match self {
            OrderingProfile::Ubq => "ubq",
            OrderingProfile::Relaxed => "relaxed",
        }
    }

    pub fn load_strength(self) -> (strength: Strength)
        ensures
            strength == (match self {
                OrderingProfile::Ubq => Strength::Acquire,
                OrderingProfile::Relaxed => Strength::Relaxed,
            }),
    {
        match self {
            OrderingProfile::Ubq => Strength::Acquire,
            OrderingProfile::Relaxed => Strength::Relaxed,
        }
    }

    pub fn exchange_strength(self) -> (strength: Strength)
        ensures
            strength == (match self {
                OrderingProfile::Ubq => Strength::SeqCst,
                OrderingProfile::Relaxed => Strength::Relaxed,
            }),
    {
        match self {
            OrderingProfile::Ubq => Strength::SeqCst,
            OrderingProfile::Relaxed => Strength::Relaxed,
        }
    }

    pub fn store_strength(self) -> (strength: Strength)
        ensures
            strength == (match self {
                OrderingProfile::Ubq => Strength::Release,
                OrderingProfile::Relaxed => Strength::Relaxed,
            }),
    {
        match self {
            OrderingProfile::Ubq => Strength::Release,
            OrderingProfile::Relaxed => Strength::Relaxed,
        }
    }
}

/// What the counter is kept in: one word, or a pointer and a word.
#[derive(Clone, Copy, Debug, PartialEq, Eq, Structural)]
pub enum CounterLayout {
    U64,
    MixedU128U64,
}

impl CounterLayout {
    pub open spec fn title(self) -> Seq<char> {
        match self {
            CounterLayout::U64 => "u64"@,
            CounterLayout::MixedU128U64 => "mixed"@,
        }
    }

    pub fn name(self) -> (name: &'static str)
        ensures
            name@ == self.title(),
    {
        match self {
            CounterLayout::U64 => "u64",
            CounterLayout::MixedU128U64 => "mixed",
        }
    }
}

/// How the counter is advanced.
#[derive(Clone, Copy, Debug, PartialEq, Eq, Structural)]
pub enum UpdateMethod {
    Cas,
    CasBackoff,
    Faa,
    SegQueue,
}

impl UpdateMethod {
    pub open spec fn title(self) -> Seq<char> {
        match self {
            UpdateMethod::Cas => "cas"@,
            UpdateMethod::CasBackoff => "casb"@,
            UpdateMethod::Faa => "faa"@,
            UpdateMethod::SegQueue => "sgq"@,
        }
    }

    pub fn name(self) -> (name: &'static str)
        ensures
            name@ == self.title(),
    {
        match self {
            UpdateMethod::Cas => "cas",
            UpdateMethod::CasBackoff => "casb",
            UpdateMethod::Faa => "faa",
            UpdateMethod::SegQueue => "sgq",
        }
    }

    pub fn uses_cas(self) -> (uses: bool)
        ensures
            uses == (self != UpdateMethod::Faa),
    {
        match self {
            UpdateMethod::Faa => false,
            _ => true,
        }
    }
}

/// One combination that is measured.
#[derive(Clone, Copy, Debug, PartialEq, Eq, Structural)]
pub struct BenchmarkCase {
    pub layout: CounterLayout,
    pub method: UpdateMethod,
}

/// The combinations that are measured.
pub open spec fn cases() -> Seq<BenchmarkCase> {
    seq![
        (BenchmarkCase { layout: CounterLayout::U64, method: UpdateMethod::Cas }),
        (BenchmarkCase { layout: CounterLayout::MixedU128U64, method: UpdateMethod::Cas }),
        (BenchmarkCase { layout: CounterLayout::U64, method: UpdateMethod::CasBackoff }),
        (BenchmarkCase { layout: CounterLayout::MixedU128U64, method: UpdateMethod::CasBackoff }),
        (BenchmarkCase { layout: CounterLayout::U64, method: UpdateMethod::Faa }),
        (BenchmarkCase { layout: CounterLayout::MixedU128U64, method: UpdateMethod::Faa }),
        (BenchmarkCase { layout: CounterLayout::U64, method: UpdateMethod::SegQueue }),
    ]
}

pub fn all_cases() -> (list: Vec<BenchmarkCase>)
    ensures
        list@ == cases(),
{
    let mut list: Vec<BenchmarkCase> = Vec::new();
    list.push(BenchmarkCase { layout: CounterLayout::U64, method: UpdateMethod::Cas });
    list.push(BenchmarkCase { layout: CounterLayout::MixedU128U64, method: UpdateMethod::Cas });
    list.push(BenchmarkCase { layout: CounterLayout::U64, method: UpdateMethod::CasBackoff });
    list.push(
        BenchmarkCase { layout: CounterLayout::MixedU128U64, method: UpdateMethod::CasBackoff },
    );
    list.push(BenchmarkCase { layout: CounterLayout::U64, method: UpdateMethod::Faa });
    list.push(BenchmarkCase { layout: CounterLayout::MixedU128U64, method: UpdateMethod::Faa });
    list.push(BenchmarkCase { layout: CounterLayout::U64, method: UpdateMethod::SegQueue });
    assert(list@ =~= cases());
    list
}

/// A list that starts at position `offset`, counted round.
pub open spec fn rotated<T>(list: Seq<T>, offset: int) -> Seq<T> {
    Seq::new(list.len(), |i: int| list[(i + offset) % list.len() as int])
}

/// The combinations, started at another one.
pub fn case_order(offset: usize) -> (list: Vec<BenchmarkCase>)
    ensures
        list@ == rotated(cases(), offset as int),
{
    let all = all_cases();
    let start: usize = offset % 7;
    let mut list: Vec<BenchmarkCase> = Vec::new();
    let mut i: usize = 0;
    while i < 7
        invariant
            all@ == cases(),
            start == offset % 7,
            i <= 7,
            list@.len() == i,
            forall|j: int| 0 <= j < i ==> list@[j] == cases()[(j + offset) % 7],
        decreases 7 - i,
    {
        assert((i + start) % 7 == (i + offset) % 7);
        list.push(all[(i + start) % 7]);
        i = i + 1;
    }
    assert(list@ =~= rotated(cases(), offset as int));
    list
}

/// Over seven offsets in a row, each combination stands once at each position.
pub proof fn law_rotation_is_fair(case: int, position: int, a: int, b: int)
    requires
        0 <= case < 7,
        0 <= position < 7,
        0 <= a < 7,
        0 <= b < 7,
        rotated(cases(), a)[position] == cases()[case],
        rotated(cases(), b)[position] == cases()[case],
    ensures
        a == b,
{
    let x = (position + a) % 7;
    let y = (position + b) % 7;
    assert(cases()[x] == cases()[case]);
    assert(cases()[y] == cases()[case]);
    assert(x == case && y == case);
}

/// Every combination comes to every position.
pub proof fn law_rotation_reaches(case: int, position: int) -> (offset: int)
    requires
        0 <= case < 7,
        0 <= position < 7,
    ensures
        0 <= offset < 7,
        rotated(cases(), offset)[position] == cases()[case],
{
    let offset = (case - position + 7) % 7;
    assert((position + offset) % 7 == case);
    offset
}

/// The size of a block and the spacing of block pointers.
#[derive(Clone, Copy, Debug, PartialEq, Eq, Structural)]
pub struct BlockConfig {
    pub block_size: u32,
    pub alignment: u64,
}

/// A number that halving leads to one.
pub open spec fn is_power_of_two(n: nat) -> bool
    decreases n,
{
    if n <= 1 {
        n == 1
    } else {
        n % 2 == 0 && is_power_of_two(n / 2)
    }
}

fn power_of_two(n: u64) -> (result: bool)
    ensures
        result == is_power_of_two(n as nat),
{
    let mut rest: u64 = n;
    if n == 0 {
        return false;
    }
    while rest % 2 == 0
        invariant
            rest > 0,
            is_power_of_two(n as nat) == is_power_of_two(rest as nat),
        decreases rest,
    {
        rest = rest / 2;
    }
    rest == 1
}

impl BlockConfig {
    pub open spec fn wf(self) -> bool {
        self.block_size > 0 && is_power_of_two(self.alignment as nat)
    }

    pub fn new(block_size: u32, alignment: u64) -> (result: Result<BlockConfig, String>)
        ensures
            match result {
                Ok(block) => block.wf() && block.block_size == block_size && block.alignment
                    == alignment,
                Err(message) => if block_size == 0 {
                    message@ == "block sizes must be greater than zero"@
                } else {
                    !is_power_of_two(alignment as nat) && message@
                        == "--alignment must be a nonzero power of two"@
                },
            },
    {
        if block_size == 0 {
            return Err("block sizes must be greater than zero".to_owned());
        }
        if !power_of_two(alignment) {
            return Err("--alignment must be a nonzero power of two".to_owned());
        }
        Ok(BlockConfig { block_size, alignment })
    }

    /// The index in a word.
    pub fn index(self, value: u64) -> (index: u32)
        ensures
            index == value % FIELD,
    {
        (value % FIELD) as u32
    }

    /// The generation in a word.
    pub fn generation(self, value: u64) -> (generation: u32)
        ensures
            generation == value / FIELD,
    {
        (value / FIELD) as u32
    }

    /// The word for a generation and an index.
    pub fn pack_low(self, generation: u32, index: u32) -> (value: u64)
        ensures
            value == generation * FIELD + index,
            value / FIELD == generation,
            value % FIELD == index,
    {
        generation as u64 * FIELD + index as u64
    }

    /// The word at the start of the next block.
    pub fn next_low(self, value: u64) -> (next: u64)
        ensures
            next == ((value / FIELD + 1) % FIELD as int) * FIELD,
    {
        let generation = self.generation(value);
        self.pack_low(generation.wrapping_add(1), 0)
    }

    /// The double word for a pointer and a word.
    pub fn pack_full(self, pointer: u64, low: u64) -> (full: u128)
        ensures
            full == pointer * 0x1_0000_0000_0000_0000 + low,
            full / 0x1_0000_0000_0000_0000 == pointer,
            full % 0x1_0000_0000_0000_0000 == low,
    {
        pointer as u128 * 0x1_0000_0000_0000_0000 + low as u128
    }

    /// The word after so many operations.
    pub open spec fn low_after(self, operations: int) -> int {
        operations / self.block_size as int * FIELD + operations % self.block_size as int
    }

    /// The word after so many operations, unless the generation has wrapped.
    pub fn expected_low(self, operations: u64) -> (result: Result<u64, String>)
        requires
            self.wf(),
        ensures
            match result {
                Ok(low) => operations / self.block_size as u64 <= u32::MAX && low
                    == self.low_after(operations as int),
                Err(message) => operations / self.block_size as u64 > u32::MAX && message@
                    == "32-bit generation counter wrapped during one sample"@,
            },
    {
        let size: u64 = self.block_size as u64;
        let completed_blocks: u64 = operations / size;
        if completed_blocks > u32::MAX as u64 {
            return Err("32-bit generation counter wrapped during one sample".to_owned());
        }
        let index: u64 = operations % size;
        proof {
            lemma_mod_bound(operations as int, size as int);
        }
        Ok(self.pack_low(completed_blocks as u32, index as u32))
    }

    /// The pointer after so many operations.
    pub open spec fn pointer_after(self, operations: int) -> int {
        (operations / self.block_size as int + 1) * self.alignment
    }

    /// The pointer after so many operations, unless it has overflowed.
    pub fn expected_pointer(self, operations: u64) -> (result: Result<u64, String>)
        requires
            self.wf(),
        ensures
            match result {
                Ok(pointer) => pointer == self.pointer_after(operations as int),
                Err(message) => self.pointer_after(operations as int) > u64::MAX && message@
                    == "synthetic block pointer overflowed u64"@,
            },
    {
        let completed_blocks: u64 = operations / self.block_size as u64;
        let wide: u128 = completed_blocks as u128 + 1;
        proof {
            assert(wide * self.alignment <= 0x1_0000_0000_0000_0000 * 0xffff_ffff_ffff_ffff)
                by (nonlinear_arith)
                requires
                    wide <= 0x1_0000_0000_0000_0000,
                    self.alignment <= 0xffff_ffff_ffff_ffff,
            ;
        }
        let pointer: u128 = wide * self.alignment as u128;
        if pointer > u64::MAX as u128 {
            return Err("synthetic block pointer overflowed u64".to_owned());
        }
        Ok(pointer as u64)
    }

    /// The positions of one block, one of which stays unused.
    pub fn segqueue_lap(self) -> (lap: u64)
        ensures
            lap == self.block_size + 1,
    {
        self.block_size as u64 + 1
    }

    /// Where in its block a position is.
    pub fn segqueue_offset(self, value: u64) -> (offset: u32)
        ensures
            offset == (value / 2) % (self.block_size + 1) as u64,
    {
        let lap: u64 = self.segqueue_lap();
        proof {
            lemma_mod_bound((value / 2) as int, lap as int);
        }
        ((value / 2) % lap) as u32
    }

    /// The position after so many operations.
    pub open spec fn position_after(self, operations: int) -> int {
        2 * (operations / self.block_size as int * (self.block_size + 1) + operations
            % self.block_size as int)
    }

    /// The position after so many operations, unless it has overflowed.
    pub fn expected_segqueue_position(self, operations: u64) -> (result: Result<u64, String>)
        requires
            self.wf(),
        ensures
            match result {
                Ok(position) => position == self.position_after(operations as int),
                Err(message) => self.position_after(operations as int) > u64::MAX && message@
                    == "SegQueue-style position overflowed u64"@,
            },
    {
        let size: u64 = self.block_size as u64;
        let blocks: u64 = operations / size;
        let index: u64 = operations % size;
        let lap: u64 = self.segqueue_lap();
        proof {
            assert(blocks * lap <= 0xffff_ffff_ffff_ffff * 0x1_0000_0000) by (nonlinear_arith)
                requires
                    blocks <= 0xffff_ffff_ffff_ffff,
                    lap <= 0x1_0000_0000,
            ;
        }
        let position: u128 = (blocks as u128 * lap as u128 + index as u128) * 2;
        if position > u64::MAX as u128 {
            return Err("SegQueue-style position overflowed u64".to_owned());
        }
        Ok(position as u64)
    }
}

/// A word tells its generation and index apart, and a double word its pointer
/// and its word.
pub proof fn law_words_hold_their_fields(generation: int, index: int, pointer: int, low: int)
    requires
        0 <= generation < FIELD,
        0 <= index < FIELD,
        0 <= low < 0x1_0000_0000_0000_0000,
    ensures
        (generation * FIELD + index) / FIELD as int == generation,
        (generation * FIELD + index) % FIELD as int == index,
        (pointer * 0x1_0000_0000_0000_0000 + low) / 0x1_0000_0000_0000_0000 == pointer,
        (pointer * 0x1_0000_0000_0000_0000 + low) % 0x1_0000_0000_0000_0000 == low,
{
}

/// In increasing order, without repetition.
pub open spec fn increasing(list: Seq<u32>) -> bool {
    forall|i: int, j: int| 0 <= i < j < list.len() ==> #[trigger] list[i] < #[trigger] list[j]
}

/// The block sizes in order, each once; none at all and zero are refused.
pub fn normalize_block_sizes(values: &[u32]) -> (result: Result<Vec<u32>, String>)
    ensures
        match result {
            Ok(sizes) => {
                &&& values@.len() > 0
                &&& !values@.contains(0)
                &&& increasing(sizes@)
                &&& forall|v: u32| #[trigger] sizes@.contains(v) <==> values@.contains(v)
            },
            Err(message) => if values@.len() == 0 {
                message@ == "--block-sizes must contain at least one size"@
            } else {
                values@.contains(0) && message@ == "block sizes must be greater than zero"@
            },
        },
{
    if values.len() == 0 {
        return Err("--block-sizes must contain at least one size".to_owned());
    }
    let mut sizes: Vec<u32> = Vec::new();
    let mut i: usize = 0;
    while i < values.len()
        invariant
            i <= values@.len(),
            increasing(sizes@),
            forall|j: int| 0 <= j < i ==> values@[j] != 0,
            forall|v: u32| #[trigger]
                sizes@.contains(v) <==> exists|j: int| 0 <= j < i && values@[j] == v,
        decreases values@.len() - i,
    {
        if values[i] == 0 {
            assert(values@.contains(0));
            return Err("block sizes must be greater than zero".to_owned());
        }
        insert_size(&mut sizes, values[i]);
        i = i + 1;
    }
    Ok(sizes)
}

fn insert_size(sizes: &mut Vec<u32>, value: u32)
    requires
        increasing(old(sizes)@),
    ensures
        increasing(final(sizes)@),
        forall|v: u32| #[trigger]
            final(sizes)@.contains(v) <==> old(sizes)@.contains(v) || v == value,
{
    let ghost before = sizes@;
    let mut at: usize = 0;
    while at < sizes.len() && sizes[at] < value
        invariant
            sizes@ == before,
            at <= sizes@.len(),
            increasing(before),
            forall|j: int| 0 <= j < at ==> before[j] < value,
        decreases sizes@.len() - at,
    {
        at = at + 1;
    }
    if at < sizes.len() && sizes[at] == value {
        assert(before.contains(value));
        return;
    }
    sizes.insert(at, value);
    proof {
        let after = sizes@;
        assert(after =~= before.insert(at as int, value));
        assert forall|i: int, j: int| 0 <= i < j < after.len() implies #[trigger] after[i]
            < #[trigger] after[j] by {
            let a = if i < at {
                i
            } else {
                i - 1
            };
            let b = if j < at {
                j
            } else {
                j - 1
            };
            if i != at {
                assert(after[i] == before[a]);
            }
            if j != at {
                assert(after[j] == before[b]);
            }
            if i == at && b > at {
                assert(before[at as int] < before[b]);
            }
        }
        assert forall|v: u32| #[trigger] after.contains(v) <==> before.contains(v) || v
            == value by {
            if before.contains(v) {
                let k = before.index_of(v);
                if k < at {
                    assert(after[k] == v);
                } else {
                    assert(after[k + 1] == v);
                }
            }
            if v == value {
                assert(after[at as int] == v);
            }
            if after.contains(v) {
                let k = after.index_of(v);
                if k < at {
                    assert(before[k] == v);
                } else if k > at {
                    assert(before[k - 1] == v);
                }
            }
        }
    }
}

/// The blocks of a repeat, counted from one, started at another block each time.
pub fn block_order(blocks: &Vec<BlockConfig>, repeat_index: usize) -> (list: Vec<BlockConfig>)
    requires
        blocks@.len() > 0,
        repeat_index > 0,
    ensures
        list@ == rotated(blocks@, repeat_index - 1),
{
    let len: usize = blocks.len();
    let start: usize = (repeat_index - 1) % len;
    let mut list: Vec<BlockConfig> = Vec::new();
    let mut i: usize = 0;
    while i < len
        invariant
            len == blocks@.len(),
            len > 0,
            repeat_index > 0,
            start == (repeat_index - 1) % (len as int),
            i <= len,
            list@.len() == i,
            forall|j: int|
                0 <= j < i ==> list@[j] == blocks@[(j + (repeat_index - 1)) % (len as int)],
        decreases len - i,
    {
        let at: usize = if i < len - start {
            start + i
        } else {
            i - (len - start)
        };
        proof {
            let n = len as int;
            let q = (repeat_index - 1) / n;
            lemma_fundamental_div_mod(repeat_index - 1, n);
            assert(n * (q + 1) == n * q + n) by (nonlinear_arith);
            if i < len - start {
                assert(i + (repeat_index - 1) == n * q + at);
                assert(n * q == q * n) by (nonlinear_arith);
                lemma_fundamental_div_mod_converse(i + (repeat_index - 1), n, q, at as int);
            } else {
                assert(n * (q + 1) == (q + 1) * n) by (nonlinear_arith);
                lemma_fundamental_div_mod_converse(i + (repeat_index - 1), n, q + 1, at as int);
            }
        }
        list.push(blocks[at]);
        i = i + 1;
    }
    assert(list@ =~= rotated(blocks@, repeat_index - 1));
    list
}

/// The thread counts that are measured: one, two, four and so on as far as the
/// limit goes.
pub fn updater_counts(limit: usize) -> (result: Result<Vec<usize>, String>)
    ensures
        match result {
            Ok(counts) => {
                &&& limit > 0
                &&& counts@.len() > 0
                &&& counts@[0] == 1
                &&& forall|i: int|
                    0 <= i < counts@.len() - 1 ==> #[trigger] counts@[i + 1] == 2 * counts@[i]
                &&& counts@.last() <= limit < 2 * counts@.last()
            },
            Err(message) => limit == 0 && message@
                == "effective updater limit must be greater than zero"@,
        },
{
    if limit == 0 {
        return Err("effective updater limit must be greater than zero".to_owned());
    }
    let mut counts: Vec<usize> = Vec::new();
    counts.push(1);
    let mut count: usize = 1;
    while count <= limit / 2
        invariant
            0 < count <= limit,
            counts@.len() > 0,
            counts@[0] == 1,
            counts@.last() == count,
            forall|i: int|
                0 <= i < counts@.len() - 1 ==> #[trigger] counts@[i + 1] == 2 * counts@[i],
        decreases limit - count,
    {
        let ghost before = counts@;
        count = count * 2;
        counts.push(count);
        assert forall|i: int| 0 <= i < counts@.len() - 1 implies #[trigger] counts@[i + 1] == 2
            * counts@[i] by {
            if i < before.len() - 1 {
                assert(before[i + 1] == 2 * before[i]);
            }
        }
    }
    Ok(counts)
}

/// The powers of two are one and what doubling makes of them.
pub proof fn law_powers_of_two(n: nat)
    ensures
        is_power_of_two(n) <==> exists|k: nat| n == #[trigger] vstd::arithmetic::power2::pow2(k),
    decreases n,
{
    vstd::arithmetic::power2::lemma2_to64();
    if n <= 1 {
        if n == 1 {
            assert(n == vstd::arithmetic::power2::pow2(0));
        }
        if exists|k: nat| n == #[trigger] vstd::arithmetic::power2::pow2(k) {
            let k = choose|k: nat| n == #[trigger] vstd::arithmetic::power2::pow2(k);
            vstd::arithmetic::power2::lemma_pow2_pos(k);
        }
    } else {
        law_powers_of_two(n / 2);
        if is_power_of_two(n) {
            let k = choose|k: nat| n / 2 == #[trigger] vstd::arithmetic::power2::pow2(k);
            vstd::arithmetic::power2::lemma_pow2_unfold(k + 1);
            assert(n == vstd::arithmetic::power2::pow2(k + 1));
        }
        if exists|k: nat| n == #[trigger] vstd::arithmetic::power2::pow2(k) {
            let k = choose|k: nat| n == #[trigger] vstd::arithmetic::power2::pow2(k);
            assert(k > 0);
            vstd::arithmetic::power2::lemma_pow2_unfold(k);
            assert(n / 2 == vstd::arithmetic::power2::pow2((k - 1) as nat));
        }
    }
}

/// The combinations that are measured differ, and are all of the two layouts and
/// the four methods but one: a lap counter has no pointer.
pub proof fn law_the_combinations(case: BenchmarkCase)
    ensures
        cases().no_duplicates(),
        cases().len() == 7,
        cases().contains(case) <==> !(case.layout == CounterLayout::MixedU128U64 && case.method
            == UpdateMethod::SegQueue),
{
    let all = cases();
    assert(all[0].layout == CounterLayout::U64 && all[0].method == UpdateMethod::Cas);
    assert(all[1].layout == CounterLayout::MixedU128U64 && all[1].method == UpdateMethod::Cas);
    assert(all[2].layout == CounterLayout::U64 && all[2].method == UpdateMethod::CasBackoff);
    assert(all[3].layout == CounterLayout::MixedU128U64 && all[3].method
        == UpdateMethod::CasBackoff);
    assert(all[4].layout == CounterLayout::U64 && all[4].method == UpdateMethod::Faa);
    assert(all[5].layout == CounterLayout::MixedU128U64 && all[5].method == UpdateMethod::Faa);
    assert(all[6].layout == CounterLayout::U64 && all[6].method == UpdateMethod::SegQueue);
}

} // verus!
