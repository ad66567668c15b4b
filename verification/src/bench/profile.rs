//! The settings of a profiling run, and what an allocator probe counts.
use vstd::prelude::*;

use crate::bench::updates::wrapped;
use crate::text::{decimal, decimal_text};

verus! {

/// The queues whose settings differ.
#[derive(Clone, Copy, Debug, PartialEq, Eq, Structural)]
pub enum ProfileQueue {
    Ubq,
    Lubq,
    SegQueue,
    ConcurrentQueue,
    MutexVecDeque,
    MsQueue,
    FastFifo,
    LfQueue,
    MoodycamelConcurrentQueue,
}

/// The settings of a profiling run. Of labels and policies it matters only
/// whether they are given.
pub struct ProfileArgs {
    pub queue: ProfileQueue,
    pub queue_name: String,
    pub duration_secs: u64,
    pub batch_size: Option<usize>,
    pub items_per_producer: Option<u64>,
    pub prewarm_items_per_producer: Option<u64>,
    pub has_ubq_label: bool,
    pub has_lubq_backoff: bool,
    pub fastfifo_block_size: Option<usize>,
    pub fastfifo_capacity: Option<usize>,
    pub lfqueue_segment_size: Option<usize>,
}

/// A queue that takes and gives values one by one only.
pub open spec fn scalar_only(queue: ProfileQueue) -> bool {
    ||| queue == ProfileQueue::ConcurrentQueue
    ||| queue == ProfileQueue::MsQueue
    ||| queue == ProfileQueue::FastFifo
    ||| queue == ProfileQueue::LfQueue
}

/// The first setting that cannot be.
pub open spec fn profile_refusal(args: ProfileArgs) -> Option<Seq<char>> {
    if args.duration_secs == 0 {
        Some("--duration-secs must be greater than zero"@)
    } else if args.batch_size matches Some(size) && size < 2 {
        Some("--batch-size must be at least 2; omit it for scalar operations"@)
    } else if args.items_per_producer == Some(0u64) {
        Some("--items-per-producer must be greater than zero"@)
    } else if args.prewarm_items_per_producer == Some(0u64) {
        Some("--prewarm-items-per-producer must be greater than zero"@)
    } else if args.batch_size is Some && scalar_only(args.queue) {
        Some(args.queue_name@ + " has no native batch operation"@)
    } else if args.queue != ProfileQueue::Ubq && args.has_ubq_label {
        Some("--ubq-label is valid only with --queue ubq"@)
    } else if args.queue != ProfileQueue::Lubq && args.has_lubq_backoff {
        Some("--lubq-backoff is valid only with --queue lubq"@)
    } else if args.queue != ProfileQueue::FastFifo && (args.fastfifo_block_size is Some
        || args.fastfifo_capacity is Some) {
        Some("--fastfifo-block-size/--fastfifo-capacity are valid only with --queue rbbq"@)
    } else if args.queue == ProfileQueue::FastFifo && (args.fastfifo_block_size is None
        || args.fastfifo_capacity is None) {
        Some("--queue rbbq requires --fastfifo-block-size and --fastfifo-capacity"@)
    } else if args.fastfifo_block_size == Some(0usize) || args.fastfifo_capacity == Some(0usize) {
        Some("RBBQ block size and capacity must be greater than zero"@)
    } else if args.queue != ProfileQueue::LfQueue && args.lfqueue_segment_size is Some {
        Some("--lfqueue-segment-size is valid only with --queue lfqueue"@)
    } else if args.queue == ProfileQueue::LfQueue && args.lfqueue_segment_size is None {
        Some("--queue lfqueue requires --lfqueue-segment-size"@)
    } else if args.lfqueue_segment_size == Some(0usize) {
        Some("LSCQ segment size must be greater than zero"@)
    } else {
        None
    }
}

fn is_zero(value: Option<usize>) -> (zero: bool)
    ensures
        zero == (value == Some(0usize)),
{
    match value {
        Some(n) => n == 0,
        None => false,
    }
}

fn is_zero_count(value: Option<u64>) -> (zero: bool)
    ensures
        zero == (value == Some(0u64)),
{
    match value {
        Some(n) => n == 0,
        None => false,
    }
}

/// Checks the settings of a profiling run.
pub fn check_profile(args: &ProfileArgs) -> (result: Result<(), String>)
    ensures
        match result {
            Ok(_) => profile_refusal(*args) is None,
            Err(message) => profile_refusal(*args) == Some(message@),
        },
{
    if args.duration_secs == 0 {
        return Err("--duration-secs must be greater than zero".to_owned());
    }
    if let Some(size) = args.batch_size {
        if size < 2 {
            return Err("--batch-size must be at least 2; omit it for scalar operations".to_owned());
        }
    }
    if is_zero_count(args.items_per_producer) {
        return Err("--items-per-producer must be greater than zero".to_owned());
    }
    if is_zero_count(args.prewarm_items_per_producer) {
        return Err("--prewarm-items-per-producer must be greater than zero".to_owned());
    }
    let scalar = match args.queue {
        ProfileQueue::ConcurrentQueue => true,
        ProfileQueue::MsQueue => true,
        ProfileQueue::FastFifo => true,
        ProfileQueue::LfQueue => true,
        _ => false,
    };
    if args.batch_size.is_some() && scalar {
        let mut message = args.queue_name.clone();
        message.append(" has no native batch operation");
        return Err(message);
    }
    if args.queue != ProfileQueue::Ubq && args.has_ubq_label {
        return Err("--ubq-label is valid only with --queue ubq".to_owned());
    }
    if args.queue != ProfileQueue::Lubq && args.has_lubq_backoff {
        return Err("--lubq-backoff is valid only with --queue lubq".to_owned());
    }
    if args.queue != ProfileQueue::FastFifo && (args.fastfifo_block_size.is_some()
        || args.fastfifo_capacity.is_some()) {
        return Err(
            "--fastfifo-block-size/--fastfifo-capacity are valid only with --queue rbbq".to_owned(),
        );
    }
    if args.queue == ProfileQueue::FastFifo && (args.fastfifo_block_size.is_none()
        || args.fastfifo_capacity.is_none()) {
        return Err(
            "--queue rbbq requires --fastfifo-block-size and --fastfifo-capacity".to_owned(),
        );
    }
    if is_zero(args.fastfifo_block_size) || is_zero(args.fastfifo_capacity) {
        return Err("RBBQ block size and capacity must be greater than zero".to_owned());
    }
    if args.queue != ProfileQueue::LfQueue && args.lfqueue_segment_size.is_some() {
        return Err("--lfqueue-segment-size is valid only with --queue lfqueue".to_owned());
    }
    if args.queue == ProfileQueue::LfQueue && args.lfqueue_segment_size.is_none() {
        return Err("--queue lfqueue requires --lfqueue-segment-size".to_owned());
    }
    if is_zero(args.lfqueue_segment_size) {
        return Err("LSCQ segment size must be greater than zero".to_owned());
    }
    Ok(())
}

/// A number, or what stands in for it.
pub open spec fn number_or(value: Option<u64>, otherwise: Seq<char>) -> Seq<char> {
    match value {
        Some(n) => decimal(n as nat),
        None => otherwise,
    }
}

/// What is announced of a profiling run.
pub open spec fn announced(args: ProfileArgs, scenario: Seq<char>, warmup_secs: u64) -> Seq<char> {
    "profiling queue="@ + args.queue_name@ + " scenario="@ + scenario + " batch="@ + (
    match args.batch_size {
        Some(size) => decimal(size as nat),
        None => "scalar"@,
    }) + " warmup="@ + decimal(warmup_secs as nat) + "s duration="@ + decimal(
        args.duration_secs as nat,
    ) + "s fixed_items="@ + number_or(args.items_per_producer, "calibrated"@)
}

/// What is announced of a profiling run.
pub fn announce(args: &ProfileArgs, scenario: &str, warmup_secs: u64) -> (line: String)
    ensures
        line@ == announced(*args, scenario@, warmup_secs),
{
    let mut line = "profiling queue=".to_owned();
    line.append(args.queue_name.as_str());
    line.append(" scenario=");
    line.append(scenario);
    line.append(" batch=");
    match args.batch_size {
        Some(size) => line.append(decimal_text(size as u128).as_str()),
        None => line.append("scalar"),
    }
    line.append(" warmup=");
    line.append(decimal_text(warmup_secs as u128).as_str());
    line.append("s duration=");
    line.append(decimal_text(args.duration_secs as u128).as_str());
    line.append("s fixed_items=");
    match args.items_per_producer {
        Some(items) => line.append(decimal_text(items as u128).as_str()),
        None => line.append("calibrated"),
    }
    line
}

/// What an allocator probe counts while it is active. The live bytes may go
/// below zero: what was there before the probe started can be freed.
#[derive(Clone, Copy, Debug, PartialEq, Eq, Structural)]
pub struct AllocatorProbe {
    pub active: bool,
    pub alloc_calls: u64,
    pub alloc_zeroed_calls: u64,
    pub dealloc_calls: u64,
    pub realloc_calls: u64,
    pub allocated_bytes: u64,
    pub deallocated_bytes: u64,
    pub live_bytes_delta: i64,
    pub peak_additional_live_bytes: u64,
}

/// A size as a difference, capped.
pub open spec fn capped(size: usize) -> int {
    if size > i64::MAX {
        i64::MAX as int
    } else {
        size as int
    }
}

fn size_as_i64(size: usize) -> (n: i64)
    ensures
        n == capped(size),
{
    if size as u64 > i64::MAX as u64 {
        i64::MAX
    } else {
        size as i64
    }
}

impl AllocatorProbe {
    /// A probe that counts from zero.
    pub fn start() -> (probe: AllocatorProbe)
        ensures
            probe == (AllocatorProbe {
                active: true,
                alloc_calls: 0,
                alloc_zeroed_calls: 0,
                dealloc_calls: 0,
                realloc_calls: 0,
                allocated_bytes: 0,
                deallocated_bytes: 0,
                live_bytes_delta: 0,
                peak_additional_live_bytes: 0,
            }),
    {
        AllocatorProbe {
            active: true,
            alloc_calls: 0,
            alloc_zeroed_calls: 0,
            dealloc_calls: 0,
            realloc_calls: 0,
            allocated_bytes: 0,
            deallocated_bytes: 0,
            live_bytes_delta: 0,
            peak_additional_live_bytes: 0,
        }
    }

    /// The probe after `live` more bytes are in use; the peak follows.
    pub open spec fn grown(self, growth: int) -> AllocatorProbe {
        let live = self.live_bytes_delta + growth;
        AllocatorProbe {
            live_bytes_delta: live as i64,
            peak_additional_live_bytes: if live > self.peak_additional_live_bytes {
                live as u64
            } else {
                self.peak_additional_live_bytes
            },
            ..self
        }
    }

    fn grow(&mut self, growth: i64)
        requires
            growth >= 0,
            old(self).live_bytes_delta + growth <= i64::MAX,
        ensures
            *final(self) == old(self).grown(growth as int),
    {
        let live: i64 = self.live_bytes_delta + growth;
        self.live_bytes_delta = live;
        if live > 0 && live as u64 > self.peak_additional_live_bytes {
            self.peak_additional_live_bytes = live as u64;
        }
    }

    /// Memory was handed out.
    pub fn record_alloc(&mut self, size: usize, zeroed: bool)
        requires
            old(self).live_bytes_delta + capped(size) <= i64::MAX,
        ensures
            !old(self).active ==> *final(self) == *old(self),
            old(self).active ==> *final(self) == (AllocatorProbe {
                alloc_calls: wrapped(old(self).alloc_calls + 1) as u64,
                alloc_zeroed_calls: wrapped(
                    old(self).alloc_zeroed_calls + (if zeroed {
                        1int
                    } else {
                        0int
                    }),
                ) as u64,
                allocated_bytes: wrapped(old(self).allocated_bytes + size) as u64,
                ..old(self).grown(capped(size))
            }),
    {
        if !self.active {
            return;
        }
        self.alloc_calls = self.alloc_calls.wrapping_add(1);
        if zeroed {
            self.alloc_zeroed_calls = self.alloc_zeroed_calls.wrapping_add(1);
        }
        self.allocated_bytes = self.allocated_bytes.wrapping_add(size as u64);
        self.grow(size_as_i64(size));
    }

    /// Memory was given back.
    pub fn record_dealloc(&mut self, size: usize)
        requires
            old(self).live_bytes_delta - capped(size) >= i64::MIN,
        ensures
            !old(self).active ==> *final(self) == *old(self),
            old(self).active ==> *final(self) == (AllocatorProbe {
                dealloc_calls: wrapped(old(self).dealloc_calls + 1) as u64,
                deallocated_bytes: wrapped(old(self).deallocated_bytes + size) as u64,
                live_bytes_delta: (old(self).live_bytes_delta - capped(size)) as i64,
                ..*old(self)
            }),
    {
        if !self.active {
            return;
        }
        self.dealloc_calls = self.dealloc_calls.wrapping_add(1);
        self.deallocated_bytes = self.deallocated_bytes.wrapping_add(size as u64);
        self.live_bytes_delta = self.live_bytes_delta - size_as_i64(size);
    }

    /// Memory was resized.
    pub fn record_realloc(&mut self, old_size: usize, new_size: usize)
        requires
            new_size >= old_size ==> old(self).live_bytes_delta + capped(
                (new_size - old_size) as usize,
            ) <= i64::MAX,
            new_size < old_size ==> old(self).live_bytes_delta - capped(
                (old_size - new_size) as usize,
            ) >= i64::MIN,
        ensures
            !old(self).active ==> *final(self) == *old(self),
            old(self).active ==> *final(self) == (AllocatorProbe {
                realloc_calls: wrapped(old(self).realloc_calls + 1) as u64,
                allocated_bytes: wrapped(old(self).allocated_bytes + new_size) as u64,
                deallocated_bytes: wrapped(old(self).deallocated_bytes + old_size) as u64,
                ..if new_size >= old_size {
                    old(self).grown(capped((new_size - old_size) as usize))
                } else {
                    AllocatorProbe {
                        live_bytes_delta: (old(self).live_bytes_delta - capped(
                            (old_size - new_size) as usize,
                        )) as i64,
                        ..*old(self)
                    }
                }
            }),
    {
        if !self.active {
            return;
        }
        self.realloc_calls = self.realloc_calls.wrapping_add(1);
        self.allocated_bytes = self.allocated_bytes.wrapping_add(new_size as u64);
        self.deallocated_bytes = self.deallocated_bytes.wrapping_add(old_size as u64);
        if new_size >= old_size {
            self.grow(size_as_i64(new_size - old_size));
        } else {
            self.live_bytes_delta = self.live_bytes_delta - size_as_i64(old_size - new_size);
        }
    }

    /// Stops counting.
    pub fn finish(&mut self)
        ensures
            *final(self) == (AllocatorProbe { active: false, ..*old(self) }),
    {
        self.active = false;
    }
}

/// The peak is never below what is in use.
pub proof fn law_peak_covers_growth(probe: AllocatorProbe, growth: int)
    requires
        growth >= 0,
        probe.live_bytes_delta <= probe.peak_additional_live_bytes,
        probe.live_bytes_delta + growth <= i64::MAX,
    ensures
        probe.grown(growth).live_bytes_delta <= probe.grown(growth).peak_additional_live_bytes,
        probe.peak_additional_live_bytes <= probe.grown(growth).peak_additional_live_bytes,
{
}

/// A profiling run is refused exactly for a time, a batch or a count that is too
/// small, for batches of a queue that has none, and for settings of another queue
/// or missing settings of its own.
pub proof fn law_what_a_profiling_run_needs(args: ProfileArgs)
    ensures
        profile_refusal(args) is None <==> {
            &&& args.duration_secs > 0
            &&& args.items_per_producer != Some(0u64)
            &&& args.prewarm_items_per_producer != Some(0u64)
            &&& args.batch_size is Some ==> args.batch_size->0 >= 2 && (args.queue
                == ProfileQueue::Ubq || args.queue == ProfileQueue::Lubq || !scalar_only(
                args.queue,
            ))
            &&& args.has_ubq_label ==> args.queue == ProfileQueue::Ubq
            &&& args.has_lubq_backoff ==> args.queue == ProfileQueue::Lubq
            &&& args.queue == ProfileQueue::FastFifo <==> args.fastfifo_block_size is Some
            &&& args.queue == ProfileQueue::FastFifo <==> args.fastfifo_capacity is Some
            &&& args.fastfifo_block_size != Some(0usize) && args.fastfifo_capacity != Some(0usize)
            &&& args.queue == ProfileQueue::LfQueue <==> args.lfqueue_segment_size is Some
            &&& args.lfqueue_segment_size != Some(0usize)
        },
        scalar_only(args.queue) <==> seq![
            ProfileQueue::ConcurrentQueue,
            ProfileQueue::MsQueue,
            ProfileQueue::FastFifo,
            ProfileQueue::LfQueue,
        ].contains(args.queue),
{
    let list = seq![
        ProfileQueue::ConcurrentQueue,
        ProfileQueue::MsQueue,
        ProfileQueue::FastFifo,
        ProfileQueue::LfQueue,
    ];
    assert(list[0] == ProfileQueue::ConcurrentQueue && list[1] == ProfileQueue::MsQueue && list[2]
        == ProfileQueue::FastFifo && list[3] == ProfileQueue::LfQueue);
}

} // verus!
