//! The log itself: messages wait in a queue until the writer takes them.
use crossbeam_queue::SegQueue;
use vstd::prelude::*;

use crate::debug::config::{
    kept, label_in_name, next_count, next_total, passes, sanitize_label, should_log, Config,
};
use crate::debug::wheel::{
    due_tasks, later_tasks, ticks_for, ticks_of, PeriodicTask, TimerWheel,
};
use crate::sleepq::{seg_contents, seg_is_empty, seg_new, seg_pop, seg_push};
use crate::text::{begins, chars_of, decimal, decimal_text, same, starts_with};

verus! {

/// A message.
#[derive(Clone, Debug)]
pub struct LogEntry {
    pub ts_ns: u64,
    pub thread_id: u64,
    pub thread_label: Option<String>,
    pub tag: &'static str,
    pub message: String,
}

/// The contents of a message.
pub struct EntryParts {
    pub ts_ns: u64,
    pub thread_id: u64,
    pub thread_label: Option<Seq<char>>,
    pub tag: Seq<char>,
    pub message: Seq<char>,
}

/// The characters of a text that may be missing.
pub open spec fn maybe(text: Option<String>) -> Option<Seq<char>> {
    match text {
        Some(text) => Some(text@),
        None => None,
    }
}

impl View for LogEntry {
    type V = EntryParts;

    open spec fn view(&self) -> EntryParts {
        EntryParts {
            ts_ns: self.ts_ns,
            thread_id: self.thread_id,
            thread_label: maybe(self.thread_label),
            tag: self.tag@,
            message: self.message@,
        }
    }
}

fn copy_label(label: &Option<String>) -> (copy: Option<String>)
    ensures
        maybe(copy) == maybe(*label),
{
    match label {
        Some(text) => Some(text.clone()),
        None => None,
    }
}

impl LogEntry {
    fn copy(&self) -> (entry: LogEntry)
        ensures
            entry@ == self@,
    {
        LogEntry {
            ts_ns: self.ts_ns,
            thread_id: self.thread_id,
            thread_label: copy_label(&self.thread_label),
            tag: self.tag,
            message: self.message.clone(),
        }
    }
}

/// The contents of messages.
pub open spec fn entry_views(entries: Seq<LogEntry>) -> Seq<EntryParts> {
    entries.map_values(|entry: LogEntry| entry@)
}

/// The line of a message.
pub open spec fn line_of(entry: EntryParts) -> Seq<char> {
    "["@ + decimal(entry.ts_ns as nat) + "] tid="@ + decimal(entry.thread_id as nat) + " "@ + (
    match entry.thread_label {
        Some(label) => label,
        None => "-"@,
    }) + " "@ + entry.tag + " "@ + entry.message + "\n"@
}

/// The lines of messages, one after the other.
pub open spec fn lines_of(entries: Seq<EntryParts>) -> Seq<char>
    decreases entries.len(),
{
    if entries.len() == 0 {
        Seq::empty()
    } else {
        lines_of(entries.drop_last()) + line_of(entries.last())
    }
}

/// Appends the line of a message.
pub fn write_entry(entry: &LogEntry, buffer: &mut String)
    ensures
        final(buffer)@ == old(buffer)@ + line_of(entry@),
{
    let ghost before = buffer@;
    let ts = decimal_text(entry.ts_ns as u128);
    let id = decimal_text(entry.thread_id as u128);
    buffer.append("[");
    buffer.append(ts.as_str());
    buffer.append("] tid=");
    buffer.append(id.as_str());
    buffer.append(" ");
    match &entry.thread_label {
        Some(label) => {
            buffer.append(label.as_str());
        },
        None => {
            buffer.append("-");
        },
    }
    buffer.append(" ");
    buffer.append(entry.tag);
    buffer.append(" ");
    buffer.append(entry.message.as_str());
    buffer.append("\n");
    assert(buffer@ =~= before + line_of(entry@));
}

/// The latest messages after one more: at most so many, the oldest leaving.
pub open spec fn with_recent(recent: Seq<EntryParts>, entry: EntryParts, max: int) -> Seq<
    EntryParts,
> {
    if max == 0 {
        recent
    } else if recent.len() >= max {
        recent.skip(1).push(entry)
    } else {
        recent.push(entry)
    }
}

/// The latest messages after several more.
pub open spec fn with_all_recent(
    recent: Seq<EntryParts>,
    entries: Seq<EntryParts>,
    max: int,
) -> Seq<EntryParts>
    decreases entries.len(),
{
    if entries.len() == 0 {
        recent
    } else {
        with_recent(with_all_recent(recent, entries.drop_last(), max), entries.last(), max)
    }
}

/// Of the messages that came, the latest are kept, in their order, and there
/// are never more of them than asked for.
pub proof fn law_recent_keeps_the_latest(
    recent: Seq<EntryParts>,
    entries: Seq<EntryParts>,
    max: int,
)
    requires
        max > 0,
        recent.len() <= max,
    ensures
        ({
            let all = recent + entries;
            let kept = with_all_recent(recent, entries, max);
            kept == if all.len() <= max {
                all
            } else {
                all.skip(all.len() - max)
            }
        }),
    decreases entries.len(),
{
    let all = recent + entries;
    if entries.len() == 0 {
        assert(all =~= recent);
    } else {
        law_recent_keeps_the_latest(recent, entries.drop_last(), max);
        let before = recent + entries.drop_last();
        assert(all =~= before.push(entries.last()));
        let kept = with_all_recent(recent, entries, max);
        if all.len() > max {
            assert(kept =~= all.skip(all.len() - max));
        } else {
            assert(kept =~= all);
        }
    }
}

fn push_recent(recent: &mut Vec<LogEntry>, entry: LogEntry, max: usize)
    ensures
        entry_views(final(recent)@) == with_recent(
            entry_views(old(recent)@),
            entry@,
            max as int,
        ),
{
    let ghost before = entry_views(recent@);
    let ghost new = entry@;
    if max == 0 {
        return;
    }
    if recent.len() >= max {
        let _ = recent.remove(0);
        assert(entry_views(recent@) =~= before.skip(1));
    }
    let ghost part = entry_views(recent@);
    recent.push(entry);
    assert(entry_views(recent@) =~= part.push(new));
}

/// What a thread knows of itself and its messages.
pub struct ThreadLog {
    id: u64,
    label: Option<String>,
    count: u64,
    last_maybe_flush_ns: u64,
}

impl ThreadLog {
    pub closed spec fn id(&self) -> u64 {
        self.id
    }

    pub closed spec fn label(&self) -> Option<Seq<char>> {
        maybe(self.label)
    }

    /// How many messages the thread had that could be sampled.
    pub closed spec fn count(&self) -> u64 {
        self.count
    }

    /// When the thread last asked for a flush in passing, zero for never.
    pub closed spec fn last_maybe_flush(&self) -> u64 {
        self.last_maybe_flush_ns
    }

    pub fn new(id: u64) -> (thread: ThreadLog)
        ensures
            thread.id() == id,
            thread.label() is None,
            thread.count() == 0,
            thread.last_maybe_flush() == 0,
    {
        ThreadLog { id, label: None, count: 0, last_maybe_flush_ns: 0 }
    }
}

/// Gives the threads of a process their numbers.
pub struct ThreadIds {
    next: u64,
}

/// The number of the `n`-th thread, counted from zero: one for the first, and
/// one more for each after it, as far as the numbers go round.
pub open spec fn nth_id(n: nat) -> u64 {
    ((1 + n) % 0x1_0000_0000_0000_0000) as u64
}

impl ThreadIds {
    /// The number that is given next.
    pub closed spec fn upcoming(&self) -> u64 {
        self.next
    }

    pub fn new() -> (ids: ThreadIds)
        ensures
            ids.upcoming() == nth_id(0),
    {
        ThreadIds { next: 1 }
    }

    /// The state of a new thread, with a number of its own.
    pub fn enter(&mut self) -> (thread: ThreadLog)
        ensures
            thread.id() == old(self).upcoming(),
            thread.label() is None,
            thread.count() == 0,
            thread.last_maybe_flush() == 0,
            final(self).upcoming() == (if old(self).upcoming() == u64::MAX {
                0
            } else {
                (old(self).upcoming() + 1) as u64
            }),
            forall|n: nat|
                old(self).upcoming() == #[trigger] nth_id(n) ==> final(self).upcoming() == nth_id(
                    n + 1,
                ),
    {
        let thread = ThreadLog::new(self.next);
        self.next = self.next.wrapping_add(1);
        proof {
            assert forall|n: nat| old(self).upcoming() == #[trigger] nth_id(n) implies self.upcoming()
                == nth_id(n + 1) by {
                lemma_next_id(n);
            }
        }
        thread
    }
}

proof fn lemma_next_id(n: nat)
    ensures
        nth_id(n + 1) == (if nth_id(n) == u64::MAX {
            0
        } else {
            (nth_id(n) + 1) as u64
        }),
{
    let all = 0x1_0000_0000_0000_0000int;
    let q = (1 + n) as int / all;
    let r = (1 + n) as int % all;
    if r + 1 < all {
        vstd::arithmetic::div_mod::lemma_fundamental_div_mod_converse(2 + n as int, all, q, r + 1);
    } else {
        vstd::arithmetic::div_mod::lemma_fundamental_div_mod_converse(2 + n as int, all, q + 1, 0);
    }
}

/// The threads' numbers start at one and differ, as long as there are fewer
/// threads than numbers.
pub proof fn law_thread_ids_differ(a: nat, b: nat)
    requires
        a < u64::MAX,
        b < u64::MAX,
    ensures
        nth_id(0) == 1,
        nth_id(a) == 1 + a,
        nth_id(a) == nth_id(b) <==> a == b,
{
}

pub fn set_thread_label(thread: &mut ThreadLog, label: &str)
    ensures
        final(thread).label() == Some(label@),
        final(thread).id() == old(thread).id(),
        final(thread).count() == old(thread).count(),
        final(thread).last_maybe_flush() == old(thread).last_maybe_flush(),
{
    thread.label = Some(label.to_owned());
}

pub fn clear_thread_label(thread: &mut ThreadLog)
    ensures
        final(thread).label() is None,
        final(thread).id() == old(thread).id(),
        final(thread).count() == old(thread).count(),
        final(thread).last_maybe_flush() == old(thread).last_maybe_flush(),
{
    thread.label = None;
}

pub fn thread_id(thread: &ThreadLog) -> (id: u64)
    ensures
        id == thread.id(),
{
    thread.id
}

pub fn thread_label(thread: &ThreadLog) -> (label: Option<String>)
    ensures
        maybe(label) == thread.label(),
{
    copy_label(&thread.label)
}

/// The time since the log was started.
pub fn elapsed_ns(start_ns: u64, now_ns: u64) -> (elapsed: u64)
    ensures
        elapsed == (if now_ns >= start_ns {
            now_ns - start_ns
        } else {
            0
        }),
{
    if now_ns >= start_ns {
        now_ns - start_ns
    } else {
        0
    }
}

/// A task that was registered; it runs until it is cancelled.
#[derive(Clone, Copy, Debug, PartialEq, Eq, Structural)]
pub struct Registration {
    pub id: usize,
}

/// The log.
pub struct Logger {
    queue: SegQueue<u64>,
    waiting: Vec<LogEntry>,
    recent: Vec<LogEntry>,
    buffer: String,
    total: u64,
    flush_request: u64,
    flush_done: u64,
    shutdown_requested: bool,
    shutdown_complete: bool,
    wheel: TimerWheel,
    enabled: Vec<bool>,
    last_flush: u64,
    next_tick: u64,
}

/// The numbers below `n`, in order.
pub open spec fn numbers(n: nat) -> Seq<u64> {
    Seq::new(n, |i: int| i as u64)
}

/// What the writer does about its buffer.
#[derive(Clone, Copy, Debug, PartialEq, Eq, Structural)]
pub struct FlushPlan {
    /// The buffer goes to the file.
    pub write: bool,
    /// The file goes to the disk.
    pub sync: bool,
    /// Somebody waits for a flush, the latest with this number.
    pub pending: bool,
    pub requested: u64,
}

/// What the writer does when there is nothing to do.
#[derive(Clone, Copy, Debug, PartialEq, Eq, Structural)]
pub enum Rest {
    /// There is something to do.
    Work,
    /// Let others run.
    Yield,
    /// Sleep so many nanoseconds, or until woken.
    Sleep(u64),
}

/// How many bytes a text takes.
pub open spec fn byte_len(s: Seq<char>) -> nat
    decreases s.len(),
{
    if s.len() == 0 {
        0
    } else {
        byte_len(s.drop_last()) + char_len(s.last())
    }
}

/// How many bytes a character takes.
pub open spec fn char_len(c: char) -> nat {
    let n = c as u32;
    if n < 0x80 {
        1
    } else if n < 0x800 {
        2
    } else if n < 0x10000 {
        3
    } else {
        4
    }
}

fn bytes_in(text: &str) -> (len: u128)
    ensures
        len == byte_len(text@),
{
    let chars = chars_of(text);
    let mut len: u128 = 0;
    let mut i: usize = 0;
    assert(chars@.take(0) =~= Seq::<char>::empty());
    while i < chars.len()
        invariant
            i <= chars@.len(),
            len == byte_len(chars@.take(i as int)),
            len <= 4 * i,
        decreases chars@.len() - i,
    {
        proof {
            assert(chars@.take(i + 1).drop_last() =~= chars@.take(i as int));
            assert(chars@.take(i + 1).last() == chars@[i as int]);
        }
        let n: u32 = chars[i] as u32;
        if n < 0x80 {
            len = len + 1;
        } else if n < 0x800 {
            len = len + 2;
        } else if n < 0x10000 {
            len = len + 3;
        } else {
            len = len + 4;
        }
        i = i + 1;
    }
    assert(chars@.take(i as int) =~= chars@);
    len
}

/// How long the writer waits with a flush.
pub open spec fn interval(cfg: Config) -> int {
    (if cfg.flush_ms == 0 {
        1
    } else {
        cfg.flush_ms as int
    }) * 1_000_000
}

/// How long a tick is.
pub open spec fn tick_len(cfg: Config) -> int {
    (if cfg.tick_ms == 0 {
        1
    } else {
        cfg.tick_ms as int
    }) * 1_000_000
}

/// A time that has passed between two moments.
pub open spec fn since(from: u64, now: u64) -> int {
    if now >= from {
        now - from
    } else {
        0
    }
}

/// A wheel after some ticks, and what came due.
pub struct Turned {
    pub slots: Seq<Seq<PeriodicTask>>,
    pub cursor: int,
    pub due: Seq<PeriodicTask>,
}

/// A wheel after some ticks, and what came due.
pub open spec fn turned(slots: Seq<Seq<PeriodicTask>>, cursor: int, ticks: nat) -> Turned
    decreases ticks,
{
    if ticks == 0 {
        Turned { slots, cursor, due: Seq::empty() }
    } else {
        let rest = turned(slots, cursor, (ticks - 1) as nat);
        let next = (rest.cursor + 1) % rest.slots.len() as int;
        Turned {
            slots: rest.slots.update(next, later_tasks(rest.slots[next])),
            cursor: next,
            due: rest.due + due_tasks(rest.slots[next]),
        }
    }
}

/// The plan of a writer for its buffer.
pub open spec fn flush_plan(logger: &Logger, cfg: &Config, now: u64) -> FlushPlan {
    let pending = logger.flush_request() > logger.flush_done();
    let late = since(logger.last_flush(), now) >= interval(*cfg);
    let write = logger.buffer().len() > 0 && (byte_len(logger.buffer()) >= cfg.buffer_bytes || late
        || pending);
    FlushPlan {
        write,
        sync: pending || (write && late),
        pending,
        requested: logger.flush_request(),
    }
}

/// When the number of a flush that somebody waits for is reported as done,
/// all that was in the buffer has been written and synced.
pub proof fn law_a_flush_leaves_nothing(logger: &Logger, cfg: &Config, now: u64)
    ensures
        ({
            let plan = flush_plan(logger, cfg, now);
            plan.pending ==> plan.sync && (plan.write || logger.buffer().len() == 0)
        }),
{
}

impl Logger {
    /// The messages that wait for the writer.
    pub closed spec fn waiting(&self) -> Seq<EntryParts> {
        entry_views(self.waiting@)
    }

    /// The latest messages.
    pub closed spec fn recent(&self) -> Seq<EntryParts> {
        entry_views(self.recent@)
    }

    /// What goes to the file next.
    pub closed spec fn buffer(&self) -> Seq<char> {
        self.buffer@
    }

    /// How many messages have come where there is a limit.
    pub closed spec fn total(&self) -> u64 {
        self.total
    }

    pub closed spec fn flush_request(&self) -> u64 {
        self.flush_request
    }

    pub closed spec fn flush_done(&self) -> u64 {
        self.flush_done
    }

    pub closed spec fn shutdown_requested(&self) -> bool {
        self.shutdown_requested
    }

    pub closed spec fn shutdown_complete(&self) -> bool {
        self.shutdown_complete
    }

    pub closed spec fn wheel(&self) -> TimerWheel {
        self.wheel
    }

    /// Which tasks run.
    pub closed spec fn enabled(&self) -> Seq<bool> {
        self.enabled@
    }

    pub closed spec fn last_flush(&self) -> u64 {
        self.last_flush
    }

    pub closed spec fn next_tick(&self) -> u64 {
        self.next_tick
    }

    pub closed spec fn wf(&self) -> bool {
        &&& seg_contents(self.queue) == numbers(self.waiting@.len())
        &&& self.waiting@.len() <= u64::MAX
        &&& self.wheel.wf()
    }

    /// The messages are as they were.
    pub open spec fn same_messages(&self, other: &Logger) -> bool {
        &&& self.waiting() == other.waiting()
        &&& self.recent() == other.recent()
        &&& self.buffer() == other.buffer()
        &&& self.total() == other.total()
    }

    /// What was asked of the writer is as it was.
    pub open spec fn same_requests(&self, other: &Logger) -> bool {
        &&& self.flush_request() == other.flush_request()
        &&& self.shutdown_requested() == other.shutdown_requested()
    }

    /// What the writer has done and has to do is as it was.
    pub open spec fn same_writer(&self, other: &Logger) -> bool {
        &&& self.flush_done() == other.flush_done()
        &&& self.shutdown_complete() == other.shutdown_complete()
        &&& self.wheel() == other.wheel()
        &&& self.enabled() == other.enabled()
        &&& self.last_flush() == other.last_flush()
        &&& self.next_tick() == other.next_tick()
    }

    /// The lines that are not written yet.
    pub fn buffered(&self) -> (text: &str)
        ensures
            text@ == self.buffer(),
    {
        self.buffer.as_str()
    }

    /// The writer takes the messages that wait: their lines go to the buffer,
    /// and they become the latest messages.
    pub fn drain(&mut self, cfg: &Config)
        requires
            old(self).wf(),
        ensures
            final(self).wf(),
            final(self).waiting().len() == 0,
            final(self).buffer() == old(self).buffer() + lines_of(old(self).waiting()),
            final(self).recent() == with_all_recent(
                old(self).recent(),
                old(self).waiting(),
                cfg.ring_max as int,
            ),
            final(self).total() == old(self).total(),
            final(self).flush_request() == old(self).flush_request(),
            final(self).shutdown_requested() == old(self).shutdown_requested(),
            final(self).same_writer(old(self)),
    {
        let ghost all = self.waiting();
        let ghost start = self.buffer();
        let ghost first = self.recent();
        let len: usize = self.waiting.len();
        let mut i: usize = 0;
        proof {
            assert(all.take(0) =~= Seq::<EntryParts>::empty());
            assert(start + Seq::<char>::empty() =~= start);
            assert(numbers(len as nat).skip(0) =~= numbers(len as nat));
        }
        while i < len
            invariant
                i <= len,
                len == self.waiting@.len(),
                len <= u64::MAX,
                self.waiting@ == old(self).waiting@,
                all == entry_views(self.waiting@),
                seg_contents(self.queue) == numbers(len as nat).skip(i as int),
                self.buffer@ == start + lines_of(all.take(i as int)),
                entry_views(self.recent@) == with_all_recent(
                    first,
                    all.take(i as int),
                    cfg.ring_max as int,
                ),
                self.wheel.wf(),
                self.total() == old(self).total(),
                self.flush_request() == old(self).flush_request(),
                self.shutdown_requested() == old(self).shutdown_requested(),
                self.same_writer(old(self)),
            decreases len - i,
        {
            let ghost part = all.take(i as int);
            proof {
                assert(all.take(i + 1).drop_last() =~= part);
                assert(all.take(i + 1).last() == self.waiting@[i as int]@);
                assert(numbers(len as nat).skip(i as int).skip(1) =~= numbers(len as nat).skip(
                    i + 1,
                ));
                assert(numbers(len as nat).skip(i as int)[0] == i as u64);
            }
            if let Some(number) = seg_pop(&mut self.queue) {
                let at: usize = number as usize;
                assert(at == i);
                let entry = self.waiting[at].copy();
                let ghost so_far = self.buffer@;
                write_entry(&entry, &mut self.buffer);
                assert(self.buffer@ =~= start + lines_of(all.take(i + 1)));
                push_recent(&mut self.recent, entry, cfg.ring_max);
            }
            i = i + 1;
        }
        self.waiting = Vec::new();
        proof {
            assert(all.take(len as int) =~= all);
            assert(numbers(len as nat).skip(len as int) =~= numbers(0));
            assert(self.waiting() =~= Seq::<EntryParts>::empty());
        }
    }

    /// The writer catches up with the clock and hands out the tasks that came
    /// due, unless it is shutting down.
    pub fn tick(&mut self, cfg: &Config, now: u64) -> (due: Vec<PeriodicTask>)
        requires
            old(self).wf(),
            now + tick_len(*cfg) <= u64::MAX,
        ensures
            final(self).wf(),
            final(self).waiting() == old(self).waiting(),
            final(self).recent() == old(self).recent(),
            final(self).buffer() == old(self).buffer(),
            final(self).total() == old(self).total(),
            final(self).enabled() == old(self).enabled(),
            final(self).flush_request() == old(self).flush_request(),
            final(self).flush_done() == old(self).flush_done(),
            final(self).shutdown_requested() == old(self).shutdown_requested(),
            final(self).shutdown_complete() == old(self).shutdown_complete(),
            final(self).last_flush() == old(self).last_flush(),
            if old(self).shutdown_requested() {
                due@.len() == 0 && final(self).next_tick() == old(self).next_tick()
                    && final(self).wheel() == old(self).wheel()
            } else {
                exists|ticks: nat|
                    {
                        let end = #[trigger] turned(
                            old(self).wheel().slots(),
                            old(self).wheel().cursor(),
                            ticks,
                        );
                        &&& final(self).next_tick() == old(self).next_tick() + ticks * tick_len(
                            *cfg,
                        )
                        &&& final(self).next_tick() > now
                        &&& ticks > 0 ==> final(self).next_tick() - tick_len(*cfg) <= now
                        &&& final(self).wheel().slots() == end.slots
                        &&& final(self).wheel().cursor() == end.cursor
                        &&& due@ == end.due
                    }
            },
    {
        let mut due: Vec<PeriodicTask> = Vec::new();
        if self.shutdown_requested {
            return due;
        }
        let ms: u64 = if cfg.tick_ms == 0 {
            1
        } else {
            cfg.tick_ms
        };
        let len: u64 = ms * 1_000_000;
        let ghost slots = self.wheel.slots();
        let ghost cursor = self.wheel.cursor();
        let ghost mut ticks: nat = 0;
        assert(ticks * len == 0) by (nonlinear_arith)
            requires
                ticks == 0,
        ;
        while now >= self.next_tick
            invariant
                self.wf(),
                !self.shutdown_requested,
                len == tick_len(*cfg),
                len > 0,
                now + len <= u64::MAX,
                slots == old(self).wheel().slots(),
                cursor == old(self).wheel().cursor(),
                self.next_tick == old(self).next_tick() + ticks * len,
                ticks > 0 ==> self.next_tick - len <= now,
                self.wheel.slots() == turned(slots, cursor, ticks).slots,
                self.wheel.cursor() == turned(slots, cursor, ticks).cursor,
                due@ == turned(slots, cursor, ticks).due,
                self.waiting() == old(self).waiting(),
                self.recent() == old(self).recent(),
                self.buffer() == old(self).buffer(),
                self.total() == old(self).total(),
                self.enabled() == old(self).enabled(),
                self.flush_request() == old(self).flush_request(),
                self.flush_done() == old(self).flush_done(),
                self.shutdown_requested() == old(self).shutdown_requested(),
                self.shutdown_complete() == old(self).shutdown_complete(),
                self.last_flush() == old(self).last_flush(),
            decreases now + len - self.next_tick,
        {
            let ghost so_far = due@;
            let mut more = self.wheel.advance();
            let ghost new = more@;
            due.append(&mut more);
            assert(due@ =~= so_far + new);
            self.next_tick = self.next_tick + len;
            proof {
                assert((ticks + 1) * len == ticks * len + len) by (nonlinear_arith);
                ticks = ticks + 1;
            }
        }
        assert(turned(slots, cursor, ticks).due == due@);
        due
    }

    /// Whether a task still runs.
    pub fn is_enabled(&self, id: usize) -> (runs: bool)
        ensures
            runs == (id < self.enabled().len() && self.enabled()[id as int]),
    {
        id < self.enabled.len() && self.enabled[id]
    }

    /// Puts a task that ran back into the wheel, if it still runs.
    pub fn reschedule(&mut self, task: PeriodicTask)
        requires
            old(self).wf(),
        ensures
            final(self).wf(),
            final(self).same_messages(old(self)),
            final(self).same_requests(old(self)),
            final(self).enabled() == old(self).enabled(),
            final(self).flush_done() == old(self).flush_done(),
            final(self).shutdown_complete() == old(self).shutdown_complete(),
            final(self).last_flush() == old(self).last_flush(),
            final(self).next_tick() == old(self).next_tick(),
            if task.id < old(self).enabled().len() && old(self).enabled()[task.id as int] {
                final(self).wheel().dial() == old(self).wheel().dial().with(task)
            } else {
                final(self).wheel() == old(self).wheel()
            },
    {
        if self.is_enabled(task.id) {
            let _at = self.wheel.insert(task);
        }
    }

    /// A registration ends: its task does not run any more.
    pub fn cancel(&mut self, registration: Registration)
        requires
            old(self).wf(),
        ensures
            final(self).wf(),
            final(self).same_messages(old(self)),
            final(self).same_requests(old(self)),
            final(self).flush_done() == old(self).flush_done(),
            final(self).shutdown_complete() == old(self).shutdown_complete(),
            final(self).wheel() == old(self).wheel(),
            final(self).last_flush() == old(self).last_flush(),
            final(self).next_tick() == old(self).next_tick(),
            final(self).enabled() == (if registration.id < old(self).enabled().len() {
                old(self).enabled().update(registration.id as int, false)
            } else {
                old(self).enabled()
            }),
    {
        if registration.id < self.enabled.len() {
            self.enabled.set(registration.id, false);
        }
    }

    /// What the writer does about its buffer: it is written when it is full,
    /// when it is time, or when somebody waits for it.
    pub fn plan_flush(&self, cfg: &Config, now: u64) -> (plan: FlushPlan)
        ensures
            plan == flush_plan(self, cfg, now),
    {
        let pending = self.flush_request > self.flush_done;
        let ms: u64 = if cfg.flush_ms == 0 {
            1
        } else {
            cfg.flush_ms
        };
        let passed: u64 = elapsed_ns(self.last_flush, now);
        let late = passed as u128 >= ms as u128 * 1_000_000;
        let bytes: u128 = bytes_in(self.buffer.as_str());
        let filled = chars_of(self.buffer.as_str()).len() > 0;
        let write = filled && (bytes >= cfg.buffer_bytes as u128 || late || pending);
        FlushPlan { write, sync: pending || (write && late), pending, requested: self.flush_request }
    }

    /// What was planned has been done.
    pub fn flushed(&mut self, plan: FlushPlan, now: u64)
        requires
            old(self).wf(),
        ensures
            final(self).wf(),
            final(self).waiting() == old(self).waiting(),
            final(self).recent() == old(self).recent(),
            final(self).buffer() == (if plan.write {
                Seq::<char>::empty()
            } else {
                old(self).buffer()
            }),
            final(self).last_flush() == (if plan.write {
                now
            } else {
                old(self).last_flush()
            }),
            final(self).flush_done() == (if plan.pending {
                plan.requested
            } else {
                old(self).flush_done()
            }),
            final(self).total() == old(self).total(),
            final(self).same_requests(old(self)),
            final(self).shutdown_complete() == old(self).shutdown_complete(),
            final(self).wheel() == old(self).wheel(),
            final(self).enabled() == old(self).enabled(),
            final(self).next_tick() == old(self).next_tick(),
    {
        if plan.write {
            self.buffer = "".to_owned();
            proof {
                reveal_strlit("");
            }
            assert(self.buffer@ =~= Seq::<char>::empty());
            self.last_flush = now;
        }
        if plan.pending {
            self.flush_done = plan.requested;
        }
    }

    /// Whether the writer is through: a shutdown was asked for, and nothing is
    /// left.
    pub fn finished(&mut self) -> (done: bool)
        requires
            old(self).wf(),
        ensures
            final(self).wf(),
            done == (old(self).shutdown_requested() && old(self).waiting().len() == 0 && old(
                self,
            ).buffer().len() == 0),
            final(self).shutdown_complete() == (old(self).shutdown_complete() || done),
            final(self).same_messages(old(self)),
            final(self).same_requests(old(self)),
            final(self).flush_done() == old(self).flush_done(),
            final(self).wheel() == old(self).wheel(),
            final(self).enabled() == old(self).enabled(),
            final(self).last_flush() == old(self).last_flush(),
            final(self).next_tick() == old(self).next_tick(),
    {
        assert(self.waiting().len() == self.waiting@.len());
        let done = self.shutdown_requested && seg_is_empty(&self.queue) && chars_of(
            self.buffer.as_str(),
        ).len() == 0;
        if done {
            self.shutdown_complete = true;
        }
        done
    }

    /// How the writer rests: until the next tick, or until the buffer should
    /// go out; not at all while somebody waits for a flush or messages wait.
    pub fn rest(&self, cfg: &Config, pending: bool, now: u64) -> (rest: Rest)
        requires
            self.wf(),
            self.last_flush() + interval(*cfg) <= u64::MAX,
        ensures
            rest == (if pending || self.waiting().len() > 0 {
                Rest::Work
            } else {
                let to_tick = since(now, self.next_tick());
                let to_flush = since(now, (self.last_flush() + interval(*cfg)) as u64);
                let pause = if self.buffer().len() > 0 && to_flush < to_tick {
                    to_flush
                } else {
                    to_tick
                };
                if pause == 0 {
                    Rest::Yield
                } else {
                    Rest::Sleep(pause as u64)
                }
            }),
    {
        assert(self.waiting().len() == self.waiting@.len());
        if pending || !seg_is_empty(&self.queue) {
            return Rest::Work;
        }
        let ms: u64 = if cfg.flush_ms == 0 {
            1
        } else {
            cfg.flush_ms
        };
        let mut pause: u64 = elapsed_ns(now, self.next_tick);
        if chars_of(self.buffer.as_str()).len() > 0 {
            let at: u64 = self.last_flush + ms * 1_000_000;
            let to_flush: u64 = elapsed_ns(now, at);
            if to_flush < pause {
                pause = to_flush;
            }
        }
        if pause == 0 {
            Rest::Yield
        } else {
            Rest::Sleep(pause)
        }
    }

    fn request_flush(&mut self) -> (target: u64)
        requires
            old(self).wf(),
            old(self).flush_request() < u64::MAX,
        ensures
            final(self).wf(),
            target == old(self).flush_request() + 1,
            final(self).flush_request() == target,
            final(self).waiting() == old(self).waiting(),
            final(self).recent() == old(self).recent(),
            final(self).buffer() == old(self).buffer(),
            final(self).total() == old(self).total(),
            final(self).shutdown_requested() == old(self).shutdown_requested(),
            final(self).same_writer(old(self)),
    {
        self.flush_request = self.flush_request + 1;
        self.flush_request
    }

    /// Whether a flush with a number has been done.
    pub fn is_flushed(&self, target: u64) -> (done: bool)
        ensures
            done == (self.flush_done() >= target),
    {
        self.flush_done >= target
    }

    /// Whether the writer has ended.
    pub fn is_shut_down(&self) -> (done: bool)
        ensures
            done == self.shutdown_complete(),
    {
        self.shutdown_complete
    }
}

/// A log without messages.
pub fn init(cfg: &Config, now: u64) -> (logger: Logger)
    requires
        now + tick_len(*cfg) <= u64::MAX,
    ensures
        logger.wf(),
        logger.waiting().len() == 0,
        logger.recent().len() == 0,
        logger.buffer().len() == 0,
        logger.total() == 0,
        logger.flush_request() == 0,
        logger.flush_done() == 0,
        !logger.shutdown_requested(),
        !logger.shutdown_complete(),
        logger.enabled().len() == 0,
        logger.last_flush() == now,
        logger.next_tick() == now + tick_len(*cfg),
        logger.wheel().cursor() == 0,
        logger.wheel().slots().len() == (if cfg.wheel_slots < 2 {
            2
        } else {
            cfg.wheel_slots as int
        }),
{
    let ms: u64 = if cfg.tick_ms == 0 {
        1
    } else {
        cfg.tick_ms
    };
    let logger = Logger {
        queue: seg_new(),
        waiting: Vec::new(),
        recent: Vec::new(),
        buffer: "".to_owned(),
        total: 0,
        flush_request: 0,
        flush_done: 0,
        shutdown_requested: false,
        shutdown_complete: false,
        wheel: TimerWheel::new(cfg.wheel_slots),
        enabled: Vec::new(),
        last_flush: now,
        next_tick: now + ms * 1_000_000,
    };
    proof {
        reveal_strlit("");
        assert(numbers(0) =~= Seq::<u64>::empty());
    }
    logger
}

/// Registers a task that comes up whenever a duration has passed.
pub fn register(logger: &mut Logger, cfg: &Config, duration_ns: u128) -> (registration:
    Registration)
    requires
        old(logger).wf(),
        duration_ns <= 0x4000_0000_0000_0000_0000_0000_0000,
    ensures
        final(logger).wf(),
        final(logger).waiting() == old(logger).waiting(),
        final(logger).recent() == old(logger).recent(),
        final(logger).buffer() == old(logger).buffer(),
        final(logger).total() == old(logger).total(),
        final(logger).flush_request() == old(logger).flush_request(),
        final(logger).flush_done() == old(logger).flush_done(),
        final(logger).shutdown_requested() == old(logger).shutdown_requested(),
        final(logger).shutdown_complete() == old(logger).shutdown_complete(),
        final(logger).last_flush() == old(logger).last_flush(),
        final(logger).next_tick() == old(logger).next_tick(),
        registration.id == old(logger).enabled().len(),
        final(logger).enabled() == old(logger).enabled().push(true),
        final(logger).wheel().dial() == old(logger).wheel().dial().with(
            PeriodicTask {
                ticks: ticks_of(duration_ns, cfg.tick_ms),
                rounds: 0,
                id: registration.id,
            },
        ),
{
    let ticks: usize = ticks_for(duration_ns, cfg.tick_ms);
    let id: usize = logger.enabled.len();
    let task = PeriodicTask { ticks, rounds: 0, id };
    let _at = logger.wheel.insert(task);
    logger.enabled.push(true);
    Registration { id }
}

/// Logs a message, if it is one to keep and the log is not shutting down.
pub fn log_tagged(
    logger: &mut Logger,
    cfg: &Config,
    thread: &mut ThreadLog,
    tag: &'static str,
    message: &str,
    now: u64,
)
    requires
        old(logger).wf(),
        old(logger).waiting().len() < u64::MAX,
    ensures
        final(logger).wf(),
        final(thread).id() == old(thread).id(),
        final(thread).label() == old(thread).label(),
        final(thread).last_maybe_flush() == old(thread).last_maybe_flush(),
        final(thread).count() == (if passes(cfg.tag_filters, tag@) && cfg.sample_rate > 1 {
            next_count(old(thread).count())
        } else {
            old(thread).count()
        }),
        final(logger).waiting() == (if kept(
            *cfg,
            tag@,
            old(thread).count(),
            old(logger).total(),
        ) && !old(logger).shutdown_requested() {
            old(logger).waiting().push(
                EntryParts {
                    ts_ns: now,
                    thread_id: old(thread).id(),
                    thread_label: old(thread).label(),
                    tag: tag@,
                    message: message@,
                },
            )
        } else {
            old(logger).waiting()
        }),
        final(logger).total() == next_total(*cfg, tag@, old(thread).count(), old(logger).total()),
        final(logger).recent() == old(logger).recent(),
        final(logger).buffer() == old(logger).buffer(),
        final(logger).same_requests(old(logger)),
        final(logger).same_writer(old(logger)),
{
    if !should_log(cfg, tag, &mut thread.count, &mut logger.total) {
        return;
    }
    if logger.shutdown_requested {
        return;
    }
    let entry = LogEntry {
        ts_ns: now,
        thread_id: thread.id,
        thread_label: copy_label(&thread.label),
        tag,
        message: message.to_owned(),
    };
    let ghost before = logger.waiting();
    let ghost new = entry@;
    assert(before.len() == logger.waiting@.len());
    let number: u64 = logger.waiting.len() as u64;
    logger.waiting.push(entry);
    seg_push(&mut logger.queue, number);
    assert(logger.waiting() =~= before.push(new));
    assert(seg_contents(logger.queue) =~= numbers(logger.waiting@.len()));
}

/// The latest messages, which are then forgotten.
pub fn take(logger: &mut Logger) -> (entries: Vec<LogEntry>)
    requires
        old(logger).wf(),
    ensures
        final(logger).wf(),
        entry_views(entries@) == old(logger).recent(),
        final(logger).recent().len() == 0,
        final(logger).waiting() == old(logger).waiting(),
        final(logger).buffer() == old(logger).buffer(),
        final(logger).total() == old(logger).total(),
        final(logger).same_requests(old(logger)),
        final(logger).same_writer(old(logger)),
{
    let mut entries: Vec<LogEntry> = Vec::new();
    std::mem::swap(&mut entries, &mut logger.recent);
    entries
}

/// The latest messages.
pub fn snapshot(logger: &Logger) -> (entries: Vec<LogEntry>)
    ensures
        entry_views(entries@) == logger.recent(),
{
    let mut entries: Vec<LogEntry> = Vec::new();
    let mut i: usize = 0;
    while i < logger.recent.len()
        invariant
            i <= logger.recent@.len(),
            entries@.len() == i,
            forall|j: int| 0 <= j < i ==> #[trigger] entries@[j]@ == logger.recent@[j]@,
        decreases logger.recent@.len() - i,
    {
        entries.push(logger.recent[i].copy());
        i = i + 1;
    }
    assert(entry_views(entries@) =~= logger.recent());
    entries
}

/// Asks for a flush; the number of the request says what to wait for. The
/// writer itself must not wait for one.
pub fn flush(logger: &mut Logger, on_writer: bool) -> (target: Option<u64>)
    requires
        old(logger).wf(),
        old(logger).flush_request() < u64::MAX,
    ensures
        final(logger).wf(),
        final(logger).same_messages(old(logger)),
        final(logger).shutdown_requested() == old(logger).shutdown_requested(),
        final(logger).same_writer(old(logger)),
        match target {
            Some(target) => {
                &&& !on_writer
                &&& target == old(logger).flush_request() + 1
                &&& final(logger).flush_request() == target
            },
            None => on_writer && final(logger).flush_request() == old(logger).flush_request(),
        },
{
    if on_writer {
        return None;
    }
    Some(logger.request_flush())
}

/// Asks the writer to write what there is and end; tells whether to wait for
/// it.
pub fn shutdown(logger: &mut Logger, on_writer: bool) -> (wait: bool)
    requires
        old(logger).wf(),
        old(logger).flush_request() < u64::MAX,
    ensures
        final(logger).wf(),
        final(logger).shutdown_requested(),
        wait == !on_writer,
        final(logger).flush_request() == old(logger).flush_request() + (if on_writer {
            0int
        } else {
            1int
        }),
        final(logger).same_messages(old(logger)),
        final(logger).same_writer(old(logger)),
{
    logger.shutdown_requested = true;
    if on_writer {
        return false;
    }
    let _ = logger.request_flush();
    true
}

/// Asks for a flush in passing, if the last time is long enough ago.
pub fn maybe_flush(logger: &mut Logger, cfg: &Config, thread: &mut ThreadLog, now: u64) -> (asked:
    bool)
    requires
        old(logger).wf(),
        old(logger).flush_request() < u64::MAX,
    ensures
        final(logger).wf(),
        final(logger).same_messages(old(logger)),
        final(logger).shutdown_requested() == old(logger).shutdown_requested(),
        final(logger).same_writer(old(logger)),
        final(thread).id() == old(thread).id(),
        final(thread).label() == old(thread).label(),
        final(thread).count() == old(thread).count(),
        ({
            let flush_ns = if cfg.flush_ms * 1_000_000 > u64::MAX {
                u64::MAX as int
            } else {
                cfg.flush_ms * 1_000_000
            };
            asked == (flush_ns > 0 && (old(thread).last_maybe_flush() == 0 || since(
                old(thread).last_maybe_flush(),
                now,
            ) >= flush_ns))
        }),
        final(thread).last_maybe_flush() == (if asked {
            now
        } else {
            old(thread).last_maybe_flush()
        }),
        final(logger).flush_request() == old(logger).flush_request() + (if asked {
            1int
        } else {
            0int
        }),
{
    let flush_ns: u64 = if cfg.flush_ms > u64::MAX / 1_000_000 {
        u64::MAX
    } else {
        cfg.flush_ms * 1_000_000
    };
    if flush_ns == 0 {
        return false;
    }
    let previous: u64 = thread.last_maybe_flush_ns;
    if previous == 0 || elapsed_ns(previous, now) >= flush_ns {
        thread.last_maybe_flush_ns = now;
        let _ = logger.request_flush();
        return true;
    }
    false
}

/// The name of the file for the messages of a thread.
pub open spec fn thread_file(id: u64, label: Option<Seq<char>>) -> Seq<char> {
    match label {
        Some(label) => "ubq-log-"@ + decimal(id as nat) + "-"@ + label_in_name(label) + ".log"@,
        None => "ubq-log-"@ + decimal(id as nat) + ".log"@,
    }
}

/// The file for messages: its name and what is appended to it.
pub fn write_to_dir(entries: &Vec<LogEntry>, thread: &ThreadLog) -> (file: (String, String))
    ensures
        file.0@ == thread_file(thread.id(), thread.label()),
        file.1@ == lines_of(entry_views(entries@)),
{
    let number = decimal_text(thread.id as u128);
    let mut name = "ubq-log-".to_owned();
    name.append(number.as_str());
    if let Some(label) = &thread.label {
        let safe = sanitize_label(label.as_str());
        name.append("-");
        name.append(safe.as_str());
    }
    name.append(".log");
    let ghost all = entry_views(entries@);
    let mut text = "".to_owned();
    proof {
        reveal_strlit("");
        assert(all.take(0) =~= Seq::<EntryParts>::empty());
        assert(text@ =~= Seq::<char>::empty());
    }
    let mut i: usize = 0;
    while i < entries.len()
        invariant
            all == entry_views(entries@),
            i <= entries@.len(),
            text@ == lines_of(all.take(i as int)),
        decreases entries@.len() - i,
    {
        proof {
            assert(all.take(i + 1).drop_last() =~= all.take(i as int));
            assert(all.take(i + 1).last() == entries@[i as int]@);
        }
        write_entry(&entries[i], &mut text);
        i = i + 1;
    }
    assert(all.take(i as int) =~= all);
    (name, text)
}

/// The file for the latest messages, which are then forgotten.
pub fn flush_to_dir(logger: &mut Logger, thread: &ThreadLog) -> (file: (String, String))
    requires
        old(logger).wf(),
    ensures
        final(logger).wf(),
        final(logger).recent().len() == 0,
        final(logger).waiting() == old(logger).waiting(),
        final(logger).buffer() == old(logger).buffer(),
        final(logger).total() == old(logger).total(),
        final(logger).same_requests(old(logger)),
        final(logger).same_writer(old(logger)),
        file.0@ == thread_file(thread.id(), thread.label()),
        file.1@ == lines_of(old(logger).recent()),
{
    let entries = take(logger);
    write_to_dir(&entries, thread)
}

/// A file that an earlier run left behind.
pub open spec fn is_stale(name: Seq<char>, log_name: Seq<char>) -> bool {
    ||| begins(name, "ubq-log-"@)
    ||| name == "stdout.log"@
    ||| name == "stderr.log"@
    ||| name == log_name
}

/// Which files of a directory are removed before a run.
pub fn prepare_log_dir(names: &Vec<String>, log_name: &str) -> (stale: Vec<bool>)
    ensures
        stale@.len() == names@.len(),
        forall|i: int|
            0 <= i < names@.len() ==> #[trigger] stale@[i] == is_stale(names@[i]@, log_name@),
{
    let mut stale: Vec<bool> = Vec::new();
    let mut i: usize = 0;
    while i < names.len()
        invariant
            i <= names@.len(),
            stale@.len() == i,
            forall|j: int|
                0 <= j < i ==> #[trigger] stale@[j] == is_stale(names@[j]@, log_name@),
        decreases names@.len() - i,
    {
        let name = names[i].as_str();
        stale.push(
            starts_with(name, "ubq-log-") || same(name, "stdout.log") || same(name, "stderr.log")
                || same(name, log_name),
        );
        i = i + 1;
    }
    stale
}

/// The lines of messages are those of the first ones and then those of the others:
/// no message is lost, and they stay in their order.
pub proof fn law_lines_stay_in_order(first: Seq<EntryParts>, others: Seq<EntryParts>, one: EntryParts)
    ensures
        lines_of(first + others) == lines_of(first) + lines_of(others),
        lines_of(seq![one]) == line_of(one),
        lines_of(Seq::empty()) == Seq::<char>::empty(),
    decreases others.len(),
{
    assert(seq![one].drop_last() =~= Seq::<EntryParts>::empty());
    assert(lines_of(seq![one].drop_last()) =~= Seq::<char>::empty());
    assert(lines_of(seq![one]) =~= line_of(one));
    if others.len() == 0 {
        assert(first + others =~= first);
        assert(lines_of(first) + lines_of(others) =~= lines_of(first));
    } else {
        law_lines_stay_in_order(first, others.drop_last(), one);
        assert((first + others).drop_last() =~= first + others.drop_last());
        assert((first + others).last() == others.last());
        assert(lines_of(first + others) =~= lines_of(first) + lines_of(others));
    }
}

/// A line says when a message came, from which thread, and what it is: it ends
/// with the tag, the message and the end of the line.
pub proof fn law_a_line_holds_its_message(entry: EntryParts)
    ensures
        ({
            let who = if entry.thread_label is Some {
                entry.thread_label->0
            } else {
                seq!['-']
            };
            let front = seq!['['] + decimal(entry.ts_ns as nat) + "] tid="@ + decimal(
                entry.thread_id as nat,
            ) + seq![' '] + who + seq![' '];
            line_of(entry) == front + entry.tag + seq![' '] + entry.message + seq!['\n']
        }),
{
    reveal_strlit("[");
    reveal_strlit(" ");
    reveal_strlit("-");
    reveal_strlit("\n");
    assert("["@ =~= seq!['[']);
    assert(" "@ =~= seq![' ']);
    assert("-"@ =~= seq!['-']);
    assert("\n"@ =~= seq!['\n']);
}

/// The bytes of a text add up, and a character takes as many as its number needs:
/// one for seven bits, two for eleven, three for sixteen and four for more.
pub proof fn law_bytes_add_up(a: Seq<char>, b: Seq<char>, c: char)
    ensures
        byte_len(a + b) == byte_len(a) + byte_len(b),
        byte_len(seq![c]) == (if c as u32 <= 0x7f {
            1nat
        } else if c as u32 <= 0x7ff {
            2nat
        } else if c as u32 <= 0xffff {
            3nat
        } else {
            4nat
        }),
        byte_len(Seq::empty()) == 0,
    decreases b.len(),
{
    assert(seq![c].drop_last() =~= Seq::<char>::empty());
    assert(byte_len(seq![c].drop_last()) == 0);
    if b.len() == 0 {
        assert(a + b =~= a);
    } else {
        law_bytes_add_up(a, b.drop_last(), c);
        assert((a + b).drop_last() =~= a + b.drop_last());
        assert((a + b).last() == b.last());
    }
}

/// The buffer is written exactly if it holds something and is full, or old
/// enough, or somebody waits for it; and it is synced where somebody waits, or
/// where it was written for its age.
pub proof fn law_when_the_buffer_is_written(logger: &Logger, cfg: &Config, now: u64)
    requires
        cfg.flush_ms > 0,
    ensures
        ({
            let plan = flush_plan(logger, cfg, now);
            let waits = logger.flush_request() > logger.flush_done();
            let old_enough = now - logger.last_flush() >= cfg.flush_ms * 1_000_000;
            let full = byte_len(logger.buffer()) >= cfg.buffer_bytes;
            &&& plan.write <==> logger.buffer().len() > 0 && (full || old_enough || waits)
            &&& plan.sync <==> waits || (plan.write && old_enough)
            &&& plan.pending == waits
            &&& plan.requested == logger.flush_request()
        }),
{
    assert(cfg.flush_ms * 1_000_000 > 0) by (nonlinear_arith)
        requires
            cfg.flush_ms > 0,
    ;
}

/// Some ticks and then others are as many ticks as both: the wheel comes to the
/// same place, and what comes due is what comes due in the one and then in the
/// other.
pub proof fn law_ticks_add_up(slots: Seq<Seq<PeriodicTask>>, cursor: int, a: nat, b: nat)
    ensures
        ({
            let first = turned(slots, cursor, a);
            let second = turned(first.slots, first.cursor, b);
            turned(slots, cursor, a + b) == (Turned { due: first.due + second.due, ..second })
        }),
        turned(slots, cursor, 0) == (Turned { slots, cursor, due: Seq::empty() }),
    decreases b,
{
    let first = turned(slots, cursor, a);
    let second = turned(first.slots, first.cursor, b);
    if b == 0 {
        assert(first.due + second.due =~= first.due);
    } else {
        law_ticks_add_up(slots, cursor, a, (b - 1) as nat);
        let before = turned(first.slots, first.cursor, (b - 1) as nat);
        let next = (before.cursor + 1) % before.slots.len() as int;
        assert(first.due + second.due =~= (first.due + before.due) + due_tasks(before.slots[next]));
        assert((a + b - 1) as nat == a + (b - 1) as nat);
    }
}

/// One tick comes to the next slot, hands out what is due there, and keeps the
/// rest.
pub proof fn law_one_tick(slots: Seq<Seq<PeriodicTask>>, cursor: int)
    requires
        0 <= cursor < slots.len(),
    ensures
        ({
            let next = if cursor + 1 < slots.len() {
                cursor + 1
            } else {
                0
            };
            turned(slots, cursor, 1) == (Turned {
                slots: slots.update(next, later_tasks(slots[next])),
                cursor: next,
                due: due_tasks(slots[next]),
            })
        }),
{
    reveal_with_fuel(turned, 2);
    let n = slots.len() as int;
    if cursor + 1 < n {
        vstd::arithmetic::div_mod::lemma_small_mod((cursor + 1) as nat, n as nat);
    } else {
        vstd::arithmetic::div_mod::lemma_mod_self_0(n);
    }
    let next = (cursor + 1) % n;
    assert(turned(slots, cursor, 1).due =~= due_tasks(slots[next]));
}

/// The file of a thread is one of those that are removed before the next run.
pub proof fn law_thread_files_are_removed(id: u64, label: Option<Seq<char>>, log_name: Seq<char>)
    ensures
        is_stale(thread_file(id, label), log_name),
        is_stale(log_name, log_name),
{
    reveal_strlit("ubq-log-");
    let file = thread_file(id, label);
    assert(file.take(8) =~= "ubq-log-"@);
}

/// Only logs are removed: those of threads, of the two output streams, and the one
/// that is about to be written.
pub proof fn law_other_files_stay(name: Seq<char>, log_name: Seq<char>)
    requires
        !begins(name, "ubq-log-"@),
        name != "stdout.log"@,
        name != "stderr.log"@,
        name != log_name,
    ensures
        !is_stale(name, log_name),
{
}

} // verus!
