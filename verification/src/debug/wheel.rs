//! Tasks that come up again and again.
use vstd::arithmetic::div_mod::{
    lemma_fundamental_div_mod, lemma_fundamental_div_mod_converse, lemma_mod_bound,
};
use vstd::prelude::*;

verus! {

/// A task and when it comes up: how many ticks lie between two times, and how
/// often its slot still passes by before the next.
#[derive(Clone, Copy, Debug, PartialEq, Eq, Structural)]
pub struct PeriodicTask {
    pub ticks: usize,
    pub rounds: usize,
    pub id: usize,
}

/// A wheel of slots; each tick moves on by one.
pub struct TimerWheel {
    slots: Vec<Vec<PeriodicTask>>,
    cursor: usize,
}

/// How many ticks it takes to come to a slot, at least one.
pub open spec fn distance(cursor: int, slot: int, slots: int) -> int {
    if slot > cursor {
        slot - cursor
    } else {
        slot - cursor + slots
    }
}

/// The tasks of a slot that are due when it comes up.
pub open spec fn due_tasks(tasks: Seq<PeriodicTask>) -> Seq<PeriodicTask>
    decreases tasks.len(),
{
    if tasks.len() == 0 {
        Seq::empty()
    } else {
        let rest = due_tasks(tasks.drop_last());
        if tasks.last().rounds == 0 {
            rest.push(tasks.last())
        } else {
            rest
        }
    }
}

/// The tasks of a slot that stay when it comes up, a round nearer.
pub open spec fn later_tasks(tasks: Seq<PeriodicTask>) -> Seq<PeriodicTask>
    decreases tasks.len(),
{
    if tasks.len() == 0 {
        Seq::empty()
    } else {
        let rest = later_tasks(tasks.drop_last());
        if tasks.last().rounds == 0 {
            rest
        } else {
            rest.push(
                PeriodicTask { rounds: (tasks.last().rounds - 1) as usize, ..tasks.last() },
            )
        }
    }
}

/// The ticks of a task, one if it has none.
pub open spec fn period(task: PeriodicTask) -> int {
    if task.ticks == 0 {
        1
    } else {
        task.ticks as int
    }
}

/// A task as it is put into a wheel.
pub open spec fn placed(task: PeriodicTask, slots: int) -> PeriodicTask {
    PeriodicTask { rounds: ((period(task) - 1) / slots) as usize, ..task }
}

/// What a wheel holds: the tasks of each slot, and the slot that came up last.
pub struct Dial {
    pub slots: Seq<Seq<PeriodicTask>>,
    pub cursor: int,
}

impl Dial {
    pub open spec fn wf(self) -> bool {
        &&& 2 <= self.slots.len() <= usize::MAX
        &&& 0 <= self.cursor < self.slots.len()
    }

    /// The slot that comes up after some ticks.
    pub open spec fn slot_in(self, ticks: int) -> int {
        (self.cursor + ticks) % self.slots.len() as int
    }

    /// The dial with a task put in.
    pub open spec fn with(self, task: PeriodicTask) -> Dial {
        let at = self.slot_in(period(task));
        Dial {
            slots: self.slots.update(
                at,
                self.slots[at].push(placed(task, self.slots.len() as int)),
            ),
            ..self
        }
    }

    /// The dial a tick later.
    pub open spec fn moved(self) -> Dial {
        let next = self.slot_in(1);
        Dial { slots: self.slots.update(next, later_tasks(self.slots[next])), cursor: next }
    }

    /// What the `k`-th tick from now hands out.
    pub open spec fn handed_out(self, k: int) -> Seq<PeriodicTask>
        decreases k,
    {
        if k <= 1 {
            due_tasks(self.slots[self.slot_in(1)])
        } else {
            self.moved().handed_out(k - 1)
        }
    }
}

/// The tasks of a slot that wait for `rounds` rounds, in the form in which they
/// are handed out.
pub open spec fn waiting(tasks: Seq<PeriodicTask>, rounds: int) -> Seq<PeriodicTask>
    decreases tasks.len(),
{
    if tasks.len() == 0 {
        Seq::empty()
    } else {
        let rest = waiting(tasks.drop_last(), rounds);
        if tasks.last().rounds == rounds {
            rest.push(PeriodicTask { rounds: 0, ..tasks.last() })
        } else {
            rest
        }
    }
}

proof fn lemma_due(tasks: Seq<PeriodicTask>)
    ensures
        waiting(tasks, 0) == due_tasks(tasks),
    decreases tasks.len(),
{
    if tasks.len() > 0 {
        lemma_due(tasks.drop_last());
    }
}

proof fn lemma_later(tasks: Seq<PeriodicTask>, rounds: int)
    requires
        rounds >= 0,
    ensures
        waiting(later_tasks(tasks), rounds) == waiting(tasks, rounds + 1),
    decreases tasks.len(),
{
    if tasks.len() > 0 {
        lemma_later(tasks.drop_last(), rounds);
        let rest = later_tasks(tasks.drop_last());
        let last = tasks.last();
        if last.rounds > 0 {
            let nearer = PeriodicTask { rounds: (last.rounds - 1) as usize, ..last };
            assert(rest.push(nearer).drop_last() =~= rest);
            assert(later_tasks(tasks) == rest.push(nearer));
        }
    }
}

/// The quotient grows exactly where the remainder starts over.
proof fn lemma_next_quotient(x: int, n: int)
    requires
        0 <= x,
        1 < n,
    ensures
        (x + 1) % n == 0 ==> (x + 1) / n == x / n + 1,
        (x + 1) % n != 0 ==> (x + 1) / n == x / n && (x + 1) % n == x % n + 1,
{
    lemma_fundamental_div_mod(x, n);
    lemma_mod_bound(x, n);
    let q = x / n;
    let r = x % n;
    assert(x == q * n + r) by (nonlinear_arith)
        requires
            x == n * q + r,
    ;
    if r + 1 < n {
        lemma_fundamental_div_mod_converse(x + 1, n, q, r + 1);
    } else {
        assert((q + 1) * n == q * n + n) by (nonlinear_arith);
        lemma_fundamental_div_mod_converse(x + 1, n, q + 1, 0);
    }
}

/// Moving on from a place on a circle by more than a round ends where the rest
/// ends.
proof fn lemma_circle(place: int, x: int, n: int)
    requires
        0 <= place < n,
        0 <= x,
    ensures
        (place + x) % n == (if place + x % n < n {
            place + x % n
        } else {
            place + x % n - n
        }),
{
    lemma_fundamental_div_mod(x, n);
    lemma_mod_bound(x, n);
    let q = x / n;
    let r = x % n;
    assert(x == q * n + r) by (nonlinear_arith)
        requires
            x == n * q + r,
    ;
    if place + r < n {
        lemma_fundamental_div_mod_converse(place + x, n, q, place + r);
    } else {
        assert((q + 1) * n == q * n + n) by (nonlinear_arith);
        lemma_fundamental_div_mod_converse(place + x, n, q + 1, place + r - n);
    }
}

/// A tick and `x` more come to the slot that `x + 1` ticks come to.
proof fn lemma_one_on(place: int, x: int, n: int)
    requires
        1 < n,
    ensures
        0 <= (place + 1) % n < n,
        ((place + 1) % n + x) % n == (place + (x + 1)) % n,
{
    lemma_mod_bound(place + 1, n);
    vstd::arithmetic::div_mod::lemma_add_mod_noop(place + 1, x, n);
    vstd::arithmetic::div_mod::lemma_add_mod_noop((place + 1) % n, x, n);
    vstd::arithmetic::div_mod::lemma_small_mod(((place + 1) % n) as nat, n as nat);
}

/// What a tick hands out: the tasks of the slot that it comes to, those that
/// wait for as many rounds as the ticks before it have made.
pub proof fn law_a_tick_hands_out(dial: Dial, k: int)
    requires
        dial.wf(),
        k >= 1,
    ensures
        dial.handed_out(k) == waiting(
            dial.slots[dial.slot_in(k)],
            (k - 1) / dial.slots.len() as int,
        ),
    decreases k,
{
    let n = dial.slots.len() as int;
    if k == 1 {
        vstd::arithmetic::div_mod::lemma_basic_div(0, n);
        lemma_due(dial.slots[dial.slot_in(1)]);
    } else {
        let next = dial.moved();
        let c = dial.slot_in(1);
        lemma_one_on(dial.cursor, k - 1, n);
        lemma_circle(c, k - 1, n);
        lemma_next_quotient(k - 2, n);
        lemma_mod_bound(k - 1, n);
        assert(next.slot_in(k - 1) == dial.slot_in(k));
        law_a_tick_hands_out(next, k - 1);
        if (k - 1) % n == 0 {
            assert(dial.slot_in(k) == c);
            vstd::arithmetic::div_mod::lemma_div_pos_is_pos(k - 2, n);
            lemma_later(dial.slots[c], (k - 2) / n);
        } else {
            assert(dial.slot_in(k) != c);
        }
    }
}

/// A task comes up after exactly its ticks, after one if it has none, and only
/// then: the tick so many from now hands it out after all that it handed out
/// anyway, and every other tick hands out what it would have without the task.
/// No task that was in the wheel is lost.
pub proof fn law_a_task_comes_up_once(dial: Dial, task: PeriodicTask, k: int)
    requires
        dial.wf(),
        k >= 1,
    ensures
        dial.with(task).handed_out(k) == (if k == period(task) {
            dial.handed_out(k).push(PeriodicTask { rounds: 0, ..task })
        } else {
            dial.handed_out(k)
        }),
{
    let n = dial.slots.len() as int;
    let p = period(task);
    let after = dial.with(task);
    let at = dial.slot_in(p);
    lemma_mod_bound(dial.cursor + p, n);
    lemma_mod_bound(dial.cursor + k, n);
    law_a_tick_hands_out(dial, k);
    law_a_tick_hands_out(after, k);
    let r = (p - 1) / n;
    vstd::arithmetic::div_mod::lemma_div_pos_is_pos(p - 1, n);
    vstd::arithmetic::div_mod::lemma_div_is_ordered_by_denominator(p - 1, 1, n);
    vstd::arithmetic::div_mod::lemma_div_basics(p - 1);
    let put = placed(task, n);
    assert(put.rounds == r);
    let s = dial.slot_in(k);
    if s == at {
        assert(dial.slots[at].push(put).drop_last() =~= dial.slots[at]);
        if k != p && (k - 1) / n == r {
            // Two ticks of one round never come to the same slot.
            let c = dial.slot_in(1);
            lemma_fundamental_div_mod(k - 1, n);
            lemma_fundamental_div_mod(p - 1, n);
            lemma_mod_bound(k - 1, n);
            lemma_mod_bound(p - 1, n);
            lemma_circle(c, k - 1, n);
            lemma_circle(c, p - 1, n);
            lemma_one_on(dial.cursor, k - 1, n);
            lemma_one_on(dial.cursor, p - 1, n);
            assert((k - 1) % n == (p - 1) % n);
            assert(k == p);
        }
    }
}

impl TimerWheel {
    /// The wheel as a dial.
    pub open spec fn dial(&self) -> Dial {
        Dial { slots: self.slots(), cursor: self.cursor() }
    }

    /// The tasks of each slot.
    pub closed spec fn slots(&self) -> Seq<Seq<PeriodicTask>> {
        self.slots@.map_values(|slot: Vec<PeriodicTask>| slot@)
    }

    pub closed spec fn cursor(&self) -> int {
        self.cursor as int
    }

    pub open spec fn wf(&self) -> bool {
        &&& self.slots().len() >= 2
        &&& self.slots().len() <= usize::MAX
        &&& 0 <= self.cursor() < self.slots().len()
    }

    /// After how many ticks a task of a slot is due.
    pub open spec fn due_in(&self, slot: int, task: PeriodicTask) -> int {
        distance(self.cursor(), slot, self.slots().len() as int) + task.rounds * self.slots().len()
    }

    pub fn new(slots: usize) -> (wheel: TimerWheel)
        ensures
            wheel.wf(),
            wheel.slots().len() == (if slots < 2 {
                2
            } else {
                slots as int
            }),
            wheel.cursor() == 0,
            forall|s: int|
                0 <= s < wheel.slots().len() ==> (#[trigger] wheel.slots()[s]).len() == 0,
    {
        let count: usize = if slots < 2 {
            2
        } else {
            slots
        };
        let mut list: Vec<Vec<PeriodicTask>> = Vec::new();
        let mut i: usize = 0;
        while i < count
            invariant
                i <= count,
                list@.len() == i,
                forall|s: int| 0 <= s < i ==> (#[trigger] list@[s])@.len() == 0,
            decreases count - i,
        {
            list.push(Vec::new());
            i = i + 1;
        }
        let wheel = TimerWheel { slots: list, cursor: 0 };
        assert forall|s: int| 0 <= s < wheel.slots().len() implies (
        #[trigger] wheel.slots()[s]).len() == 0 by {
            assert(wheel.slots()[s] == list@[s]@);
        }
        wheel
    }

    /// Puts a task in, so that it is due after its ticks, after one if it has
    /// none.
    pub fn insert(&mut self, task: PeriodicTask) -> (at: usize)
        requires
            old(self).wf(),
        ensures
            final(self).wf(),
            final(self).cursor() == old(self).cursor(),
            at < old(self).slots().len(),
            final(self).dial() == old(self).dial().with(task),
            final(self).slots() == old(self).slots().update(
                at as int,
                old(self).slots()[at as int].push(placed(task, old(self).slots().len() as int)),
            ),
            final(self).due_in(at as int, placed(task, old(self).slots().len() as int))
                == period(task),
    {
        let ghost before = self.slots();
        let ticks: usize = if task.ticks == 0 {
            1
        } else {
            task.ticks
        };
        let count: usize = self.slots.len();
        assert(count == self.slots().len());
        let offset: usize = ticks % count;
        let rounds: usize = (ticks - 1) / count;
        let ghost n = count as int;
        proof {
            lemma_mod_bound(ticks as int, n);
        }
        let slot: usize = if offset < count - self.cursor {
            self.cursor + offset
        } else {
            offset - (count - self.cursor)
        };
        let placed = PeriodicTask { rounds, ..task };
        assert(placed == self::placed(task, n));
        self.slots[slot].push(placed);
        proof {
            assert(before[slot as int] == old(self).slots@[slot as int]@);
            assert(self.slots() =~= before.update(slot as int, before[slot as int].push(placed)));
            let q = ticks as int / n;
            let r = ticks as int % n;
            lemma_fundamental_div_mod(ticks as int, n);
            assert(n * q == q * n) by (nonlinear_arith);
            assert(ticks == q * n + r);
            if r > 0 {
                lemma_fundamental_div_mod_converse(
                    ticks - 1,
                    n,
                    q,
                    r - 1,
                );
                assert(rounds == q);
                assert(distance(self.cursor(), slot as int, n) == r);
            } else {
                assert((q - 1) * n == q * n - n) by (nonlinear_arith);
                assert(q >= 1) by (nonlinear_arith)
                    requires
                        q * n >= 1,
                        n > 0,
                ;
                lemma_fundamental_div_mod_converse(
                    ticks - 1,
                    n,
                    q - 1,
                    n - 1,
                );
                assert(rounds == q - 1);
                assert(distance(self.cursor(), slot as int, n) == n);
            }
            assert(self.due_in(slot as int, placed) == ticks);
            lemma_circle(old(self).cursor as int, ticks as int, n);
            assert(slot == old(self).dial().slot_in(ticks as int));
        }
        slot
    }

    /// Moves on by a tick and hands out what is due.
    pub fn advance(&mut self) -> (due: Vec<PeriodicTask>)
        requires
            old(self).wf(),
        ensures
            final(self).wf(),
            final(self).dial() == old(self).dial().moved(),
            due@ == old(self).dial().handed_out(1),
            final(self).cursor() == (old(self).cursor() + 1) % old(self).slots().len() as int,
            due@ == due_tasks(old(self).slots()[final(self).cursor()]),
            final(self).slots() == old(self).slots().update(
                final(self).cursor(),
                later_tasks(old(self).slots()[final(self).cursor()]),
            ),
    {
        let ghost before = self.slots();
        let count: usize = self.slots.len();
        assert(count == before.len());
        let next: usize = if self.cursor + 1 < count {
            self.cursor + 1
        } else {
            0
        };
        proof {
            if next > 0 {
                vstd::arithmetic::div_mod::lemma_small_mod(next as nat, count as nat);
            } else {
                assert(self.cursor + 1 == count);
                vstd::arithmetic::div_mod::lemma_mod_self_0(count as int);
            }
        }
        self.cursor = next;
        let mut due: Vec<PeriodicTask> = Vec::new();
        let mut later: Vec<PeriodicTask> = Vec::new();
        let ghost tasks = before[next as int];
        assert(tasks == self.slots@[next as int]@);
        let mut i: usize = 0;
        assert(tasks.take(0) =~= Seq::<PeriodicTask>::empty());
        while i < self.slots[next].len()
            invariant
                self.slots@ == old(self).slots@,
                self.cursor == next,
                next < self.slots@.len(),
                tasks == self.slots@[next as int]@,
                i <= tasks.len(),
                due@ == due_tasks(tasks.take(i as int)),
                later@ == later_tasks(tasks.take(i as int)),
            decreases tasks.len() - i,
        {
            let task = self.slots[next][i];
            proof {
                assert(tasks.take(i + 1).drop_last() =~= tasks.take(i as int));
                assert(tasks.take(i + 1).last() == task);
            }
            if task.rounds == 0 {
                due.push(task);
            } else {
                later.push(PeriodicTask { rounds: task.rounds - 1, ..task });
            }
            i = i + 1;
        }
        assert(tasks.take(i as int) =~= tasks);
        self.slots[next] = later;
        assert(self.slots() =~= before.update(next as int, later_tasks(tasks)));
        due
    }
}

/// A tick brings every task one tick nearer, and what is handed out was due in
/// one: a task comes up after exactly its ticks.
pub proof fn law_tick_counts_down(before: &TimerWheel, after: &TimerWheel, slot: int, task: PeriodicTask)
    requires
        before.wf(),
        after.cursor() == (before.cursor() + 1) % before.slots().len() as int,
        after.slots().len() == before.slots().len(),
        0 <= slot < before.slots().len(),
    ensures
        slot != after.cursor() ==> after.due_in(slot, task) == before.due_in(slot, task) - 1,
        slot == after.cursor() && task.rounds > 0 ==> after.due_in(
            slot,
            PeriodicTask { rounds: (task.rounds - 1) as usize, ..task },
        ) == before.due_in(slot, task) - 1,
        slot == after.cursor() && task.rounds == 0 ==> before.due_in(slot, task) == 1,
{
    let n = before.slots().len() as int;
    let c = before.cursor();
    if c + 1 < n {
        vstd::arithmetic::div_mod::lemma_small_mod((c + 1) as nat, n as nat);
    } else {
        vstd::arithmetic::div_mod::lemma_mod_self_0(n);
    }
    let r = task.rounds as int;
    assert((r - 1) * n == r * n - n) by (nonlinear_arith);
    assert(0 * n == 0) by (nonlinear_arith);
}

/// The ticks for a duration: so many that they cover it, at least one.
pub open spec fn ticks_of(duration_ns: u128, tick_ms: u64) -> usize {
    let tick_ns = if tick_ms == 0 {
        1_000_000
    } else {
        tick_ms * 1_000_000
    };
    let whole = (duration_ns + tick_ns - 1) / tick_ns;
    if whole <= 0 {
        1
    } else {
        whole as u128 as usize
    }
}

pub fn ticks_for(duration_ns: u128, tick_ms: u64) -> (ticks: usize)
    requires
        duration_ns <= 0x4000_0000_0000_0000_0000_0000_0000,
    ensures
        ticks == ticks_of(duration_ns, tick_ms),
{
    let ms: u64 = if tick_ms == 0 {
        1
    } else {
        tick_ms
    };
    let tick_ns: u128 = ms as u128 * 1_000_000;
    let whole: u128 = (duration_ns + tick_ns - 1) / tick_ns;
    if whole == 0 {
        1
    } else {
        whole as usize
    }
}

/// When a slot comes up, the tasks that wait for no round are handed out and the
/// others stay, a round nearer, both in their order.
pub proof fn law_a_slot_that_comes_up(tasks: Seq<PeriodicTask>)
    ensures
        due_tasks(tasks) == tasks.filter(|task: PeriodicTask| task.rounds == 0),
        later_tasks(tasks) == tasks.filter(|task: PeriodicTask| task.rounds != 0).map_values(
            |task: PeriodicTask| PeriodicTask { rounds: (task.rounds - 1) as usize, ..task },
        ),
    decreases tasks.len(),
{
    reveal(Seq::filter);
    if tasks.len() > 0 {
        law_a_slot_that_comes_up(tasks.drop_last());
    }
    assert(later_tasks(tasks) =~= tasks.filter(
        |task: PeriodicTask| task.rounds != 0,
    ).map_values(
        |task: PeriodicTask| PeriodicTask { rounds: (task.rounds - 1) as usize, ..task },
    ));
}

} // verus!
