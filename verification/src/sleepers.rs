//! Callers that sleep while a queue is empty, and the pushes that wake them,
//! in any order of their steps.
//!
//! A look at the queue that leads to sleep and a push are made under one lock;
//! everything else is not.
use vstd::prelude::*;

use crate::tally::{lemma_sum_covers, lemma_sum_is_natural, lemma_sum_update, sum};

verus! {

/// Where a caller of a pop that waits stands.
#[derive(Clone, Copy, Debug, PartialEq, Eq, Structural)]
pub enum Stage {
    /// About to take a value.
    Trying,
    /// Found nothing, and is about to look again, under the lock.
    Looking,
    /// Asleep, without the lock.
    Asleep,
    /// Has a value.
    Served,
}

/// A caller of a pop that waits.
#[derive(Clone, Copy, Debug, PartialEq, Eq, Structural)]
pub struct Sleeper {
    pub stage: Stage,
}

impl Sleeper {
    /// The caller is neither asleep nor served.
    pub open spec fn is_awake(self) -> bool {
        self.stage == Stage::Trying || self.stage == Stage::Looking
    }

    pub fn new() -> (sleeper: Sleeper)
        ensures
            sleeper.stage == Stage::Trying,
    {
        Sleeper { stage: Stage::Trying }
    }

    /// Takes note of whether there was a value to take.
    pub fn tried(&mut self, found: bool)
        requires
            old(self).stage == Stage::Trying,
        ensures
            final(self).stage == (if found {
                Stage::Served
            } else {
                Stage::Looking
            }),
    {
        self.stage = if found {
            Stage::Served
        } else {
            Stage::Looking
        };
    }

    /// Takes note of what a look under the lock showed: the caller sleeps only
    /// beside an empty queue.
    pub fn looked(&mut self, empty: bool)
        requires
            old(self).stage == Stage::Looking,
        ensures
            final(self).stage == (if empty {
                Stage::Asleep
            } else {
                Stage::Trying
            }),
    {
        self.stage = if empty {
            Stage::Asleep
        } else {
            Stage::Trying
        };
    }

    /// Wakes up, for a push or for no reason.
    pub fn woken(&mut self)
        requires
            old(self).stage == Stage::Asleep,
        ensures
            final(self).stage == Stage::Looking,
    {
        self.stage = Stage::Looking;
    }
}

/// The callers, the values that wait, and the pushes that have not woken
/// anybody yet.
#[verifier::ext_equal]
pub struct Dormitory {
    pub waiting: nat,
    pub untold: nat,
    pub sleepers: Seq<Sleeper>,
}

impl Dormitory {
    /// How many callers are awake.
    pub open spec fn awake(self) -> int {
        sum(
            self.sleepers.map_values(
                |sleeper: Sleeper|
                    if sleeper.is_awake() {
                        1int
                    } else {
                        0int
                    },
            ),
        )
    }

    /// Caller `t` is asleep.
    pub open spec fn sleeps(self, t: int) -> bool {
        0 <= t < self.sleepers.len() && self.sleepers[t].stage == Stage::Asleep
    }

    /// There is enough to come for the values that wait beside somebody asleep:
    /// a caller that is awake, or a push that will wake one.
    pub open spec fn is_attended(self) -> bool {
        (exists|t: int| self.sleeps(t)) ==> self.waiting <= self.awake() + self.untold
    }

    /// Caller `t` makes a step.
    pub open spec fn moves(self, t: int, after: Dormitory) -> bool {
        let stage = self.sleepers[t].stage;
        &&& 0 <= t < self.sleepers.len()
        &&& after.untold == self.untold
        &&& match stage {
            Stage::Trying => if self.waiting > 0 {
                &&& after.waiting == self.waiting - 1
                &&& after.sleepers == self.sleepers.update(t, Sleeper { stage: Stage::Served })
            } else {
                &&& after.waiting == self.waiting
                &&& after.sleepers == self.sleepers.update(t, Sleeper { stage: Stage::Looking })
            },
            Stage::Looking => {
                &&& after.waiting == self.waiting
                &&& after.sleepers == self.sleepers.update(
                    t,
                    Sleeper {
                        stage: if self.waiting == 0 {
                            Stage::Asleep
                        } else {
                            Stage::Trying
                        },
                    },
                )
            },
            Stage::Asleep => {
                &&& after.waiting == self.waiting
                &&& after.sleepers == self.sleepers.update(t, Sleeper { stage: Stage::Looking })
            },
            Stage::Served => after == self,
        }
    }

    /// Somebody begins to wait for a value.
    pub open spec fn joins(self, after: Dormitory) -> bool {
        after == (Dormitory {
            sleepers: self.sleepers.push(Sleeper { stage: Stage::Trying }),
            ..self
        })
    }

    /// Somebody who does not wait takes a value.
    pub open spec fn loses(self, after: Dormitory) -> bool {
        self.waiting > 0 && after == (Dormitory { waiting: (self.waiting - 1) as nat, ..self })
    }

    /// A value is pushed. The push has yet to wake a caller.
    pub open spec fn gains(self, after: Dormitory) -> bool {
        after == (Dormitory { waiting: self.waiting + 1, untold: self.untold + 1, ..self })
    }

    /// A push wakes one caller, if one is asleep.
    pub open spec fn tells(self, after: Dormitory) -> bool {
        &&& self.untold > 0
        &&& after.untold == self.untold - 1
        &&& after.waiting == self.waiting
        &&& {
            ||| after.sleepers == self.sleepers && forall|t: int| !self.sleeps(t)
            ||| exists|t: int| #[trigger]
                self.sleeps(t) && after.sleepers == self.sleepers.update(
                    t,
                    Sleeper { stage: Stage::Looking },
                )
        }
    }

    /// Any of these steps.
    pub open spec fn goes_on(self, after: Dormitory) -> bool {
        ||| exists|t: int| self.moves(t, after)
        ||| self.joins(after)
        ||| self.loses(after)
        ||| self.gains(after)
        ||| self.tells(after)
    }
}

spec fn presence(sleeper: Sleeper) -> int {
    if sleeper.is_awake() {
        1
    } else {
        0
    }
}

spec fn presences(sleepers: Seq<Sleeper>) -> Seq<int> {
    sleepers.map_values(|sleeper: Sleeper| presence(sleeper))
}

proof fn lemma_awake(house: Dormitory)
    ensures
        house.awake() == sum(presences(house.sleepers)),
        house.awake() >= 0,
{
    assert(house.sleepers.map_values(
        |sleeper: Sleeper|
            if sleeper.is_awake() {
                1int
            } else {
                0int
            },
    ) =~= presences(house.sleepers));
    lemma_sum_is_natural(presences(house.sleepers));
}

/// One caller in another stage changes the number of those awake.
proof fn lemma_change(before: Dormitory, after: Dormitory, t: int, sleeper: Sleeper)
    requires
        0 <= t < before.sleepers.len(),
        after.sleepers == before.sleepers.update(t, sleeper),
    ensures
        after.awake() == before.awake() - presence(before.sleepers[t]) + presence(sleeper),
        before.awake() >= presence(before.sleepers[t]),
        after.awake() >= 0,
        forall|s: int| s != t && #[trigger] after.sleeps(s) ==> before.sleeps(s),
{
    lemma_awake(before);
    lemma_awake(after);
    let list = presences(before.sleepers);
    lemma_sum_update(list, t, presence(sleeper));
    lemma_sum_covers(list, t);
    assert(presences(after.sleepers) =~= list.update(t, presence(sleeper)));
}

/// No step leaves a value unattended beside somebody asleep.
pub proof fn law_nobody_sleeps_beside_an_unattended_value(before: Dormitory, after: Dormitory)
    requires
        before.is_attended(),
        before.goes_on(after),
    ensures
        after.is_attended(),
{
    lemma_awake(before);
    lemma_awake(after);
    if exists|t: int| before.moves(t, after) {
        let t = choose|t: int| before.moves(t, after);
        if before.sleepers[t].stage != Stage::Served {
            lemma_change(before, after, t, after.sleepers[t]);
            if exists|s: int| after.sleeps(s) {
                let s = choose|s: int| after.sleeps(s);
                if s != t {
                    assert(before.sleeps(s));
                }
            }
            if before.sleepers[t].stage == Stage::Asleep {
                assert(before.sleeps(t));
            }
        }
    } else if before.joins(after) {
        assert(presences(after.sleepers).drop_last() =~= presences(before.sleepers));
        if exists|s: int| after.sleeps(s) {
            let s = choose|s: int| after.sleeps(s);
            assert(before.sleeps(s));
        }
    } else if before.tells(after) {
        if after.sleepers != before.sleepers {
            let t = choose|t: int| #[trigger]
                before.sleeps(t) && after.sleepers == before.sleepers.update(
                    t,
                    Sleeper { stage: Stage::Looking },
                );
            lemma_change(before, after, t, Sleeper { stage: Stage::Looking });
        } else if exists|s: int| after.sleeps(s) {
            let s = choose|s: int| after.sleeps(s);
            assert(before.sleeps(s));
        }
    } else {
        if exists|s: int| after.sleeps(s) {
            let s = choose|s: int| after.sleeps(s);
            assert(before.sleeps(s));
        }
    }
}

/// Where every push has woken its caller and nobody is awake, a caller sleeps
/// only beside an empty queue.
pub proof fn law_sleep_means_empty(house: Dormitory, t: int)
    requires
        house.is_attended(),
        house.sleeps(t),
        house.untold == 0,
        forall|s: int|
            0 <= s < house.sleepers.len() ==> !(#[trigger] house.sleepers[s]).is_awake(),
    ensures
        house.waiting == 0,
{
    lemma_awake(house);
    crate::tally::lemma_sum_of_zeros(presences(house.sleepers));
}

} // verus!
