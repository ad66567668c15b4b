//! What the submitter, the kernel and the completer each do next.
//!
//! Each of them moves the numbers from zero on in groups: it draws the size of
//! a group, and moves that many before it draws again. A ring takes or gives
//! only a part at a time, so that a group may need several steps.
use vstd::prelude::*;

use crate::bench::uring::{
    check_completions, consecutive, ring_refusal, role_seed, seed_for, BatchMode, IoUringQueue,
    XorShift64,
};
use crate::text::decimal;

verus! {

/// The groups of one of the three.
pub struct Groups {
    mode: BatchMode,
    rng: XorShift64,
    requests: u64,
    before: u64,
    size: usize,
    moved: usize,
}

/// The contents of `Groups`: how many numbers there are, how many came before
/// the present group, how large that is, and how many of it have moved.
pub struct GroupState {
    pub mode: BatchMode,
    pub rng: u64,
    pub requests: int,
    pub before: int,
    pub size: int,
    pub moved: int,
}

impl GroupState {
    pub open spec fn wf(self) -> bool {
        &&& 0 <= self.moved <= self.size
        &&& 0 <= self.before
        &&& self.before + self.size <= self.requests <= u64::MAX
        &&& self.size <= usize::MAX
    }

    /// How many numbers have moved.
    pub open spec fn total(self) -> int {
        self.before + self.moved
    }

    /// The next group is due.
    pub open spec fn between(self) -> bool {
        self.moved == self.size && self.total() < self.requests
    }

    /// The state with the next group drawn, if it is due.
    pub open spec fn drawn(self) -> GroupState {
        if self.between() {
            let left = self.requests - self.total();
            GroupState {
                rng: self.mode.state_after(self.rng),
                before: self.total(),
                size: if self.mode.group(self.rng) < left {
                    self.mode.group(self.rng)
                } else {
                    left
                },
                moved: 0,
                ..self
            }
        } else {
            self
        }
    }

    /// How many of the group are left.
    pub open spec fn left(self) -> int {
        self.size - self.moved
    }

    /// The state with some more moved.
    pub open spec fn plus(self, count: int) -> GroupState {
        GroupState { moved: self.moved + count, ..self }
    }
}

/// The state before the first group. A seed of zero counts as one.
pub open spec fn fresh(mode: BatchMode, seed: u64, requests: int) -> GroupState {
    GroupState {
        mode,
        rng: if seed == 0 {
            1
        } else {
            seed
        },
        requests,
        before: 0,
        size: 0,
        moved: 0,
    }
}

impl View for Groups {
    type V = GroupState;

    closed spec fn view(&self) -> GroupState {
        GroupState {
            mode: self.mode,
            rng: self.rng.state(),
            requests: self.requests as int,
            before: self.before as int,
            size: self.size as int,
            moved: self.moved as int,
        }
    }
}

impl Groups {
    pub fn new(mode: BatchMode, seed: u64, requests: u64) -> (groups: Groups)
        ensures
            groups@.wf(),
            groups@ == fresh(mode, seed, requests as int),
    {
        Groups { mode, rng: XorShift64::new(seed), requests, before: 0, size: 0, moved: 0 }
    }

    /// How many numbers have moved.
    pub fn total(&self) -> (total: u64)
        requires
            self@.wf(),
        ensures
            total == self@.total(),
    {
        self.before + self.moved as u64
    }

    /// How many numbers to move next, nothing once all have moved.
    pub fn ask(&mut self) -> (left: Option<usize>)
        requires
            old(self)@.wf(),
        ensures
            final(self)@.wf(),
            final(self)@ == old(self)@.drawn(),
            match left {
                Some(left) => left == final(self)@.left() && left > 0,
                None => final(self)@.total() == final(self)@.requests,
            },
    {
        if self.moved == self.size {
            let total: u64 = self.total();
            if total == self.requests {
                return None;
            }
            self.size = self.mode.next_of(&mut self.rng, self.requests, total);
            self.before = total;
            self.moved = 0;
        }
        Some(self.size - self.moved)
    }

    /// So many have moved. Says whether it was none, and one had better wait.
    pub fn advance(&mut self, count: usize) -> (wait: bool)
        requires
            old(self)@.wf(),
            count <= old(self)@.left(),
        ensures
            final(self)@.wf(),
            final(self)@ == old(self)@.plus(count as int),
            wait == (count == 0),
    {
        self.moved = self.moved + count;
        count == 0
    }
}

/// Drawing a group moves nothing. There is always something to move until all
/// numbers have moved, and never more than that.
pub proof fn law_groups_cover_the_requests(state: GroupState)
    requires
        state.wf(),
    ensures
        state.drawn().wf(),
        state.drawn().total() == state.total(),
        state.drawn().left() == 0 <==> state.total() == state.requests,
        state.total() + state.drawn().left() <= state.requests,
{
}

/// The completer: takes completions and checks their numbers.
pub struct Completer {
    pub groups: Groups,
}

impl Completer {
    /// These completions have come. Says whether there were none, or what is
    /// wrong with the first that has another number than it should.
    pub fn took(&mut self, values: &Vec<u64>) -> (result: Result<bool, String>)
        requires
            old(self).groups@.wf(),
            values@.len() <= old(self).groups@.left(),
        ensures
            final(self).groups@.wf(),
            match result {
                Ok(wait) => {
                    &&& values@ == consecutive(old(self).groups@.total(), values@.len())
                    &&& final(self).groups@ == old(self).groups@.plus(values@.len() as int)
                    &&& wait == (values@.len() == 0)
                },
                Err(message) => {
                    &&& final(self).groups@ == old(self).groups@
                    &&& exists|i: int|
                        {
                            &&& 0 <= i < values@.len()
                            &&& #[trigger] values@[i] != old(self).groups@.total() + i
                            &&& forall|j: int|
                                0 <= j < i ==> #[trigger] values@[j] == old(self).groups@.total()
                                    + j
                            &&& message@ == "completion order mismatch: expected "@ + decimal(
                                (old(self).groups@.total() + i) as nat,
                            ) + ", got "@ + decimal(values@[i] as nat)
                        }
                },
            },
    {
        match check_completions(values, self.groups.total()) {
            Ok(_) => Ok(self.groups.advance(values.len())),
            Err(message) => Err(message),
        }
    }
}

/// What the kernel does next.
#[derive(Clone, Copy, Debug, PartialEq, Eq, Structural)]
pub enum KernelAction {
    /// Take at most so many requests.
    Take(usize),
    /// Pass on what it holds, from this place on.
    Pass(usize),
    /// All is done.
    Stop,
}

/// The kernel: takes a whole group of requests, then passes it on.
pub struct Kernel {
    groups: Groups,
    held: Vec<u64>,
    passed: usize,
    taken: Ghost<Seq<u64>>,
}

impl Kernel {
    pub closed spec fn groups(&self) -> GroupState {
        self.groups@
    }

    /// All that was taken so far.
    pub closed spec fn taken(&self) -> Seq<u64> {
        self.taken@
    }

    /// How many of all that was taken were passed on.
    pub closed spec fn passed(&self) -> int {
        self.taken@.len() - self.held@.len() + self.passed
    }

    /// The present group, as far as it was taken.
    pub closed spec fn held(&self) -> Seq<u64> {
        self.held@
    }

    /// The kernel holds the end of what it took, and passes a group on only
    /// when it is complete.
    pub closed spec fn wf(&self) -> bool {
        &&& self.groups@.wf()
        &&& self.taken@.len() == self.groups@.total()
        &&& self.held@.len() == self.groups@.moved
        &&& self.held@ == self.taken@.skip(self.taken@.len() - self.held@.len())
        &&& self.passed <= self.held@.len()
        &&& self.passed > 0 ==> self.groups@.moved == self.groups@.size
    }

    pub fn new(mode: BatchMode, seed: u64, requests: u64) -> (kernel: Kernel)
        ensures
            kernel.wf(),
            kernel.taken() == Seq::<u64>::empty(),
            kernel.passed() == 0,
            kernel.groups() == fresh(mode, seed, requests as int),
    {
        let kernel = Kernel {
            groups: Groups::new(mode, seed, requests),
            held: Vec::new(),
            passed: 0,
            taken: Ghost(Seq::empty()),
        };
        assert(kernel.held@ =~= kernel.taken@.skip(0));
        kernel
    }

    /// What to do next. A group that was taken whole is passed on before the
    /// next is drawn.
    pub fn next(&mut self) -> (action: KernelAction)
        requires
            old(self).wf(),
        ensures
            final(self).wf(),
            final(self).taken() == old(self).taken(),
            final(self).passed() == old(self).passed(),
            match action {
                KernelAction::Take(most) => {
                    &&& final(self).groups() == (if old(self).passed() == old(self).taken().len() {
                        old(self).groups().drawn()
                    } else {
                        old(self).groups()
                    })
                    &&& most == final(self).groups().left()
                    &&& most > 0
                },
                KernelAction::Pass(place) => {
                    &&& *final(self) == *old(self)
                    &&& place < old(self).held().len()
                    &&& old(self).groups().left() == 0
                    &&& old(self).passed() < old(self).taken().len()
                    &&& old(self).held().skip(place as int) == old(self).taken().skip(
                        old(self).passed(),
                    )
                },
                KernelAction::Stop => {
                    &&& final(self).groups() == old(self).groups()
                    &&& old(self).passed() == old(self).taken().len()
                    &&& old(self).taken().len() == old(self).groups().requests
                },
            },
    {
        let whole = self.groups.moved == self.groups.size;
        if whole && self.passed < self.held.len() {
            let place: usize = self.passed;
            assert(self.held@.skip(place as int) =~= self.taken@.skip(self.passed()));
            return KernelAction::Pass(place);
        }
        if whole {
            match self.groups.ask() {
                Some(most) => {
                    self.held = Vec::new();
                    self.passed = 0;
                    assert(self.held@ =~= self.taken@.skip(self.taken@.len() as int));
                    KernelAction::Take(most)
                },
                None => KernelAction::Stop,
            }
        } else {
            KernelAction::Take(self.groups.size - self.groups.moved)
        }
    }

    /// What the kernel holds of the present group.
    pub fn holds(&self) -> (held: &Vec<u64>)
        ensures
            held@ == self.held(),
    {
        &self.held
    }

    /// These requests were taken. Says whether there were none.
    pub fn took(&mut self, values: Vec<u64>) -> (wait: bool)
        requires
            old(self).wf(),
            values@.len() <= old(self).groups().left(),
        ensures
            final(self).wf(),
            final(self).groups() == old(self).groups().plus(values@.len() as int),
            final(self).taken() == old(self).taken() + values@,
            final(self).passed() == old(self).passed(),
            wait == (values@.len() == 0),
    {
        let count: usize = values.len();
        let mut i: usize = 0;
        let ghost before = self.held@;
        assert(before + values@.take(0) =~= before);
        while i < count
            invariant
                count == values@.len(),
                i <= count,
                self.held@ == before + values@.take(i as int),
                self.groups == old(self).groups,
                self.passed == old(self).passed,
                self.taken == old(self).taken,
            decreases count - i,
        {
            self.held.push(values[i]);
            assert(before + values@.take(i + 1) =~= (before + values@.take(i as int)).push(
                values@[i as int],
            ));
            i = i + 1;
        }
        self.taken = Ghost(self.taken@ + values@);
        let wait = self.groups.advance(count);
        proof {
            assert(values@.take(count as int) =~= values@);
            assert(self.held@ =~= self.taken@.skip(self.taken@.len() - self.held@.len()));
        }
        wait
    }

    /// So many of what it holds were passed on. Says whether it was none.
    pub fn passed_on(&mut self, count: usize) -> (wait: bool)
        requires
            old(self).wf(),
            old(self).groups().left() == 0,
            old(self).passed() + count <= old(self).taken().len(),
        ensures
            final(self).wf(),
            final(self).groups() == old(self).groups(),
            final(self).taken() == old(self).taken(),
            final(self).passed() == old(self).passed() + count,
            wait == (count == 0),
    {
        self.passed = self.passed + count;
        count == 0
    }
}

/// The three of a run, each with a seed of its own.
pub struct Roles {
    pub submitter: Groups,
    pub kernel: Kernel,
    pub completer: Completer,
}

impl Roles {
    /// The three before a run of so many requests, in a mode and a repeat, with
    /// a submission ring of a size.
    pub fn new(mode: BatchMode, repeat: usize, sq_size: usize, requests: u64) -> (roles: Roles)
        ensures
            roles.submitter@ == fresh(
                mode,
                role_seed(repeat, sq_size, mode, 1),
                requests as int,
            ),
            roles.kernel.wf(),
            roles.kernel.taken() == Seq::<u64>::empty(),
            roles.kernel.passed() == 0,
            roles.kernel.groups() == fresh(
                mode,
                role_seed(repeat, sq_size, mode, 2),
                requests as int,
            ),
            roles.completer.groups@ == fresh(
                mode,
                role_seed(repeat, sq_size, mode, 3),
                requests as int,
            ),
    {
        Roles {
            submitter: Groups::new(mode, seed_for(repeat, sq_size, mode, 1), requests),
            kernel: Kernel::new(mode, seed_for(repeat, sq_size, mode, 2), requests),
            completer: Completer {
                groups: Groups::new(mode, seed_for(repeat, sq_size, mode, 3), requests),
            },
        }
    }
}

/// The smaller of two numbers.
pub open spec fn smaller(a: int, b: int) -> int {
    if a < b {
        a
    } else {
        b
    }
}

/// A submission ring and a completion ring with their three users. Each of the
/// users can move at any time.
pub struct Pipeline {
    sq: IoUringQueue,
    cq: IoUringQueue,
    submitter: Groups,
    kernel: Kernel,
    completer: Completer,
}

impl Pipeline {
    pub closed spec fn sq(&self) -> IoUringQueue {
        self.sq
    }

    pub closed spec fn cq(&self) -> IoUringQueue {
        self.cq
    }

    pub closed spec fn submitter(&self) -> GroupState {
        self.submitter@
    }

    pub closed spec fn kernel(&self) -> Kernel {
        self.kernel
    }

    pub closed spec fn completer(&self) -> GroupState {
        self.completer.groups@
    }

    pub open spec fn requests(&self) -> int {
        self.submitter().requests
    }

    pub open spec fn submitted(&self) -> int {
        self.submitter().total()
    }

    /// How many requests the kernel has taken.
    pub open spec fn taken(&self) -> int {
        self.kernel().taken().len() as int
    }

    /// How many requests the kernel has passed on.
    pub open spec fn processed(&self) -> int {
        self.kernel().passed()
    }

    pub open spec fn completed(&self) -> int {
        self.completer().total()
    }

    /// Everything on the way is in order: what waits for completion, what the
    /// kernel holds, and what waits for the kernel are the numbers between the
    /// counts.
    pub open spec fn wf(&self) -> bool {
        &&& self.sq().wf()
        &&& self.cq().wf()
        &&& self.submitter().wf()
        &&& self.kernel().wf()
        &&& self.completer().wf()
        &&& self.kernel().groups().requests == self.requests()
        &&& self.completer().requests == self.requests()
        &&& self.requests() <= usize::MAX
        &&& 0 <= self.completed() <= self.processed() <= self.taken() <= self.submitted()
        &&& self.submitted() <= self.requests()
        &&& self.kernel().taken() == consecutive(0, self.taken() as nat)
        &&& self.cq().waiting() == consecutive(
            self.completed(),
            (self.processed() - self.completed()) as nat,
        )
        &&& self.sq().waiting() == consecutive(
            self.taken(),
            (self.submitted() - self.taken()) as nat,
        )
        &&& self.sq().given() == self.submitted()
        &&& self.cq().given() == self.processed()
    }

    /// How many requests the submitter puts in when it moves.
    pub open spec fn to_submit(&self) -> int {
        self.sq().accepted(self.submitter().drawn().left())
    }

    /// The kernel passes on before it takes again.
    pub open spec fn is_passing(&self) -> bool {
        self.kernel().groups().left() == 0 && self.processed() < self.taken()
    }

    /// How many requests the kernel takes or passes on when it moves.
    pub open spec fn to_serve(&self) -> int {
        if self.is_passing() {
            self.cq().accepted(self.taken() - self.processed())
        } else {
            smaller(self.sq().waiting().len() as int, self.kernel().groups().drawn().left())
        }
    }

    /// How many completions the completer takes when it moves.
    pub open spec fn to_complete(&self) -> int {
        smaller(self.cq().waiting().len() as int, self.completer().drawn().left())
    }

    pub fn new(sq_size: usize, cq_size: usize, mode: BatchMode, repeat: usize, requests: u64) -> (
    result: Result<Pipeline, String>)
        requires
            requests <= usize::MAX,
        ensures
            match result {
                Ok(pipeline) => {
                    &&& ring_refusal(sq_size) is None
                    &&& ring_refusal(cq_size) is None
                    &&& pipeline.wf()
                    &&& pipeline.requests() == requests
                    &&& pipeline.submitter() == fresh(
                        mode,
                        role_seed(repeat, sq_size, mode, 1),
                        requests as int,
                    )
                    &&& pipeline.kernel().groups() == fresh(
                        mode,
                        role_seed(repeat, sq_size, mode, 2),
                        requests as int,
                    )
                    &&& pipeline.completer() == fresh(
                        mode,
                        role_seed(repeat, sq_size, mode, 3),
                        requests as int,
                    )
                    &&& pipeline.sq().capacity() == sq_size
                    &&& pipeline.cq().capacity() == cq_size
                },
                Err(message) => if ring_refusal(sq_size) is Some {
                    Some(message@) == ring_refusal(sq_size)
                } else {
                    Some(message@) == ring_refusal(cq_size)
                },
            },
    {
        let sq = match IoUringQueue::new(sq_size) {
            Ok(sq) => sq,
            Err(message) => {
                return Err(message);
            },
        };
        let cq = match IoUringQueue::new(cq_size) {
            Ok(cq) => cq,
            Err(message) => {
                return Err(message);
            },
        };
        let roles = Roles::new(mode, repeat, sq_size, requests);
        let pipeline = Pipeline {
            sq,
            cq,
            submitter: roles.submitter,
            kernel: roles.kernel,
            completer: roles.completer,
        };
        assert(consecutive(0, 0) =~= Seq::<u64>::empty());
        Ok(pipeline)
    }

    /// The submitter puts in the next numbers, as many as there is room for.
    pub fn submit(&mut self) -> (count: Option<usize>)
        requires
            old(self).wf(),
        ensures
            final(self).wf(),
            final(self).requests() == old(self).requests(),
            final(self).sq().capacity() == old(self).sq().capacity(),
            final(self).cq() == old(self).cq(),
            final(self).kernel() == old(self).kernel(),
            final(self).completer() == old(self).completer(),
            match count {
                Some(count) => {
                    &&& old(self).submitted() < old(self).requests()
                    &&& count == old(self).to_submit()
                    &&& final(self).submitter() == old(self).submitter().drawn().plus(count as int)
                },
                None => {
                    &&& old(self).submitted() == old(self).requests()
                    &&& final(self).submitter() == old(self).submitter()
                },
            },
    {
        match self.submitter.ask() {
            Some(left) => {
                let start: u64 = self.submitter.total();
                let count: usize = self.sq.push_sequential_batch(start, left);
                let _wait = self.submitter.advance(count);
                assert(self.sq().waiting() =~= consecutive(
                    self.taken(),
                    (self.submitted() - self.taken()) as nat,
                ));
                Some(count)
            },
            None => None,
        }
    }

    /// The kernel takes requests, or passes on what it holds, as much as there
    /// is or as there is room for.
    pub fn serve(&mut self) -> (count: Option<usize>)
        requires
            old(self).wf(),
        ensures
            final(self).wf(),
            final(self).requests() == old(self).requests(),
            final(self).sq().capacity() == old(self).sq().capacity(),
            final(self).cq().capacity() == old(self).cq().capacity(),
            final(self).submitter() == old(self).submitter(),
            final(self).completer() == old(self).completer(),
            match count {
                Some(count) => {
                    &&& old(self).processed() < old(self).requests()
                    &&& count == old(self).to_serve()
                    &&& if old(self).is_passing() {
                        &&& final(self).processed() == old(self).processed() + count
                        &&& final(self).taken() == old(self).taken()
                        &&& final(self).kernel().groups() == old(self).kernel().groups()
                    } else {
                        &&& final(self).processed() == old(self).processed()
                        &&& final(self).taken() == old(self).taken() + count
                        &&& final(self).kernel().groups()
                            == old(self).kernel().groups().drawn().plus(count as int)
                    }
                },
                None => {
                    &&& old(self).processed() == old(self).requests()
                    &&& final(self).processed() == old(self).processed()
                    &&& final(self).taken() == old(self).taken()
                    &&& final(self).kernel().groups() == old(self).kernel().groups()
                },
            },
    {
        match self.kernel.next() {
            KernelAction::Take(most) => {
                let values = self.sq.pop_batch(most);
                let count: usize = values.len();
                let _wait = self.kernel.took(values);
                proof {
                    assert(self.kernel().taken() =~= consecutive(0, self.taken() as nat));
                    assert(self.sq().waiting() =~= consecutive(
                        self.taken(),
                        (self.submitted() - self.taken()) as nat,
                    ));
                }
                Some(count)
            },
            KernelAction::Pass(place) => {
                let held = self.kernel.holds();
                let rest = vstd::slice::slice_subrange(held.as_slice(), place, held.len());
                assert(rest@ =~= self.kernel().taken().skip(self.processed()));
                let count: usize = self.cq.push_batch(rest);
                let _wait = self.kernel.passed_on(count);
                assert(self.cq().waiting() =~= consecutive(
                    self.completed(),
                    (self.processed() - self.completed()) as nat,
                ));
                Some(count)
            },
            KernelAction::Stop => None,
        }
    }

    /// The completer takes completions. They come in order, whatever the
    /// others did in between.
    pub fn complete(&mut self) -> (result: Result<Option<usize>, String>)
        requires
            old(self).wf(),
        ensures
            final(self).wf(),
            final(self).requests() == old(self).requests(),
            final(self).sq() == old(self).sq(),
            final(self).cq().capacity() == old(self).cq().capacity(),
            final(self).submitter() == old(self).submitter(),
            final(self).kernel() == old(self).kernel(),
            match result {
                Ok(Some(count)) => {
                    &&& old(self).completed() < old(self).requests()
                    &&& count == old(self).to_complete()
                    &&& final(self).completer() == old(self).completer().drawn().plus(count as int)
                },
                Ok(None) => {
                    &&& old(self).completed() == old(self).requests()
                    &&& final(self).completer() == old(self).completer()
                },
                Err(_) => false,
            },
    {
        match self.completer.groups.ask() {
            Some(left) => {
                let values = self.cq.pop_batch(left);
                let count: usize = values.len();
                assert(values@ =~= consecutive(self.completed(), values@.len()));
                match self.completer.took(&values) {
                    Ok(_) => {},
                    Err(message) => {
                        return Err(message);
                    },
                }
                assert(self.cq().waiting() =~= consecutive(
                    self.completed(),
                    (self.processed() - self.completed()) as nat,
                ));
                Ok(Some(count))
            },
            None => Ok(None),
        }
    }
}

/// As long as a request is not completed, one of the three can move.
pub proof fn law_the_pipeline_never_stops_early(pipeline: &Pipeline)
    requires
        pipeline.wf(),
        pipeline.sq().capacity() > 0,
        pipeline.cq().capacity() > 0,
        pipeline.completed() < pipeline.requests(),
    ensures
        pipeline.to_submit() > 0 || pipeline.to_serve() > 0 || pipeline.to_complete() > 0,
{
    law_groups_cover_the_requests(pipeline.submitter());
    law_groups_cover_the_requests(pipeline.kernel().groups());
    law_groups_cover_the_requests(pipeline.completer());
}

} // verus!
