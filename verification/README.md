# ubq

Unbounded queues backed by linked blocks, with contracts that Verus proves, and
the rules of the programs that measure them.

- `queue`, `inner`: queues for any number of producers and consumers.
- `kfifo`: a queue with one producer, and a channel made of one such queue for
  each sender.
- `dynamic`: a queue whose blocks grow with the batches.
- `sleepq`, `sleepers`: what a consumer does when a queue is empty.
- `block`, `cursor`, `packed`, `position`, `layout`, `page`, `slot`: how the
  state of a queue is packed into machine words and pages.
- `jni`: queues of numbers for callers on a Java machine.
- `debug`: a log that is written by a thread of its own.
- `bench`: measurements of single operations, and the tables they end in.
- `tooling`: the search for the best configuration, on one machine or several.

Every function is stated and proved as one step that takes effect at once. In
`queue`, `inner`, `dynamic` and `kfifo` a push is a reservation and a write for
each position, and a pop is a claim and a read for each position; steps of
different threads may come in any order, and a reader is told to wait for a
producer that has not written yet. The steps that change a head take the value
that the caller last saw, which may be out of date; they are proved for every
such value. `kfifo::attempt` takes an attempt to receive shard by shard, and
`sleepers` a pop that sleeps stage by stage. `bench::updater` states the
accesses of a thread of the counter benchmark in the same way, and `bench::crew`
what any order of them leaves; `bench::roles` states the steps of the three
threads of the ring benchmark, and that they never get stuck. That the memory of a machine lets each step take
effect at once is outside the contracts: `app/shared.rs` puts each queue behind
a lock.

`app/` holds what touches files, processes, threads, clocks and floating-point
numbers.
