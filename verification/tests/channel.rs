use std::mem::{align_of, size_of};
use std::sync::atomic::{AtomicUsize, Ordering::Relaxed};
use std::sync::Arc;
use ubq::kfifo::attempt::{Attempt, BatchAttempt, Progress};
use ubq::kfifo::lubq::{channel, channel_with, Core, Receiver, Sender, TryRecvError};
use ubq::layout::{BlockLayout, Shape};

const PAGE: usize = 4096;

fn block_length<T>() -> usize {
    let header = Shape {
        size: 384,
        align: 128,
    };
    let slot = Shape {
        size: size_of::<T>(),
        align: align_of::<T>(),
    };
    BlockLayout::new(PAGE, header, slot).slots_len
}

fn open<T>() -> (Core<T>, Sender, Receiver) {
    channel(PAGE, block_length::<T>())
}

struct CountDrop(Arc<AtomicUsize>);

impl Drop for CountDrop {
    fn drop(&mut self) {
        self.0.fetch_add(1, Relaxed);
    }
}

#[test]
fn channel_starts_open_and_empty() {
    let (mut core, _sender, mut receiver) = open::<usize>();
    assert_eq!(receiver.try_recv(&mut core), Err(TryRecvError::Empty));
    assert!(!receiver.is_closed(&core));
}

#[test]
fn receiver_drains_after_final_sender_exits() {
    let (mut core, mut sender, mut receiver) = open();
    sender.send_batch(&mut core, (0..32).collect());
    sender.close(&mut core);

    assert!(receiver.is_closed(&core));
    assert_eq!(
        receiver.pop_batch(&mut core, 32),
        (0..32).collect::<Vec<_>>()
    );
    assert_eq!(
        receiver.try_recv(&mut core),
        Err(TryRecvError::Disconnected)
    );
}

#[test]
fn inactive_shard_remains_drainable_while_other_sender_runs() {
    let (mut core, mut first, mut receiver) = open();
    let mut anchor = first.add_sender(&mut core);
    first.send_batch(&mut core, (0..20).collect());
    first.close(&mut core);

    assert_eq!(
        receiver.pop_batch(&mut core, 20),
        (0..20).collect::<Vec<_>>()
    );
    assert_eq!(receiver.try_recv(&mut core), Err(TryRecvError::Empty));

    anchor.send(&mut core, 42);
    assert_eq!(receiver.try_recv(&mut core), Ok(42));
    anchor.close(&mut core);
    assert_eq!(
        receiver.try_recv(&mut core),
        Err(TryRecvError::Disconnected)
    );
}

#[test]
fn drained_inactive_shard_remains_routed_and_is_reused() {
    let (mut core, mut first, mut receiver) = open();
    let second = first.add_sender(&mut core);
    let first_shard = first.shard();
    first.send(&mut core, 7);
    first.close(&mut core);

    assert_eq!(receiver.try_recv(&mut core), Ok(7));
    assert_eq!(core.routed_len(), 2);

    let reused = second.add_sender(&mut core);
    assert_eq!(reused.shard(), first_shard);
    assert_eq!(core.routed_len(), 2);

    reused.close(&mut core);
    second.close(&mut core);
    assert_eq!(
        receiver.try_recv(&mut core),
        Err(TryRecvError::Disconnected)
    );
}

#[test]
fn drained_inactive_tail_is_reused_without_growing_the_list() {
    let (mut core, first, mut receiver) = open::<usize>();
    let mut retired_tail = first.add_sender(&mut core);
    let retired_tail_shard = retired_tail.shard();
    retired_tail.send(&mut core, 9);
    retired_tail.close(&mut core);

    assert_eq!(receiver.try_recv(&mut core), Ok(9));
    assert_eq!(core.routed_len(), 2);

    let mut new_tail = first.add_sender(&mut core);
    assert_eq!(new_tail.shard(), retired_tail_shard);
    new_tail.send(&mut core, 10);
    assert_eq!(receiver.try_recv(&mut core), Ok(10));
    assert_eq!(core.routed_len(), 2);

    new_tail.close(&mut core);
    first.close(&mut core);
    assert_eq!(
        receiver.try_recv(&mut core),
        Err(TryRecvError::Disconnected)
    );
}

#[test]
fn buffered_inactive_shard_is_not_reused_until_drained() {
    let (mut core, mut first, mut receiver) = open();
    let anchor = first.add_sender(&mut core);
    let buffered_shard = first.shard();
    first.send(&mut core, 7);
    first.close(&mut core);

    let temporary = anchor.add_sender(&mut core);
    assert_ne!(temporary.shard(), buffered_shard);
    assert_eq!(core.routed_len(), 3);
    temporary.close(&mut core);

    assert_eq!(receiver.try_recv(&mut core), Ok(7));
    let reused = anchor.add_sender(&mut core);
    assert_eq!(reused.shard(), buffered_shard);
    assert_eq!(core.routed_len(), 3);

    reused.close(&mut core);
    anchor.close(&mut core);
    assert_eq!(
        receiver.try_recv(&mut core),
        Err(TryRecvError::Disconnected)
    );
}

#[test]
fn receiver_clone_is_strong_but_does_not_add_a_shard() {
    let (mut core, sender, receiver) = open::<usize>();
    let routed = core.routed_len();

    let mut receiver_two = receiver.another();
    assert_eq!(core.routed_len(), routed);
    assert_eq!(receiver_two.try_recv(&mut core), Err(TryRecvError::Empty));

    assert_eq!(core.routed_len(), routed);
    sender.close(&mut core);
}

#[test]
fn sender_clone_allocates_and_appends_a_distinct_shard() {
    let (mut core, first, _receiver) = open::<usize>();
    let second = first.add_sender(&mut core);

    assert_ne!(first.shard(), second.shard());
    assert_eq!(core.senders(), 2);
    assert_eq!(core.routed_len(), 2);

    second.close(&mut core);
    first.close(&mut core);
    assert_eq!(core.senders(), 0);
}

#[test]
fn repeated_sender_churn_keeps_only_anchor_and_current_tail_routed() {
    let (mut core, anchor, mut receiver) = open();
    let mut reusable_shard = None;

    for value in 0..500 {
        let mut sender = anchor.add_sender(&mut core);
        let shard = sender.shard();
        assert_eq!(*reusable_shard.get_or_insert(shard), shard);
        sender.send(&mut core, value);
        sender.close(&mut core);

        assert_eq!(receiver.try_recv(&mut core), Ok(value));
        assert_eq!(core.routed_len(), 2);
    }

    anchor.close(&mut core);
    assert_eq!(
        receiver.try_recv(&mut core),
        Err(TryRecvError::Disconnected)
    );
}

#[test]
fn native_batch_preserves_fifo_and_rotates_between_producer_bursts() {
    let (mut core, mut first, mut receiver) = open();
    let mut second = first.add_sender(&mut core);
    first.send_batch(&mut core, (0..4).collect());
    second.send_batch(&mut core, (10..14).collect());

    assert_eq!(
        receiver.pop_batch(&mut core, 8),
        [0, 1, 2, 3, 10, 11, 12, 13]
    );

    first.close(&mut core);
    second.close(&mut core);
    assert_eq!(
        receiver.try_recv(&mut core),
        Err(TryRecvError::Disconnected)
    );
}

#[test]
fn caller_owned_batch_appends_up_to_the_requested_size() {
    let (mut core, mut sender, mut receiver) = open();
    sender.send_batch(&mut core, (0..8).collect());

    let mut values = vec![99];
    assert_eq!(
        receiver.try_recv_batch_into(&mut core, &mut values, 3),
        Ok(3)
    );
    assert_eq!(values, [99, 0, 1, 2]);

    values.clear();
    assert_eq!(receiver.pop_batch_into(&mut core, &mut values, 16), 5);
    assert_eq!(values, [3, 4, 5, 6, 7]);

    values.clear();
    assert_eq!(
        receiver.try_recv_batch_into(&mut core, &mut values, 0),
        Ok(0)
    );
    assert_eq!(
        receiver.try_recv_batch_into(&mut core, &mut values, 1),
        Err(TryRecvError::Empty)
    );
    assert!(values.is_empty());

    sender.close(&mut core);
    assert_eq!(
        receiver.try_recv_batch_into(&mut core, &mut values, 1),
        Err(TryRecvError::Disconnected)
    );
}

#[test]
fn native_batch_crosses_inner_ubq_blocks() {
    let (mut core, mut sender, mut receiver) = open::<usize>();
    let len = block_length::<usize>() + 17;
    sender.send_batch(&mut core, (0..len).collect());

    let mut values = Vec::new();
    assert_eq!(
        receiver.try_recv_batch_into(&mut core, &mut values, len),
        Ok(len)
    );
    assert_eq!(values, (0..len).collect::<Vec<_>>());

    sender.close(&mut core);
    assert_eq!(
        receiver.try_recv(&mut core),
        Err(TryRecvError::Disconnected)
    );
}

#[test]
fn values_drop_after_receivers_and_senders_are_gone() {
    let dropped = Arc::new(AtomicUsize::new(0));
    let (mut core, mut sender, receiver) = open();
    sender.send_batch(
        &mut core,
        (0..17).map(|_| CountDrop(Arc::clone(&dropped))).collect(),
    );

    drop(receiver);
    assert_eq!(dropped.load(Relaxed), 0);
    sender.close(&mut core);
    drop(core);
    assert_eq!(dropped.load(Relaxed), 17);
}

#[test]
fn drained_inactive_shard_keeps_its_ubq_until_root_drop() {
    let (mut core, mut first, mut receiver) = open();
    let anchor = first.add_sender(&mut core);
    let shard = first.shard();
    first.send_batch(&mut core, (0..8).collect());
    first.close(&mut core);

    assert_eq!(
        receiver.pop_batch(&mut core, 8),
        (0..8).collect::<Vec<_>>()
    );
    assert!(core.shard_is_empty(shard));
    assert_eq!(core.routed_len(), 2);

    let reused = anchor.add_sender(&mut core);
    assert_eq!(reused.shard(), shard);
    assert_eq!(core.routed_len(), 2);

    reused.close(&mut core);
    anchor.close(&mut core);
}

#[test]
fn inactive_buffered_values_remain_until_root_drop() {
    let dropped = Arc::new(AtomicUsize::new(0));
    let (mut core, mut first, receiver) = open();
    let anchor = first.add_sender(&mut core);
    first.send_batch(
        &mut core,
        (0..11).map(|_| CountDrop(Arc::clone(&dropped))).collect(),
    );
    first.close(&mut core);

    assert_eq!(dropped.load(Relaxed), 0);
    drop(receiver);
    assert_eq!(dropped.load(Relaxed), 0);

    anchor.close(&mut core);
    drop(core);
    assert_eq!(dropped.load(Relaxed), 11);
}

#[test]
fn errors_say_what_is_the_matter() {
    assert_ne!(
        TryRecvError::Empty.message(),
        TryRecvError::Disconnected.message()
    );
}

fn go_on<T>(
    attempt: &mut Attempt,
    receiver: &mut Receiver,
    core: &mut Core<T>,
) -> Option<Result<T, TryRecvError>> {
    match attempt.step(receiver, core) {
        Progress::Over(result) => Some(result),
        Progress::Again => None,
    }
}

#[test]
fn a_send_behind_the_first_round_is_not_missed() {
    let (mut core, mut sender, mut receiver) = open::<usize>();
    let mut attempt = Attempt::new(&receiver, &core);
    assert_eq!(go_on(&mut attempt, &mut receiver, &mut core), None);
    sender.send(&mut core, 7);
    sender.close(&mut core);
    assert_eq!(go_on(&mut attempt, &mut receiver, &mut core), None);
    assert_eq!(go_on(&mut attempt, &mut receiver, &mut core), Some(Ok(7)));

    let mut attempt = Attempt::new(&receiver, &core);
    let mut result = None;
    while result.is_none() {
        result = go_on(&mut attempt, &mut receiver, &mut core);
    }
    assert_eq!(result, Some(Err(TryRecvError::Disconnected)));
}

#[test]
fn an_attempt_with_a_sender_left_reports_an_empty_channel() {
    let (mut core, _sender, mut receiver) = open::<usize>();
    let mut attempt = Attempt::new(&receiver, &core);
    assert_eq!(go_on(&mut attempt, &mut receiver, &mut core), None);
    assert_eq!(
        go_on(&mut attempt, &mut receiver, &mut core),
        Some(Err(TryRecvError::Empty))
    );
}

#[test]
fn a_batch_behind_the_first_round_is_not_missed() {
    let (mut core, mut sender, mut receiver) = open::<usize>();
    let mut values = Vec::new();
    let mut attempt = BatchAttempt::new(&receiver, &core, 3);
    assert!(matches!(
        attempt.step(&mut receiver, &mut core, &mut values),
        Progress::Again
    ));
    sender.send_batch(&mut core, vec![7, 8]);
    sender.close(&mut core);
    let mut result = None;
    while result.is_none() {
        if let Progress::Over(over) = attempt.step(&mut receiver, &mut core, &mut values) {
            result = Some(over);
        }
    }
    assert_eq!(result, Some(Ok(2)));
    assert_eq!(values, vec![7, 8]);
}

#[test]
fn a_channel_works_the_same_under_any_policy() {
    let (mut core, mut sender, mut receiver) = channel_with::<u64, CountDrop>(64, 5);
    sender.send(&mut core, 7);
    assert_eq!(receiver.try_recv(&mut core), Ok(7));
    assert_eq!(receiver.try_recv(&mut core), Err(TryRecvError::Empty));
}
