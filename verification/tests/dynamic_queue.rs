use std::sync::atomic::{AtomicUsize, Ordering};
use std::sync::Arc;
use ubq::dynamic::block::Block;
use ubq::dynamic::queue::DUBQ;
use ubq::dynamic::slot::Slot;
use ubq::queue::TryNext;

struct DropCounter(Arc<AtomicUsize>);

impl Drop for DropCounter {
    fn drop(&mut self) {
        self.0.fetch_add(1, Ordering::Relaxed);
    }
}

fn take<T>(queue: &mut DUBQ<T>, count: usize) -> Vec<T> {
    let iter = queue.pop_batch(count);
    let mut values = Vec::new();
    iter.append_to_vec(queue, &mut values);
    values
}

#[test]
fn pop_batch_stays_within_a_block_and_stops_at_the_producer_frontier() {
    let mut queue = DUBQ::new(0, 4);

    // Three values leave both heads in the initial four-slot block. The
    // first pop stays in it, while the oversized second request must be
    // capped at the current producer position.
    queue.push_batch((0..3).collect());

    assert_eq!(take(&mut queue, 2), [0, 1]);
    assert_eq!(take(&mut queue, usize::MAX), [2]);
    assert!(queue.pop_batch(1).next(&mut queue).is_none());
}

#[test]
fn pop_batch_normalizes_an_endpoint_across_dynamic_blocks() {
    let mut queue = DUBQ::new(1, 4);

    // The first push nearly fills the initial block. The second push must
    // link an extension, giving the consumer a real boundary to traverse.
    queue.push_batch((0..3).collect());
    queue.push_batch((3..11).collect());

    assert_eq!(take(&mut queue, 6), (0..6).collect::<Vec<_>>());
    assert_eq!(take(&mut queue, 10), (6..11).collect::<Vec<_>>());
    assert!(queue.pop_batch(1).next(&mut queue).is_none());
}

#[test]
fn drop_releases_pending_values_across_linked_and_pooled_blocks() {
    let dropped = Arc::new(AtomicUsize::new(0));
    let mut queue = DUBQ::new(2, 4);

    queue.push_batch(
        (0..12)
            .map(|_| DropCounter(Arc::clone(&dropped)))
            .collect(),
    );
    drop(take(&mut queue, 5));
    assert_eq!(dropped.load(Ordering::Relaxed), 5);

    drop(queue);
    assert_eq!(dropped.load(Ordering::Relaxed), 12);
}

#[test]
fn dropping_an_uninitialized_queue_is_a_noop() {
    drop(DUBQ::<DropCounter>::new(2, 4));
}

#[test]
fn many_rounds_through_the_pool_keep_the_order() {
    let mut queue = DUBQ::new(2, 3);
    let mut next = 0usize;
    let mut expected = 0usize;
    for round in 0..200 {
        let len = round % 7 + 1;
        queue.push_batch((next..next + len).collect());
        next += len;
        let got = take(&mut queue, round % 5 + 2);
        for value in got {
            assert_eq!(value, expected);
            expected += 1;
        }
    }
    let rest = take(&mut queue, usize::MAX);
    assert_eq!(rest, (expected..next).collect::<Vec<_>>());
}

#[test]
fn a_head_that_was_seen_earlier_does_no_harm() {
    let mut queue: DUBQ<u32> = DUBQ::new(1, 2);
    let nothing = queue.acquire_phead();
    queue.push_batch(vec![1, 2, 3]);
    let early = queue.acquire_phead();
    queue.push_batch_seen(nothing, vec![4], 1);
    queue.push_batch_seen(early, vec![5, 6], 2);
    let seen = queue.acquire_chead();
    assert_eq!(take(&mut queue, 1), [1]);
    let iter = queue.pop_batch_seen(seen, 10);
    assert_eq!(iter.size_hint(), 5);
    let mut values = Vec::new();
    iter.append_to_vec(&mut queue, &mut values);
    assert_eq!(values, [2, 3, 4, 5, 6]);
}

#[test]
fn values_that_do_not_come_are_skipped() {
    let mut queue: DUBQ<u32> = DUBQ::new(0, 2);
    queue.push_announced(vec![1], 3);
    queue.push_announced(vec![2, 3, 4], 2);
    let mut iter = queue.pop_batch(10);
    assert_eq!(iter.size_hint(), 5);
    assert_eq!(iter.next(&mut queue), Some(1));
    assert_eq!(iter.next(&mut queue), Some(2));
    assert_eq!(iter.next(&mut queue), Some(3));
    assert_eq!(iter.next(&mut queue), None);
}

#[test]
fn a_run_that_is_given_up_drops_its_values() {
    let dropped = Arc::new(AtomicUsize::new(0));
    let mut queue = DUBQ::new(0, 4);
    queue.push_batch(
        (0..6)
            .map(|_| DropCounter(Arc::clone(&dropped)))
            .collect(),
    );
    let iter = queue.pop_batch(4);
    iter.finish(&mut queue);
    assert_eq!(dropped.load(Ordering::Relaxed), 4);
}

#[test]
fn blocks_count_what_was_read() {
    let mut block: Block<u8> = Block::new(2);
    block.write(0, Some(7));
    block.write(1, None);
    assert_eq!(block.take(1), (None, false));
    assert_eq!(block.consumed(), 1);
    assert_eq!(block.take(0), (Some(7), true));
    block.set_next(Some(3));
    assert_eq!(block.next(), Some(3));
    block.reset();
    assert_eq!(block.next(), None);
    assert_eq!(block.consumed(), 0);
    assert_eq!(block.len(), 2);
}

#[test]
fn slots_are_read_once() {
    let mut slot = Slot::new();
    slot.write_opt(Some(5));
    assert_eq!(slot.read(), Some(5));
    assert_eq!(slot.read(), None);
    slot.reset();
    slot.write_opt(None);
    assert_eq!(slot.read(), None);
}

#[test]
fn batches_may_be_written_in_any_order() {
    let mut queue: DUBQ<u64> = DUBQ::new(1, 2);
    let seen = queue.acquire_phead();
    let mut first = queue.reserve_seen(seen, vec![1, 2], 3);
    // The head that was seen is out of date by now.
    let mut second = queue.reserve_seen(seen, vec![10], 1);
    assert_eq!(first.size_hint(), 3);

    let mut reader = queue.pop_batch(4);
    assert_eq!(reader.size_hint(), 4);
    second.write(&mut queue);
    assert!(matches!(reader.try_next(&mut queue), TryNext::Wait));
    first.write(&mut queue);
    assert!(matches!(reader.try_next(&mut queue), TryNext::Value(1)));
    assert!(matches!(reader.try_next(&mut queue), TryNext::Wait));
    first.write(&mut queue);
    assert!(matches!(reader.try_next(&mut queue), TryNext::Value(2)));
    // The third position of the first batch gets no value.
    assert!(matches!(reader.try_next(&mut queue), TryNext::Wait));
    first.write(&mut queue);
    assert_eq!(first.size_hint(), 0);
    assert!(matches!(reader.try_next(&mut queue), TryNext::Value(10)));
    assert!(matches!(reader.try_next(&mut queue), TryNext::End));
}
