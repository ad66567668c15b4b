use std::mem::{align_of, size_of};
use std::sync::atomic::{AtomicUsize, Ordering};
use std::sync::Arc;
use ubq::kfifo::head::{Head, HeadCodec};
use ubq::kfifo::queue::{SPMCIter, SPMC};
use ubq::layout::{BlockLayout, Shape};

const PAGE: usize = 4096;

/// A link and two padded counters.
const HEADER: Shape = Shape {
    size: 384,
    align: 128,
};

fn block_length<T>() -> usize {
    let slot = Shape {
        size: size_of::<T>(),
        align: align_of::<T>(),
    };
    BlockLayout::new(PAGE, HEADER, slot).slots_len
}

fn queue<T>() -> SPMC<T> {
    SPMC::new(PAGE, block_length::<T>())
}

fn codec<T>() -> HeadCodec {
    HeadCodec::new(PAGE, block_length::<T>())
}

fn collect<T>(iter: SPMCIter, queue: &mut SPMC<T>) -> Vec<T> {
    let mut values = Vec::new();
    iter.append_to_vec(queue, &mut values);
    values
}

fn take<T>(queue: &mut SPMC<T>, count: usize) -> Vec<T> {
    let iter = queue.pop_batch(count);
    collect(iter, queue)
}

struct CountDrop(Arc<AtomicUsize>);

impl Drop for CountDrop {
    fn drop(&mut self) {
        self.0.fetch_add(1, Ordering::Relaxed);
    }
}

#[test]
fn codec_round_trips_every_head_field_when_hint_bit_is_available() {
    let codec = codec::<u64>();
    assert!(codec.has_next_enabled());

    let block = codec.address_of(6);
    let head = Head {
        block,
        index: codec.block_length(),
        has_next: true,
    };
    let decoded = Head::from_usize(head.to_usize(&codec), &codec);

    assert_eq!(decoded.block, block);
    assert_eq!(decoded.index, codec.block_length());
    assert!(decoded.has_next);
}

#[test]
fn zero_round_trips() {
    let codec = codec::<u64>();
    assert!(Head::from_usize(0, &codec).is_zero());
    assert_eq!(Head::zero().to_usize(&codec), 0);
}

#[test]
fn one_byte_slots_use_all_tag_bits_for_the_index() {
    let codec = codec::<()>();
    assert!(!codec.has_next_enabled());
}

#[test]
fn queue_crosses_a_block_when_has_next_hint_is_not_encoded() {
    let mut queue = queue::<()>();
    let len = queue.block_length() + 1;
    queue.push_batch(vec![(); len]);
    assert_eq!(take(&mut queue, len).len(), len);
    assert!(queue.is_empty());
}

#[test]
fn dishonest_exact_size_iterator_publishes_only_actual_values() {
    let mut queue = queue::<usize>();
    queue.push_announced((0..7).collect(), 70);
    assert_eq!(take(&mut queue, 100), (0..7).collect::<Vec<_>>());
    assert!(queue.is_empty());
}

#[test]
fn fully_consumed_blocks_are_retained_for_reuse() {
    let mut queue = queue::<usize>();
    let len = queue.block_length() + 1;
    queue.push_batch((0..len).collect());
    assert_eq!(take(&mut queue, len).len(), len);
    assert_eq!(queue.pool_len(), 1);

    let block_length = queue.block_length();
    queue.push_batch((0..block_length).collect());
    assert_eq!(queue.pool_len(), 0);
    assert_eq!(take(&mut queue, block_length).len(), block_length);
}

#[test]
fn stale_cas_after_real_block_reuse_rolls_back_without_reading_payload() {
    let mut queue = queue::<usize>();
    let codec = codec::<usize>();
    let capacity = queue.block_length();

    queue.push_batch((0..capacity).collect());
    let stale = queue.acquire_chead();
    assert!(!stale.has_next);
    assert_eq!(take(&mut queue, capacity).len(), capacity);

    // Fill the second block, reusing stale.block as its successor, then
    // consume the second block so chead returns to the exact stale bits.
    queue.push_batch((capacity..2 * capacity).collect());
    assert_eq!(take(&mut queue, capacity).len(), capacity);
    assert_eq!(
        queue.acquire_chead().to_usize(&codec),
        stale.to_usize(&codec)
    );

    let claimed = Head {
        block: stale.block,
        index: 1,
        has_next: false,
    };
    queue
        .compare_exchange_chead(stale.to_usize(&codec), claimed)
        .expect("forced stale CAS must reproduce ABA");

    assert_eq!(queue.resolve_speculative_claim(stale, claimed), Some(0));
    assert_eq!(
        queue.acquire_chead().to_usize(&codec),
        stale.to_usize(&codec)
    );

    queue.push(2 * capacity);
    assert_eq!(queue.pop(), Some(2 * capacity));
    assert!(queue.is_empty());
}

#[test]
fn stale_descendants_unwind_in_reverse_and_keep_the_published_prefix() {
    let mut queue = queue::<usize>();
    let codec = codec::<usize>();
    assert!(queue.block_length() > 8);
    queue.push_batch((0..4).collect());

    let original = queue.acquire_chead();
    let parent = Head {
        block: original.block,
        index: 6,
        has_next: false,
    };
    let descendant = Head {
        block: original.block,
        index: 8,
        has_next: false,
    };
    // Model two stale CAS operations which succeeded in sequence.
    queue
        .compare_exchange_chead(original.to_usize(&codec), parent)
        .expect("parent");
    queue
        .compare_exchange_chead(parent.to_usize(&codec), descendant)
        .expect("descendant");

    // The parent has to wait for its descendant.
    assert_eq!(queue.resolve_speculative_claim(original, parent), None);
    assert_eq!(queue.resolve_speculative_claim(parent, descendant), Some(0));
    assert_eq!(queue.resolve_speculative_claim(original, parent), Some(4));
    assert_eq!(queue.acquire_chead().index, 4);

    let iter = queue.reservation(original, 4);
    assert!(queue.validate_claim(&iter));
    assert_eq!(collect(iter, &mut queue), (0..4).collect::<Vec<_>>());
    assert!(queue.is_empty());
}

#[test]
fn invalid_boundary_claim_repairs_before_following_the_successor() {
    let mut queue = queue::<usize>();
    let codec = codec::<usize>();
    let capacity = queue.block_length();
    queue.push_batch((0..capacity - 2).collect());
    assert_eq!(take(&mut queue, capacity - 4).len(), capacity - 4);

    let original = queue.acquire_chead();
    assert_eq!(original.index, capacity - 4);
    let claimed = Head {
        block: original.block,
        index: capacity,
        has_next: false,
    };
    queue
        .compare_exchange_chead(original.to_usize(&codec), claimed)
        .unwrap();

    let len = queue.resolve_speculative_claim(original, claimed).unwrap();
    assert_eq!(len, 2);
    assert_eq!(queue.acquire_chead().index, capacity - 2);

    let iter = queue.reservation(original, len);
    assert!(queue.validate_claim(&iter));
    assert_eq!(
        collect(iter, &mut queue),
        vec![capacity - 4, capacity - 3]
    );
    assert!(queue.is_empty());
}

#[test]
fn out_of_order_reservation_completion_recycles_only_after_the_last_range() {
    let mut queue = queue::<usize>();
    let capacity = queue.block_length();
    queue.push_batch((0..capacity).collect());

    let first = queue.pop_batch(capacity / 2);
    let second = queue.pop_batch(capacity - capacity / 2);
    second.drain(&mut queue);
    assert_eq!(queue.pool_len(), 0);

    first.drain(&mut queue);
    assert_eq!(queue.pool_len(), 1);
    assert!(queue.is_empty());
}

#[test]
fn queue_drop_destroys_only_the_unclaimed_published_suffix() {
    let dropped = Arc::new(AtomicUsize::new(0));
    let mut queue = queue::<CountDrop>();
    let total = queue.block_length() + 17;
    queue.push_batch((0..total).map(|_| CountDrop(Arc::clone(&dropped))).collect());
    let claimed = take(&mut queue, 3);

    drop(queue);
    assert_eq!(dropped.load(Ordering::Relaxed), total - 3);
    drop(claimed);
    assert_eq!(dropped.load(Ordering::Relaxed), total);
}

#[test]
fn bulk_vec_move_transfers_non_copy_values_without_extra_drops() {
    let dropped = Arc::new(AtomicUsize::new(0));
    let mut queue = queue::<CountDrop>();
    let total = queue.block_length() + 17;
    queue.push_batch((0..total).map(|_| CountDrop(Arc::clone(&dropped))).collect());

    let mut values = Vec::new();
    let iter = queue.pop_batch(total);
    assert_eq!(iter.append_to_vec(&mut queue, &mut values), total);
    assert_eq!(values.len(), total);
    assert_eq!(dropped.load(Ordering::Relaxed), 0);
    drop(queue);
    assert_eq!(dropped.load(Ordering::Relaxed), 0);
    drop(values);
    assert_eq!(dropped.load(Ordering::Relaxed), total);
}

#[test]
fn a_claim_that_lost_changes_nothing() {
    let mut queue = queue::<usize>();
    let codec = codec::<usize>();
    queue.push_batch((0..4).collect());
    let seen = queue.acquire_chead();
    assert_eq!(queue.pop(), Some(0));
    let claimed = Head { index: 2, ..seen };
    let current = queue.acquire_chead().to_usize(&codec);
    assert_eq!(
        queue.compare_exchange_chead(seen.to_usize(&codec), claimed),
        Err(current)
    );
    let mut iter = queue.pop_batch(2);
    assert_eq!(iter.len(), 2);
    assert_eq!(iter.next(&mut queue), Some(1));
    assert_eq!(iter.next(&mut queue), Some(2));
    assert_eq!(iter.next(&mut queue), None);
}

#[test]
fn a_claim_to_the_end_of_a_block_leads_the_head_on() {
    let mut queue = queue::<usize>();
    let codec = codec::<usize>();
    let capacity = queue.block_length();
    queue.push_batch((0..capacity + 3).collect());
    let mut other = queue.pop_batch(1);

    let original = queue.acquire_chead();
    assert_eq!(original.index, 1);
    let claimed = Head {
        index: capacity,
        ..original
    };
    queue
        .compare_exchange_chead(original.to_usize(&codec), claimed)
        .expect("nobody else moved the head");
    assert_eq!(
        queue.resolve_speculative_claim(original, claimed),
        Some(capacity - 1)
    );
    // The head stands on the end of its block; other consumers read on.
    assert_eq!(queue.acquire_chead().index, capacity);
    assert_eq!(other.next(&mut queue), Some(0));
    assert_eq!(queue.pool_len(), 0);

    let len = queue.finish_boundary_claim(capacity - 1, capacity + 1);
    assert_eq!(len, capacity + 1);
    assert_eq!(queue.acquire_chead().index, 2);
    let iter = queue.reservation(original, len);
    assert!(queue.validate_claim(&iter));
    assert_eq!(
        collect(iter, &mut queue),
        (1..capacity + 2).collect::<Vec<_>>()
    );
    assert_eq!(queue.pool_len(), 1);
    assert_eq!(queue.pop(), Some(capacity + 2));
    assert!(queue.is_empty());
}

#[test]
fn a_claim_past_what_is_published_fails_its_check() {
    let mut queue = queue::<usize>();
    let codec = codec::<usize>();
    queue.push_batch((0..4).collect());
    let original = queue.acquire_chead();
    let claimed = Head { index: 6, ..original };
    queue
        .compare_exchange_chead(original.to_usize(&codec), claimed)
        .expect("nobody else moved the head");

    assert!(!queue.validate_claim(&queue.reservation(original, 6)));
    assert!(!queue.validate_claim(&queue.reservation(original, 5)));
    assert!(queue.validate_claim(&queue.reservation(original, 4)));
    assert!(queue.validate_claim(&queue.reservation(original, 0)));

    queue.push_batch((4..6).collect());
    assert!(queue.validate_claim(&queue.reservation(original, 6)));
}

#[test]
fn a_shared_queue_starts_empty() {
    let mut queue = SPMC::<usize>::new_arc(PAGE, block_length::<usize>());
    let inner = Arc::get_mut(&mut queue).expect("one owner");
    assert!(inner.is_empty());
    inner.push(4);
    assert_eq!(inner.pop(), Some(4));
}

#[test]
fn a_cached_block_is_used_before_a_new_one() {
    let mut queue = SPMC::<usize>::new(64, 4);
    queue.push_batch((0..9).collect());
    assert_eq!(take(&mut queue, 3), vec![0, 1, 2]);
    assert_eq!(queue.pool_len(), 0);
    assert_eq!(queue.pop(), Some(3));
    assert_eq!(queue.pool_len(), 1);
    let iter = queue.pop_batch(5);
    iter.drain(&mut queue);
    assert_eq!(queue.pool_len(), 2);
    queue.push_batch((9..12).collect());
    assert_eq!(queue.pool_len(), 1);
    assert_eq!(take(&mut queue, 9), vec![9, 10, 11]);
    assert_eq!(queue.pool_len(), 2);
}
