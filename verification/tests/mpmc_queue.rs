use std::mem::{align_of, size_of};
use std::sync::Arc;
use ubq::kfifo::head::HeadCodec;
use ubq::layout::{slots_offset, BlockLayout, Shape};
use ubq::queue::{TryNext, growth, UBQ};
use ubq::slot::Slot;

const PAGE: usize = 4096;

/// A block has a link and one padded counter in front of its slots.
const HEADER: Shape = Shape {
    size: 256,
    align: 128,
};

fn block_length<T>() -> usize {
    let slot = Shape {
        size: size_of::<Slot<T>>(),
        align: align_of::<Slot<T>>(),
    };
    BlockLayout::new(PAGE, HEADER, slot).slots_len
}

fn queue<T>() -> UBQ<T> {
    UBQ::new(PAGE, block_length::<T>())
}

fn take<T>(queue: &mut UBQ<T>, count: usize) -> Vec<T> {
    let iter = queue.pop_batch(count);
    let mut values = Vec::new();
    iter.append_to_vec(queue, &mut values);
    values
}

#[test]
fn block_length_is_derived_from_one_page() {
    let mut queue = queue::<usize>();
    let block_length = queue.block_length();
    assert!(block_length > 0);

    let count = block_length + 3;
    queue.push_batch((0..count).collect());
    assert_eq!(take(&mut queue, count), (0..count).collect::<Vec<_>>());
}

#[test]
fn drop_releases_all_enqueued_values() {
    let token = Arc::new(());
    let first = queue::<Arc<()>>();
    let n = (first.block_length() * 3) + 7;
    drop(first);

    for _ in 0..16 {
        let mut q = queue::<Arc<()>>();

        for _ in 0..n {
            q.push(token.clone());
        }

        assert_eq!(Arc::strong_count(&token), n + 1);

        drop(q);

        assert_eq!(Arc::strong_count(&token), 1);
    }
}

#[test]
fn fill_drain_ordered() {
    let mut q = queue::<i32>();

    let m = 1_000_000;
    for i in 0..m {
        q.push(i);
    }

    for i in 0..m {
        assert_eq!(q.pop(), Some(i));
    }
}

#[test]
fn refill_drain_recycled_blocks() {
    let mut q = queue::<(usize, usize)>();
    let per_round = q.block_length() * 3 + 17;

    for round in 0..64 {
        for i in 0..per_round {
            q.push((round, i));
        }

        for i in 0..per_round {
            assert_eq!(q.pop(), Some((round, i)));
        }

        assert_eq!(q.pop(), None);
    }
}

#[test]
fn default_queue_uses_public_ubq_type() {
    let mut q = queue::<u64>();
    q.push(9);
    assert_eq!(q.pop(), Some(9));
}

#[test]
fn queue_arc_constructor_uses_explicit_configuration() {
    let mut q: Arc<UBQ<u64>> = UBQ::new_arc(PAGE, 63);
    let q = Arc::get_mut(&mut q).expect("one owner");

    q.push(13);
    assert_eq!(q.pop(), Some(13));
}

#[test]
fn announced_positions_without_values_are_skipped() {
    let mut q: UBQ<u32> = UBQ::new(64, 5);
    q.push_announced(vec![1, 2], 4);
    q.push(3);
    assert_eq!(take(&mut q, 10), vec![1, 2, 3]);
    assert!(q.is_empty());
    q.push_announced(vec![7, 8, 9], 1);
    assert_eq!(take(&mut q, 10), vec![7]);
}

#[test]
fn runs_may_be_read_in_any_order() {
    let mut q: UBQ<u32> = UBQ::new(64, 4);
    q.push_batch((0..10).collect());
    let first = q.pop_batch(3);
    let second = q.pop_batch(4);
    assert_eq!(second.size_hint(), 4);
    let mut values = Vec::new();
    second.append_to_vec(&mut q, &mut values);
    assert_eq!(values, vec![3, 4, 5, 6]);
    let mut first = first;
    assert_eq!(first.next(&mut q), Some(0));
    assert_eq!(first.next(&mut q), Some(1));
    assert_eq!(first.next(&mut q), Some(2));
    assert_eq!(first.next(&mut q), None);
    assert_eq!(take(&mut q, 10), vec![7, 8, 9]);
}

#[test]
fn an_outdated_view_of_the_producers_limits_a_pop() {
    let mut q: UBQ<u32> = UBQ::new(64, 8);
    q.push_batch(vec![1, 2]);
    let seen = q.acquire_phead();
    q.push_batch(vec![3, 4]);
    let iter = q.pop_batch_seen(seen, 10);
    let mut values = Vec::new();
    iter.append_to_vec(&mut q, &mut values);
    assert_eq!(values, vec![1, 2]);
    assert_eq!(take(&mut q, 10), vec![3, 4]);
}

#[test]
fn growth_leaves_a_slot_for_the_head() {
    assert_eq!(growth(3, 0, false, 4), 0);
    assert_eq!(growth(4, 0, false, 4), 1);
    assert_eq!(growth(4, 0, true, 4), 0);
    assert_eq!(growth(9, 2, true, 4), 4);
}

#[test]
fn both_protocol_blocks_allocate_exactly_one_aligned_page() {
    let mpmc = BlockLayout::new(
        PAGE,
        HEADER,
        Shape {
            size: size_of::<Slot<u64>>(),
            align: align_of::<Slot<u64>>(),
        },
    );
    let spmc = BlockLayout::new(
        PAGE,
        Shape {
            size: 384,
            align: 128,
        },
        Shape { size: 8, align: 8 },
    );
    assert_eq!(mpmc.page, PAGE);
    assert_eq!(spmc.page, mpmc.page);

    for layout in [mpmc, spmc] {
        let codec = HeadCodec::new(layout.page, layout.slots_len);
        for id in 0..3 {
            let address = codec.address_of(id);
            assert_ne!(address, 0);
            assert_eq!(address % PAGE, 0);
            assert_eq!(codec.id_of(address), id);
        }
    }
}

#[test]
fn trailing_slots_are_aligned_and_maximal() {
    let header = Shape {
        size: 384,
        align: 128,
    };
    let slot = Shape {
        size: size_of::<u64>(),
        align: align_of::<u64>(),
    };
    let offset = slots_offset(header, slot);
    let layout = BlockLayout::new(PAGE, header, slot);
    assert_eq!(offset % align_of::<u64>(), 0);
    assert_eq!(slot.slot_stride(), size_of::<u64>());
    assert!(offset + layout.slots_len * slot.slot_stride() <= PAGE);
    assert!(offset + (layout.slots_len + 1) * slot.slot_stride() > PAGE);
}

fn seen<T>(outcome: TryNext<T>) -> (bool, Option<T>) {
    match outcome {
        TryNext::Value(value) => (true, Some(value)),
        TryNext::Wait => (false, None),
        TryNext::End => (true, None),
    }
}

#[test]
fn producers_write_in_any_order_and_consumers_read_in_order() {
    let mut queue: UBQ<u64> = UBQ::new(4096, 4);
    let mut first = queue.reserve_announced(vec![1, 2, 3], 3);
    let mut second = queue.reserve_announced(vec![10, 20, 30], 3);
    assert_eq!(first.size_hint(), 3);

    let mut reader = queue.pop_batch(6);
    assert_eq!(reader.size_hint(), 6);
    assert!(queue.is_empty());

    second.write(&mut queue);
    assert_eq!(seen(reader.try_next(&mut queue)), (false, None));
    first.write(&mut queue);
    assert_eq!(seen(reader.try_next(&mut queue)), (true, Some(1)));
    assert_eq!(seen(reader.try_next(&mut queue)), (false, None));
    first.write(&mut queue);
    first.write(&mut queue);
    assert_eq!(first.size_hint(), 0);
    assert_eq!(seen(reader.try_next(&mut queue)), (true, Some(2)));
    assert_eq!(seen(reader.try_next(&mut queue)), (true, Some(3)));
    assert_eq!(seen(reader.try_next(&mut queue)), (true, Some(10)));
    assert_eq!(seen(reader.try_next(&mut queue)), (false, None));
    second.write(&mut queue);
    second.write(&mut queue);
    assert_eq!(seen(reader.try_next(&mut queue)), (true, Some(20)));
    assert_eq!(seen(reader.try_next(&mut queue)), (true, Some(30)));
    assert_eq!(seen(reader.try_next(&mut queue)), (true, None));
    assert_eq!(queue.pop(), None);
}

#[test]
fn consumers_that_interleave_share_nothing() {
    let mut queue: UBQ<u64> = UBQ::new(4096, 2);
    let mut writer = queue.reserve_announced(vec![0, 1, 2, 3, 4], 6);
    let mut odd = queue.pop_batch(1);
    let mut rest = queue.pop_batch(9);
    assert_eq!(rest.size_hint(), 5);
    assert_eq!(seen(odd.try_next(&mut queue)), (false, None));
    while writer.size_hint() > 0 {
        writer.write(&mut queue);
    }
    for value in 1..5 {
        assert_eq!(rest.next(&mut queue), Some(value));
    }
    assert_eq!(odd.next(&mut queue), Some(0));
    assert_eq!(odd.next(&mut queue), None);
    // The sixth position was announced and got no value.
    assert_eq!(rest.next(&mut queue), None);
    assert_eq!(rest.size_hint(), 0);

    queue.push(7);
    assert_eq!(queue.pop(), Some(7));
}

#[test]
fn a_pop_passes_over_skipped_positions() {
    let mut q: UBQ<u32> = UBQ::new(64, 5);
    q.push_announced(vec![], 7);
    assert!(q.is_empty());
    assert_eq!(q.pop(), None);
    q.push_announced(vec![], 6);
    q.push_announced(vec![1], 3);
    q.push(2);
    assert!(!q.is_empty());
    assert_eq!(q.pop(), Some(1));
    assert!(!q.is_empty());
    assert_eq!(q.pop(), Some(2));
    assert!(q.is_empty());
    assert_eq!(q.pop(), None);
}

#[test]
fn a_reserved_position_is_no_empty_queue() {
    let mut q: UBQ<u32> = UBQ::new(64, 5);
    let mut reservation = q.reserve_announced(vec![], 1);
    assert!(!q.is_empty());
    reservation.write(&mut q);
    assert!(q.is_empty());
}
