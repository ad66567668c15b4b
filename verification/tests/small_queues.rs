use crossbeam_queue::SegQueue;
use ubq::cursor::{ceil_log2, AtomicCursor, Cursor};
use ubq::inner::{PopClaim, Popping, I};
use ubq::packed::{high, low, merge, stab};
use ubq::sleepers::{Sleeper, Stage};
use ubq::sleepq::{NonBlockingQueue, SleepQ};

#[test]
fn cursors_count_offsets_and_then_versions() {
    let cursor: Cursor<4> = Cursor::for_version(2);
    assert_eq!(cursor.vsn(), 2);
    assert_eq!(cursor.off(), 0);
    let mut cursor = cursor;
    for _ in 0..15 {
        cursor = cursor.incr_off();
    }
    assert_eq!(cursor.off(), 15);
    let cursor = cursor.incr_off();
    assert_eq!(cursor.off(), 0);
    assert_eq!(cursor.vsn(), 3);
    let mut cell = AtomicCursor::new(cursor);
    assert_eq!(cell.fetch_add(1).into_raw(), 0x30);
    assert_eq!(cell.fetch_max(Cursor::from_raw(0x20)).into_raw(), 0x31);
    assert_eq!(cell.load().into_raw(), 0x31);
    cell.store(Cursor::from_raw(0x20));
    assert_eq!(cell.load().into_raw(), 0x20);
}

#[test]
fn logarithms_are_rounded_up() {
    assert_eq!(ceil_log2(0), 0);
    assert_eq!(ceil_log2(1), 0);
    assert_eq!(ceil_log2(2), 1);
    assert_eq!(ceil_log2(5), 3);
    assert_eq!(ceil_log2(8), 3);
}

#[test]
fn counters_are_packed_in_one_word() {
    let word = merge(3, 5);
    assert_eq!(high(word), 3);
    assert_eq!(low(word), 5);
    assert!(stab(merge(4, 4)));
    assert!(!stab(word));
}

#[test]
fn a_ring_of_blocks_keeps_the_order() {
    let mut queue: I<u32> = I::new();
    assert!(queue.is_empty());
    for round in 0..5 {
        for i in 0..100 {
            queue.push(round * 100 + i);
        }
        for i in 0..100 {
            assert_eq!(queue.pop(), Some(round * 100 + i));
        }
        assert_eq!(queue.pop(), None);
    }
}

#[test]
fn a_sleeping_queue_advises_to_sleep_when_it_is_empty() {
    let mut queue: SleepQ<SegQueue<u64>> = SleepQ::new();
    assert!(queue.is_empty());
    let mut sleeper = Sleeper::new();
    assert_eq!(queue.step(&mut sleeper), None);
    assert_eq!(sleeper.stage, Stage::Looking);
    assert_eq!(queue.step(&mut sleeper), None);
    assert_eq!(sleeper.stage, Stage::Asleep);
    queue.push(3);
    queue.push(4);
    assert!(!queue.is_empty());
    sleeper.woken();
    assert_eq!(queue.step(&mut sleeper), None);
    assert_eq!(sleeper.stage, Stage::Trying);
    assert_eq!(queue.step(&mut sleeper), Some(3));
    assert_eq!(sleeper.stage, Stage::Served);
    assert_eq!(queue.pop(), 4);
    assert_eq!(queue.try_pop(), None);
}

#[test]
fn the_segmented_queue_gives_back_what_was_pushed_in_order() {
    let mut queue: SegQueue<u64> = NonBlockingQueue::new();
    NonBlockingQueue::push(&mut queue, 7);
    NonBlockingQueue::push(&mut queue, 8);
    let mut wrapped = SleepQ::from_queue(queue);
    assert_eq!(wrapped.try_pop(), Some(7));
    let queue = wrapped.into_inner();
    assert!(!NonBlockingQueue::is_empty(&queue));
}

#[test]
fn any_queue_can_be_wrapped() {
    let mut queue: SleepQ<I<String>> = SleepQ::new();
    queue.push("a".to_string());
    assert_eq!(queue.pop(), "a");
}

fn slot(outcome: Popping) -> PopClaim {
    match outcome {
        Popping::Slot(claim) => claim,
        Popping::Wait => panic!("a producer is not done"),
        Popping::Empty => panic!("no value waits"),
    }
}

#[test]
fn consumers_wait_for_the_open_claims_of_their_block() {
    let mut queue: I<u32> = I::new();
    let first = queue.claim(1);
    let second = queue.claim(2);
    assert!(matches!(queue.claim_pop(), Popping::Wait));
    second.commit(&mut queue);
    assert!(matches!(queue.claim_pop(), Popping::Wait));
    first.commit(&mut queue);
    let one = slot(queue.claim_pop());
    let two = slot(queue.claim_pop());
    assert!(matches!(queue.claim_pop(), Popping::Empty));
    // The values are claimed and not read yet.
    assert!(!queue.is_empty());
    assert_eq!(two.read(&mut queue), 2);
    assert_eq!(one.read(&mut queue), 1);
    assert!(queue.is_empty());
}

#[test]
fn a_claim_in_a_later_block_does_not_hold_up_the_first() {
    let mut queue: I<u32> = I::new();
    for i in 0..32 {
        queue.push(i);
    }
    let open = queue.claim(32);
    for i in 0..32 {
        assert_eq!(queue.pop(), Some(i));
    }
    assert!(matches!(queue.claim_pop(), Popping::Wait));
    open.commit(&mut queue);
    assert_eq!(queue.pop(), Some(32));
    assert_eq!(queue.pop(), None);
}

#[test]
fn a_block_that_is_being_read_is_not_used_again() {
    let mut queue: I<u32> = I::new();
    for i in 0..32 {
        queue.push(i);
    }
    let slow = slot(queue.claim_pop());
    for i in 1..32 {
        assert_eq!(queue.pop(), Some(i));
    }
    // The first block still has a reader, so producers get a third one.
    for i in 32..64 {
        queue.push(i);
    }
    assert_eq!(slow.read(&mut queue), 0);
    for i in 32..64 {
        assert_eq!(queue.pop(), Some(i));
    }
    assert_eq!(queue.shrink(), Some(3));
    assert_eq!(queue.shrink(), None);
    queue.push(64);
    assert_eq!(queue.pop(), Some(64));
}

#[test]
fn a_caller_that_finds_a_value_on_its_last_look_does_not_sleep() {
    let mut queue: SleepQ<SegQueue<u64>> = SleepQ::new();
    let mut sleeper = Sleeper::new();
    assert_eq!(queue.step(&mut sleeper), None);
    queue.push(9);
    assert_eq!(queue.step(&mut sleeper), None);
    assert_eq!(sleeper.stage, Stage::Trying);
    assert_eq!(queue.step(&mut sleeper), Some(9));
}

#[test]
fn cursors_are_ordered_by_version_then_offset() {
    let words: [usize; 3] = [0x1f, 0x20, 0x21];
    let [a, b, c] = words.map(Cursor::<4>::from_raw);
    assert_eq!((a.vsn(), a.off()), (1, 15));
    assert!(a.into_raw() < b.into_raw() && b.into_raw() < c.into_raw());
    assert_eq!((b.vsn(), c.vsn(), c.off()), (2, 2, 1));
}
