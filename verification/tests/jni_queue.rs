use ubq::jni::{
    exact_pop, ring_shape, valid_count, variant, Combine, JniQueue, DEFAULT_UBQ_VARIANT_ID,
    JNI_FALSE, JNI_TRUE, UBQ_VARIANT_COUNT,
};

const PAGE: usize = 4096;

fn default_queue() -> JniQueue {
    JniQueue::new(PAGE, DEFAULT_UBQ_VARIANT_ID).expect("the default variant")
}

fn pop_exact(queue: &mut JniQueue, how: Combine, count: i64) -> i64 {
    let rest = queue.pop_exact(exact_pop(how, count));
    assert_eq!(rest.left, 0);
    rest.value
}

#[test]
fn jni_exports_push_and_pop_values() {
    let mut queue = default_queue();

    queue.push(7);
    queue.push(8);

    assert_eq!(queue.pop_or(-1), 7);
    assert_eq!(queue.pop_or(-1), 8);
    assert_eq!(queue.pop_or(-1), -1);
}

#[test]
fn jni_exports_range_push_and_batch_pop() {
    let mut queue = default_queue();

    queue.push_range(10, 5);

    assert_eq!(queue.pop_batch(3), 3);
    assert_eq!(queue.pop_or(-1), 13);
    assert_eq!(queue.pop_or(-1), 14);
    assert_eq!(queue.pop_or(-1), -1);
}

#[test]
fn jni_exports_exact_native_loops() {
    let mut queue = default_queue();

    queue.push_constant_exact(3, 4);
    assert_eq!(pop_exact(&mut queue, Combine::Sum, 4), 12);

    queue.push_range_exact(1, 4);
    assert_eq!(pop_exact(&mut queue, Combine::Difference, 4), -10);

    queue.push_range_exact(1, 4);
    assert_eq!(pop_exact(&mut queue, Combine::And, 4), 0);
}

#[test]
fn jni_exports_all_configured_ubq_variants() {
    assert_eq!(
        variant(DEFAULT_UBQ_VARIANT_ID).unwrap().label(),
        "balanced,1,127,crossbeam"
    );
    let labels: Vec<String> = (0..UBQ_VARIANT_COUNT)
        .map(|id| variant(id).expect("variant").label())
        .collect();
    assert_eq!(
        labels,
        vec![
            "balanced,1,63,crossbeam",
            "balanced,1,127,crossbeam",
            "balanced,1,255,crossbeam",
            "balanced,1,31,crossbeam",
            "balanced,1,511,crossbeam",
            "balanced,1,127,yield",
        ]
    );

    for variant_id in 0..UBQ_VARIANT_COUNT {
        let mut queue = JniQueue::new(PAGE, variant_id).expect("variant");

        queue.push_range_exact(1, 4);
        assert_eq!(
            pop_exact(&mut queue, Combine::Sum, 4),
            10,
            "variant {variant_id}"
        );
    }

    assert!(JniQueue::new(PAGE, UBQ_VARIANT_COUNT).is_none());
}

#[test]
fn a_pop_that_finds_too_little_goes_on_later() {
    let mut queue = default_queue();
    queue.push_range_exact(1, 2);
    let rest = queue.pop_exact(exact_pop(Combine::Sum, 3));
    assert_eq!(rest.left, 1);
    assert_eq!(rest.value, 3);
    queue.push(4);
    let rest = queue.pop_exact(rest);
    assert_eq!(rest.left, 0);
    assert_eq!(rest.value, 7);
}

#[test]
fn the_same_range_goes_to_three_queues() {
    let (mut a, mut b, mut c) = (default_queue(), default_queue(), default_queue());
    JniQueue::push_range_to_three_exact(&mut a, &mut b, &mut c, -1, 3);
    for queue in [&mut a, &mut b, &mut c] {
        assert_eq!(queue.pop_or(9), -1);
        assert_eq!(queue.pop_or(9), 0);
        assert_eq!(queue.pop_or(9), 1);
        assert_eq!(queue.is_empty(), JNI_TRUE);
    }
}

#[test]
fn counts_that_are_not_valid_do_nothing() {
    let mut queue = default_queue();
    queue.push_range(1, -4);
    queue.push_range_exact(1, -4);
    queue.push_constant_exact(1, -4);
    assert_eq!(queue.is_empty(), JNI_TRUE);
    queue.push(1);
    assert_eq!(queue.is_empty(), JNI_FALSE);
    assert_eq!(queue.pop_batch(-1), 0);
    assert_eq!(exact_pop(Combine::Sum, -1).left, 0);
    assert_eq!(valid_count(-1), None);
    assert_eq!(valid_count(5), Some(5));
    assert!(!queue.yields());
}

#[test]
fn a_ring_has_two_blocks_more_than_its_values_need() {
    assert_eq!(ring_shape(64, 8), Some((10, 8)));
    assert_eq!(ring_shape(65, 8), Some((11, 8)));
    assert_eq!(ring_shape(0, 8), Some((2, 8)));
    assert_eq!(ring_shape(64, 0), None);
    assert_eq!(ring_shape(-1, 8), None);
}

#[test]
fn queue_accepts_explicit_backoff() {
    let yielding = 5;
    assert!(variant(yielding).expect("variant").yields);
    let mut queue = JniQueue::new(PAGE, yielding).expect("queue");

    queue.push(11);
    assert_eq!(pop_exact(&mut queue, Combine::Sum, 1), 11);
}
