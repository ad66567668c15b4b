use std::mem::{align_of, size_of};
use ubq::layout::{page_fits, slots_offset, BlockLayout, LayoutCache, Shape};
use ubq::page::PageSizeCache;
use ubq::slot::Slot;

const PAGE: usize = 4096;

/// A link and two padded counters.
const SPMC_HEADER: Shape = Shape {
    size: 384,
    align: 128,
};

/// A link and one padded counter.
const MPMC_HEADER: Shape = Shape {
    size: 256,
    align: 128,
};

fn shape<T>() -> Shape {
    Shape {
        size: size_of::<T>(),
        align: align_of::<T>(),
    }
}

fn spmc_length<T>() -> usize {
    BlockLayout::new(PAGE, SPMC_HEADER, shape::<T>()).slots_len
}

#[test]
fn spmc_slots_have_no_per_item_state_overhead() {
    assert_eq!(shape::<u64>().slot_stride(), size_of::<u64>());
    assert!(spmc_length::<u8>() > spmc_length::<u64>());
    assert_eq!(shape::<()>().slot_stride(), 1);
    assert!(spmc_length::<()>() >= spmc_length::<u8>());
}

#[test]
fn mpmc_and_spmc_share_the_block_but_keep_distinct_slot_protocols() {
    assert_eq!(
        shape::<Slot<u64>>().slot_stride(),
        size_of::<Slot<u64>>()
    );
    assert_eq!(shape::<u64>().slot_stride(), size_of::<u64>());
    let mpmc = BlockLayout::new(PAGE, MPMC_HEADER, shape::<Slot<u64>>()).slots_len;
    assert!(spmc_length::<u64>() > mpmc);
}

#[test]
fn page_size_is_usable_as_a_layout_alignment() {
    let mut cache = PageSizeCache::new();
    let size = cache.page_size(PAGE);
    assert!(size.is_power_of_two());
    assert!(core::alloc::Layout::from_size_align(size, size).is_ok());
}

#[test]
fn the_first_page_size_stays() {
    let mut cache = PageSizeCache::new();
    assert_eq!(cache.page_size(4096), 4096);
    assert_eq!(cache.page_size(16384), 4096);
}

#[test]
fn slots_begin_at_the_next_multiple_of_their_alignment() {
    let header = Shape { size: 20, align: 4 };
    assert_eq!(slots_offset(header, Shape { size: 16, align: 16 }), 32);
    assert_eq!(slots_offset(header, Shape { size: 4, align: 4 }), 20);
}

#[test]
fn a_page_that_is_too_small_does_not_fit() {
    let header = Shape { size: 64, align: 8 };
    assert!(page_fits(128, header, Shape { size: 64, align: 8 }));
    assert!(!page_fits(120, header, Shape { size: 64, align: 8 }));
    assert!(!page_fits(128, header, Shape { size: 0, align: 256 }));
}

#[test]
fn geometries_are_kept_once() {
    let mut cache = LayoutCache::new(PAGE);
    let layout = cache.layout(384, 8);
    assert_eq!(layout.slots_len, 464);
    assert_eq!(cache.find(384, 8, 0), (Some(layout), 1));
    // Somebody who looked when the bucket was empty finds the entry.
    assert_eq!(cache.publish(384, 8, 0), layout);
    assert_eq!(cache.find(384, 8, 0).1, 1);
    assert_eq!(cache.layout(384, 16).slots_len, 232);
}

#[test]
fn slots_follow_one_another() {
    let layout = BlockLayout::new(PAGE, SPMC_HEADER, Shape { size: 8, align: 8 });
    assert_eq!(layout.slot_at(384, 8, 0), 384);
    assert_eq!(layout.slot_at(384, 8, 463), 384 + 463 * 8);
}
