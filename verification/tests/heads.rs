use ubq::dynamic::heads::{CHead, Excess, PHead, TOKEN_VALUE_MASK};
use ubq::dynamic::util::{new_filled_box_slice, usize_as_u16_or_max};

#[test]
fn producer_head_round_trips_token_and_excess() {
    let head = PHead {
        ptr: 0x1234_5678,
        token: 0xabcd,
        excess: Excess(u16::MAX),
        block_length: 0x1357,
        index: 0x2468,
    };

    assert!(PHead::from_u128(head.pack_u128()) == head);

    let low = PHead::from_u64(head.pack_u64());
    assert_eq!(low.ptr, 0);
    assert_eq!(low.token, head.token);
    assert_eq!(low.excess, head.excess);
    assert_eq!(low.block_length, head.block_length);
    assert_eq!(low.index, head.index);
    assert_eq!(head.pack_u64(), 0xabcd_ffff_1357_2468);
}

#[test]
fn producer_token_advances_with_the_pointer() {
    let head = PHead {
        token: u16::MAX,
        excess: Excess(19),
        ..PHead::from_ptr(1, 7)
    };

    let advanced = head.with_block(2, 11);

    assert_eq!(advanced.ptr, 2);
    assert_eq!(advanced.token, 0);
    assert_eq!(advanced.excess, Excess(8));
    assert_eq!(advanced.block_length, 11);
    assert_eq!(advanced.index, 0);
}

#[test]
fn consumer_head_round_trips_has_next_and_token() {
    let head = CHead {
        ptr: 0x1234_5678,
        block_length: 0x1357,
        has_next: true,
        index: 0x2468,
        token: TOKEN_VALUE_MASK,
    };

    assert!(CHead::from_u128(head.pack_u128()) == head);

    let low = CHead::from_u64(head.pack_u64());
    assert_eq!(low.ptr, 0);
    assert!(low.has_next);
    assert_eq!(low.token, head.token);
    assert_eq!(low.block_length, head.block_length);
    assert_eq!(low.index, head.index);
}

#[test]
fn excess_saturates() {
    let excess = Excess::default().add_capacity(17).add_capacity(usize::MAX);

    assert_eq!(excess.known_slots(), u16::MAX as usize);
    assert_eq!(excess.remove_block(u16::MAX), Excess::default());
}

#[test]
fn lengths_are_cut_to_sixteen_bits() {
    assert_eq!(usize_as_u16_or_max(7), 7);
    assert_eq!(usize_as_u16_or_max(70_000), u16::MAX);
    assert_eq!(new_filled_box_slice(|| 3u8, 2), vec![3, 3]);
}
