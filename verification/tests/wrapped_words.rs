use ubq::block::header::HeaderControl;
use ubq::block::wrapped_u64::{WrappedU64, WrappedU64Components};
use ubq::block::{Block, ReserveError};

#[test]
fn new_to_get_components_symmetry() {
    for bits in 0u8..=56 {
        let index_max = (1u64 << bits) - 1;
        let version_max = (1u64 << (56 - bits)) - 1;

        let mut index_candidates = vec![0, index_max];
        if index_max > 1 {
            index_candidates.push(index_max / 2);
        }

        let mut version_candidates = vec![0, version_max];
        if version_max > 1 {
            version_candidates.push(version_max / 2);
        }

        index_candidates.sort_unstable();
        index_candidates.dedup();
        version_candidates.sort_unstable();
        version_candidates.dedup();

        for index in index_candidates.iter().copied() {
            for version in version_candidates.iter().copied() {
                let wrapped = WrappedU64::new(bits, version, index).unwrap_or_else(|| {
                    panic!("invalid input bits={bits}, version={version}, index={index}")
                });

                assert_eq!(
                    WrappedU64Components {
                        bits,
                        version,
                        index
                    },
                    wrapped.get_components(),
                    "mismatch for bits={bits}, version={version}, index={index}"
                );
            }
        }
    }
}

fn assert_capacity(c: usize) {
    let bits = WrappedU64::for_capacity(c).get_bits();
    let mask = if bits == 0 { 0 } else { (1usize << bits) - 1 };
    assert_eq!(
        c & mask,
        c,
        "capacity {c} does not fit mask {mask:#x} (bits={bits})"
    );
}

#[test]
fn capacity_fits_index() {
    // Exhaustive over small capacities to catch simple regressions.
    for c in 0usize..=0x1000 {
        assert_capacity(c);
    }

    // Sample around every power-of-two boundary that fits in 56 bits (the
    // maximum supported index width).
    let max_shift = usize::BITS.min(56) - 1;
    let mut shift = 1u32;
    while shift <= max_shift {
        let pow = 1usize << shift;
        for c in [
            pow.saturating_sub(2),
            pow.saturating_sub(1),
            pow,
            pow.saturating_add(1),
            pow.saturating_add(2),
        ] {
            assert_capacity(c);
        }
        shift += 1;
    }

    // Hit the upper edge of the supported range explicitly.
    let max_supported = if usize::BITS >= 56 {
        (1usize << 56) - 1
    } else {
        usize::MAX
    };
    for c in [
        max_supported.saturating_sub(2),
        max_supported.saturating_sub(1),
        max_supported,
    ] {
        assert_capacity(c);
    }
}

#[test]
fn get_components_matches_accessors() {
    for bits in 0u8..=56 {
        let index_max = (1u64 << bits) - 1;
        let version_max = (1u64 << (56 - bits)) - 1;

        let mut index_candidates = vec![0u64];
        if index_max <= usize::MAX as u64 {
            index_candidates.push(index_max);
            if index_max > 1 {
                index_candidates.push(index_max / 2);
            }
        } else {
            let usize_max = usize::MAX as u64;
            index_candidates.push(usize_max);
            if usize_max > 1 {
                index_candidates.push(usize_max / 2);
            }
        }

        let mut version_candidates = vec![0u64, version_max];
        if version_max > 1 {
            version_candidates.push(version_max / 2);
        }

        index_candidates.sort_unstable();
        index_candidates.dedup();
        version_candidates.sort_unstable();
        version_candidates.dedup();

        for index in index_candidates.iter().copied() {
            for version in version_candidates.iter().copied() {
                let wrapped = WrappedU64::new(bits, version, index).unwrap_or_else(|| {
                    panic!("invalid input bits={bits}, version={version}, index={index}")
                });
                let components = wrapped.get_components();

                assert_eq!(
                    components.bits,
                    wrapped.get_bits(),
                    "bits mismatch for bits={bits}, version={version}, index={index}"
                );
                assert_eq!(
                    components.version,
                    wrapped.get_version(),
                    "version mismatch for bits={bits}, version={version}, index={index}"
                );
                assert_eq!(
                    components.index as u64,
                    wrapped.get_index() as u64,
                    "index mismatch for bits={bits}, version={version}, index={index}"
                );
            }
        }
    }
}

#[test]
fn raw_layout_manual_cases() {
    let cases = [
        (0u8, 0u64, 0u64, 0x0000_0000_0000_0000u64),
        (1u8, 1u64, 1u64, 0x0100_0000_0000_0003u64),
        (8u8, 0x1234_5678_9ABCu64, 0x5Au64, 0x0812_3456_789A_BC5Au64),
        (
            56u8,
            0u64,
            0x00FF_FFFF_FFFF_FFFFu64,
            0x38FF_FFFF_FFFF_FFFFu64,
        ),
    ];

    for (bits, version, index, raw) in cases {
        let wrapped = WrappedU64::new(bits, version, index).unwrap_or_else(|| {
            panic!("invalid input bits={bits}, version={version}, index={index}")
        });
        assert_eq!(
            raw,
            wrapped.get_raw(),
            "raw mismatch for bits={bits}, version={version}, index={index}"
        );

        let components = WrappedU64::from_raw(raw).get_components();
        assert_eq!(
            WrappedU64Components {
                bits,
                version,
                index
            },
            components,
            "components mismatch for raw={raw:#x}"
        );
    }
}

#[test]
fn raw_round_trip_boundaries() {
    for bits in [0u8, 1, 2, 7, 8, 9, 31, 32, 55, 56] {
        let index_max = if bits == 0 { 0 } else { (1u64 << bits) - 1 };
        let version_max = (1u64 << (56 - bits)) - 1;

        let index_candidates = [0u64, index_max, index_max / 2];
        let version_candidates = [0u64, version_max, version_max / 2];

        for index in index_candidates {
            for version in version_candidates {
                let wrapped = WrappedU64::new(bits, version, index).unwrap();
                let raw = wrapped.get_raw();
                let from_raw = WrappedU64::from_raw(raw);
                assert_eq!(
                    wrapped.get_components(),
                    from_raw.get_components(),
                    "round trip mismatch bits={bits}, version={version}, index={index}"
                );
                assert_eq!(
                    raw,
                    WrappedU64::new(bits, version, index).unwrap().get_raw()
                );
            }
        }
    }
}

#[test]
fn test() {
    let pgive = WrappedU64::new(9, 0, 256).unwrap();
    let cgive = WrappedU64Components {
        bits: 9,
        version: 0,
        index: 256,
    };
    let len = 256;
    let pgive_vsn = pgive.get_version();
    assert!(
        pgive_vsn < cgive.version
            || (pgive_vsn == cgive.version && cgive.index as usize >= len)
    );
    match pgive.bump_version_wrapping() {
        Ok(fetch) => assert_eq!(fetch.get_version(), 1),
        Err(_) => panic!("the version has room"),
    }
}

#[test]
fn a_block_is_filled_and_drained_in_laps() {
    let mut block: Block<u32> = Block::new(2, 4);
    assert_eq!(block.len(), 2);
    for lap in 0..3u32 {
        let first = block.allocate().expect("first");
        let second = block.allocate().expect("second");
        assert!(block.allocate().is_none());
        first.write(&mut block, lap);
        second.write(&mut block, lap + 10);
        let one = block.reserve().ok().expect("one");
        assert_eq!(one.read(&mut block), lap);
        let two = block.reserve().ok().expect("two");
        assert_eq!(two.read(&mut block), lap + 10);
        assert!(matches!(block.reserve(), Err(ReserveError::BlockDone)));
        assert!(block.reset_pcon());
        assert!(block.reset_ccon());
    }
}

#[test]
fn an_index_that_does_not_fit_is_refused() {
    assert!(WrappedU64::new(3, 0, 8).is_none());
    assert!(WrappedU64::new(57, 0, 0).is_none());
    assert_eq!(WrappedU64::max_index_for_bits(3), 7);
    let _ = HeaderControl::for_capacity(4);
}

#[test]
fn laps_start_over_when_the_versions_run_out() {
    // An index of fifty-four bits leaves two for the version.
    let mut block: Block<u32> = Block::new(1, 1 << 53);
    for lap in 0..3u32 {
        let slot = block.allocate().expect("slot");
        assert!(block.allocate().is_none());
        slot.write(&mut block, lap);
        let slot = block.reserve().ok().expect("value");
        assert_eq!(slot.read(&mut block), lap);
        assert!(block.reset_pcon());
        assert!(block.reset_ccon());
    }
    // The third lap was the last version, and both sides began again.
    let slot = block.allocate().expect("slot");
    slot.write(&mut block, 9);
    let slot = block.reserve().ok().expect("value");
    assert_eq!(slot.read(&mut block), 9);

    let mut none: Block<u32> = Block::new(0, 4);
    assert!(none.reset_ccon());
}

#[test]
fn a_block_is_shown_with_its_counters() {
    let mut block: Block<u32> = Block::new(2, 4);
    let slot = block.allocate().expect("slot");
    slot.write(&mut block, 1);
    let text = block.debug("0x10");
    assert!(text.starts_with("0x10: {l: 2, p: "));
    assert!(text.contains("0:1/1 (t/g), c: "));
    assert!(text.ends_with("0:0/0 (t/g)}"));
}
