use lsm_tree::KeyFilter;

#[test]
fn probes_walk_one_block_from_the_low_half_of_the_hash() {
    assert_eq!((0, [0b1111, 0, 0, 0, 0, 0, 0, 0]), KeyFilter::probes_of(0));
    assert_eq!(
        (40, [0b11_1100, 0, 0, 0, 0, 0, 0, 0]),
        KeyFilter::probes_of(0x0000_0005_0001_0002)
    );
}

#[test]
fn probes_wrap_around_their_block_and_blocks_around_the_filter() {
    assert_eq!(
        (8, [0b111, 0, 0, 0, 0, 0, 0, 1 << 63]),
        KeyFilter::probes_of((16_385 << 32) | 511)
    );
    assert_eq!(
        (16_383 * 8, [0, 0, 0, 0, 0, 0, 0, 0b1111 << 60]),
        KeyFilter::probes_of(u64::MAX)
    );
}

#[test]
fn the_probes_of_a_key_are_those_of_its_hash() {
    // The 64-bit XXH3 hash of no bytes at all.
    assert_eq!(
        KeyFilter::probes_of(0x2d06_8005_38d3_94c2),
        KeyFilter::probes(b"")
    );
    assert_ne!(KeyFilter::probes(b""), KeyFilter::probes(b"a"));
}

#[test]
fn a_new_filter_holds_no_key() {
    let filter = KeyFilter::new();
    assert!(!filter.might_hold(b""));
    assert!(!filter.might_hold(b"abc"));
}

#[test]
fn a_key_that_was_set_is_held_whatever_follows() {
    let mut filter = KeyFilter::new();
    for n in 0..2_000u32 {
        filter.set(&n.to_le_bytes());
        assert!(filter.might_hold(&n.to_le_bytes()));
    }
    for n in 0..2_000u32 {
        assert!(filter.might_hold(&n.to_le_bytes()));
    }
}

#[test]
fn most_keys_that_were_not_set_are_not_held() {
    let mut filter = KeyFilter::new();
    for n in 0..1_000u32 {
        filter.set(&n.to_le_bytes());
    }
    let wrong = (1_000..3_000u32)
        .filter(|n| filter.might_hold(&n.to_le_bytes()))
        .count();
    assert!(wrong < 20, "{wrong} of 2000 keys were wrongly held");
}

#[test]
fn masks_are_held_only_where_they_were_set() {
    let mut filter = KeyFilter::new();
    let masks = [1, 0, 0, 0x8000_0000_0000_0000, 0, 6, 0, 0];
    filter.set_masks(16, &masks);
    assert!(filter.holds_masks(16, &masks));
    assert!(filter.holds_masks(16, &[0, 0, 0, 0, 0, 2, 0, 0]));
    assert!(!filter.holds_masks(16, &[0, 0, 0, 0, 0, 1, 0, 0]));
    assert!(!filter.holds_masks(24, &masks));
    assert!(filter.holds_masks(24, &[0; 8]));
}
