use lsm_tree::{Pending, VisibleSeqno};

#[test]
fn a_lone_write_publishes_as_soon_as_it_finishes() {
    let mut gate = VisibleSeqno::default();

    let write = gate.begin(5);
    assert_eq!(0, gate.get(), "nothing is visible until something finishes");

    write.publish(&mut gate);
    assert_eq!(6, gate.get());
}

#[test]
fn a_write_still_applying_holds_the_watermark_below_itself() {
    let mut gate = VisibleSeqno::default();

    let slow = gate.begin(5);
    gate.begin(6).publish(&mut gate);

    assert!(
        gate.get() <= 5,
        "6 published past 5, which is still applying: a reader at {} is promised \
         rows that are not readable yet",
        gate.get()
    );

    slow.publish(&mut gate);
    assert_eq!(7, gate.get(), "with 5 landed, both are visible");
}

#[test]
fn finishing_out_of_order_never_exposes_a_gap() {
    let mut gate = VisibleSeqno::default();

    let slow = gate.begin(5);
    let pending: Vec<_> = (6..=8).map(|seqno| gate.begin(seqno)).collect();

    for write in pending {
        write.publish(&mut gate);
        assert!(gate.get() <= 5, "the watermark reached {}", gate.get());
    }

    slow.publish(&mut gate);
    assert_eq!(9, gate.get(), "the whole run becomes visible at once");
}

/// A write that fails still gives its number back.
#[test]
fn a_write_that_fails_does_not_freeze_the_watermark() {
    let mut gate = VisibleSeqno::default();

    let failed = gate.begin(5);
    let ok = gate.begin(6);

    failed.drop(&mut gate);
    ok.publish(&mut gate);

    assert_eq!(7, gate.get(), "a dropped write held the watermark");
}

#[test]
fn the_watermark_only_ever_moves_forward() {
    let mut gate = VisibleSeqno::default();

    gate.begin(5).publish(&mut gate);
    assert_eq!(6, gate.get());

    // A straggler beneath the watermark must not drag a reader backwards.
    gate.begin(3).publish(&mut gate);
    assert_eq!(6, gate.get(), "the watermark went backwards");
}

/// The invariant, over arbitrary interleavings.
#[test]
fn no_schedule_of_writers_exposes_a_write_that_has_not_landed() {
    let mut gate = VisibleSeqno::default();

    let mut next = 1u64;
    let mut outstanding: Vec<Pending> = Vec::new();
    let mut rng = 0x2545_F491_4F6C_DD1Du64;
    let mut finished = 0u64;

    for _ in 0..20_000 {
        rng ^= rng << 13;
        rng ^= rng >> 7;
        rng ^= rng << 17;

        if outstanding.is_empty() || rng % 3 != 0 {
            outstanding.push(gate.begin(next));
            next += 1;
        } else {
            let at = (rng >> 8) as usize % outstanding.len();
            outstanding.swap_remove(at).publish(&mut gate);
            finished += 1;
        }

        // A reader may see strictly below the lowest number still being applied.
        if let Some(lowest) = outstanding.iter().map(Pending::seqno).min() {
            assert!(
                gate.get() <= lowest,
                "watermark {} reaches {lowest}, which has not landed",
                gate.get(),
            );
        }
    }

    assert!(finished > 1_000, "the schedule barely finished anything: {finished}");
}

#[test]
fn the_very_first_number_holds_the_watermark_too() {
    let mut gate = VisibleSeqno::default();

    let first = gate.begin(0);
    gate.begin(1).publish(&mut gate);
    assert_eq!(0, gate.get(), "0 is still applying");

    first.publish(&mut gate);
    assert_eq!(2, gate.get());
}

#[test]
fn a_new_watermark_starts_where_it_was_recovered() {
    let mut gate = VisibleSeqno::new(40);
    assert_eq!(40, gate.get());

    gate.begin(7).publish(&mut gate);
    assert_eq!(40, gate.get());

    gate.begin(40).publish(&mut gate);
    assert_eq!(41, gate.get());
}

#[test]
fn restoring_raises_the_watermark_and_never_lowers_it() {
    let mut gate = VisibleSeqno::default();

    gate.restore(12);
    assert_eq!(12, gate.get());

    gate.restore(4);
    assert_eq!(12, gate.get());
}

#[test]
fn the_watermark_moves_up_to_the_lowest_number_in_flight() {
    let mut gate = VisibleSeqno::default();

    let low = gate.begin(5);
    let high = gate.begin(10);
    assert_eq!(5, low.seqno());
    assert_eq!(10, high.seqno());

    low.publish(&mut gate);
    assert_eq!(10, gate.get());

    high.publish(&mut gate);
    assert_eq!(11, gate.get());
}

#[test]
fn a_number_taken_twice_is_held_until_it_is_given_back_twice() {
    let mut gate = VisibleSeqno::default();

    let one = gate.begin(5);
    let other = gate.begin(5);
    one.publish(&mut gate);
    assert!(gate.get() <= 5, "the watermark reached {}", gate.get());

    gate.begin(7).publish(&mut gate);
    assert_eq!(5, gate.get());

    other.publish(&mut gate);
    assert_eq!(8, gate.get());
}

#[test]
fn a_number_taken_twice_and_given_back_twice_is_visible() {
    let mut gate = VisibleSeqno::default();

    let one = gate.begin(5);
    let other = gate.begin(5);
    one.publish(&mut gate);
    assert!(gate.get() <= 5);

    other.drop(&mut gate);
    assert_eq!(6, gate.get());
}

#[test]
fn a_recovery_between_writes_counts_for_the_quiet_watermark() {
    let mut gate = VisibleSeqno::new(2);

    gate.begin(4).publish(&mut gate);
    assert_eq!(5, gate.get());

    gate.restore(20);
    gate.begin(9).publish(&mut gate);
    assert_eq!(20, gate.get());

    gate.begin(30).publish(&mut gate);
    assert_eq!(31, gate.get());
}

#[test]
fn the_highest_number_of_all_cannot_be_passed() {
    let mut gate = VisibleSeqno::default();

    let last = gate.begin(u64::MAX);
    assert!(!last.can_publish(&gate));

    let other = gate.begin(3);
    assert!(last.can_publish(&gate));
    last.publish(&mut gate);
    assert_eq!(3, gate.get());
    assert!(!other.can_publish(&gate));
}

#[test]
fn a_write_is_published_where_it_began() {
    let mut gate = VisibleSeqno::default();
    let elsewhere = VisibleSeqno::default();

    let write = gate.begin(100);
    assert!(write.can_publish(&gate));
    assert!(!write.can_publish(&elsewhere));
    write.publish(&mut gate);
    assert_eq!(101, gate.get());
}
