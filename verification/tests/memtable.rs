use lsm_tree::{InternalKey, InternalValue, Memtable, RangeBound, SeqNo, ValueType};

fn item(key: &[u8], value: &[u8], seqno: SeqNo) -> InternalValue {
    InternalValue::from_components(key.to_vec(), value.to_vec(), seqno, ValueType::Value)
}

fn versions(items: &[InternalValue]) -> Vec<(Vec<u8>, SeqNo)> {
    items
        .iter()
        .map(|item| (item.key.user_key.clone(), item.key.seqno))
        .collect()
}

#[test]
fn memtable_mvcc_point_read() {
    let mut memtable = Memtable::new(0, true);

    memtable.insert(InternalValue::from_components(
        b"hello-key-999991".to_vec(),
        b"hello-value-999991".to_vec(),
        0,
        ValueType::Value,
    ));

    let item = memtable.get(b"hello-key-99999", SeqNo::MAX);
    assert_eq!(None, item);

    let item = memtable.get(b"hello-key-999991", SeqNo::MAX);
    assert_eq!(b"hello-value-999991", &*item.unwrap().value);

    memtable.insert(InternalValue::from_components(
        b"hello-key-999991".to_vec(),
        b"hello-value-999991-2".to_vec(),
        1,
        ValueType::Value,
    ));

    let item = memtable.get(b"hello-key-99999", SeqNo::MAX);
    assert_eq!(None, item);

    let item = memtable.get(b"hello-key-999991", SeqNo::MAX);
    assert_eq!(b"hello-value-999991-2", &*item.unwrap().value);

    let item = memtable.get(b"hello-key-99999", 1);
    assert_eq!(None, item);

    let item = memtable.get(b"hello-key-999991", 1);
    assert_eq!(b"hello-value-999991", &*item.unwrap().value);

    let item = memtable.get(b"hello-key-99999", 2);
    assert_eq!(None, item);

    let item = memtable.get(b"hello-key-999991", 2);
    assert_eq!(b"hello-value-999991-2", &*item.unwrap().value);
}

#[test]
fn memtable_get() {
    let mut memtable = Memtable::new(0, true);

    let value =
        InternalValue::from_components(b"abc".to_vec(), b"abc".to_vec(), 0, ValueType::Value);

    memtable.insert(value.clone());

    assert_eq!(Some(value), memtable.get(b"abc", SeqNo::MAX));
}

#[test]
fn memtable_get_highest_seqno() {
    let mut memtable = Memtable::new(0, true);

    memtable.insert(InternalValue::from_components(
        b"abc".to_vec(),
        b"abc".to_vec(),
        0,
        ValueType::Value,
    ));
    memtable.insert(InternalValue::from_components(
        b"abc".to_vec(),
        b"abc".to_vec(),
        1,
        ValueType::Value,
    ));
    memtable.insert(InternalValue::from_components(
        b"abc".to_vec(),
        b"abc".to_vec(),
        2,
        ValueType::Value,
    ));
    memtable.insert(InternalValue::from_components(
        b"abc".to_vec(),
        b"abc".to_vec(),
        3,
        ValueType::Value,
    ));
    memtable.insert(InternalValue::from_components(
        b"abc".to_vec(),
        b"abc".to_vec(),
        4,
        ValueType::Value,
    ));

    assert_eq!(
        Some(InternalValue::from_components(
            b"abc".to_vec(),
            b"abc".to_vec(),
            4,
            ValueType::Value,
        )),
        memtable.get(b"abc", SeqNo::MAX)
    );
}

#[test]
fn memtable_get_prefix() {
    let mut memtable = Memtable::new(0, true);

    memtable.insert(InternalValue::from_components(
        b"abc0".to_vec(),
        b"abc".to_vec(),
        0,
        ValueType::Value,
    ));
    memtable.insert(InternalValue::from_components(
        b"abc".to_vec(),
        b"abc".to_vec(),
        255,
        ValueType::Value,
    ));

    assert_eq!(
        Some(InternalValue::from_components(
            b"abc".to_vec(),
            b"abc".to_vec(),
            255,
            ValueType::Value,
        )),
        memtable.get(b"abc", SeqNo::MAX)
    );

    assert_eq!(
        Some(InternalValue::from_components(
            b"abc0".to_vec(),
            b"abc".to_vec(),
            0,
            ValueType::Value,
        )),
        memtable.get(b"abc0", SeqNo::MAX)
    );
}

#[test]
fn memtable_get_old_version() {
    let mut memtable = Memtable::new(0, true);

    memtable.insert(InternalValue::from_components(
        b"abc".to_vec(),
        b"abc".to_vec(),
        0,
        ValueType::Value,
    ));
    memtable.insert(InternalValue::from_components(
        b"abc".to_vec(),
        b"abc".to_vec(),
        99,
        ValueType::Value,
    ));
    memtable.insert(InternalValue::from_components(
        b"abc".to_vec(),
        b"abc".to_vec(),
        255,
        ValueType::Value,
    ));

    assert_eq!(
        Some(InternalValue::from_components(
            b"abc".to_vec(),
            b"abc".to_vec(),
            255,
            ValueType::Value,
        )),
        memtable.get(b"abc", SeqNo::MAX)
    );

    assert_eq!(
        Some(InternalValue::from_components(
            b"abc".to_vec(),
            b"abc".to_vec(),
            99,
            ValueType::Value,
        )),
        memtable.get(b"abc", 100)
    );

    assert_eq!(
        Some(InternalValue::from_components(
            b"abc".to_vec(),
            b"abc".to_vec(),
            0,
            ValueType::Value,
        )),
        memtable.get(b"abc", 50)
    );
}

#[test]
fn a_new_memtable_is_empty() {
    for filtered in [false, true] {
        let memtable = Memtable::new(17, filtered);
        assert_eq!(17, memtable.id());
        assert_eq!(0, memtable.len());
        assert!(memtable.is_empty());
        assert_eq!(0, memtable.size());
        assert_eq!(None, memtable.get_highest_seqno());
        assert!(!memtable.is_flagged_for_rotation());
        assert_eq!(None, memtable.get(b"abc", SeqNo::MAX));
        assert!(memtable.iter().is_empty());
    }
}

#[test]
fn flagging_for_rotation_sticks() {
    let mut memtable = Memtable::new(0, false);
    memtable.flag_rotated();
    assert!(memtable.is_flagged_for_rotation());
    memtable.flag_rotated();
    assert!(memtable.is_flagged_for_rotation());
    assert_eq!(0, memtable.len());
}

#[test]
fn a_reader_sees_strictly_below_its_bound() {
    let mut memtable = Memtable::new(0, true);
    memtable.insert(item(b"abc", b"x", 7));
    assert_eq!(None, memtable.get(b"abc", 0));
    assert_eq!(None, memtable.get(b"abc", 7));
    assert_eq!(Some(item(b"abc", b"x", 7)), memtable.get(b"abc", 8));
}

#[test]
fn the_highest_sequence_number_is_out_of_every_readers_sight() {
    let mut memtable = Memtable::new(0, true);
    memtable.insert(item(b"abc", b"x", SeqNo::MAX));
    assert_eq!(None, memtable.get(b"abc", SeqNo::MAX));
    assert_eq!(Some(SeqNo::MAX), memtable.get_highest_seqno());
    assert_eq!(1, memtable.len());
}

#[test]
fn a_filter_changes_no_answer() {
    let mut plain = Memtable::new(0, false);
    let mut filtered = Memtable::new(1, true);
    for n in 0..200u64 {
        let key = (n % 40).to_be_bytes();
        plain.insert(item(&key, &n.to_be_bytes(), n));
        filtered.insert(item(&key, &n.to_be_bytes(), n));
    }
    for n in 0..80u64 {
        for bound in [0, 1, 40, 77, 200, SeqNo::MAX] {
            assert_eq!(
                plain.get(&n.to_be_bytes(), bound),
                filtered.get(&n.to_be_bytes(), bound)
            );
        }
    }
    assert_eq!(plain.iter(), filtered.iter());
}

#[test]
fn a_write_leaves_other_reads_alone() {
    let mut memtable = Memtable::new(0, true);
    memtable.insert(item(b"abc", b"old", 5));
    memtable.insert(item(b"abd", b"other", 6));
    memtable.insert(item(b"abc", b"new", 9));
    assert_eq!(Some(item(b"abc", b"old", 5)), memtable.get(b"abc", 9));
    assert_eq!(Some(item(b"abc", b"new", 9)), memtable.get(b"abc", 10));
    assert_eq!(Some(item(b"abd", b"other", 6)), memtable.get(b"abd", 100));
}

#[test]
fn a_tombstone_is_an_item_like_any_other() {
    let mut memtable = Memtable::new(0, true);
    memtable.insert(item(b"abc", b"x", 1));
    let tombstone =
        InternalValue::from_components(b"abc".to_vec(), Vec::new(), 2, ValueType::Tombstone);
    memtable.insert(tombstone.clone());
    assert_eq!(Some(tombstone), memtable.get(b"abc", 3));
    assert_eq!(Some(item(b"abc", b"x", 1)), memtable.get(b"abc", 2));
    assert_eq!(2, memtable.len());
}

#[test]
fn an_item_replaces_one_of_its_own_version() {
    let mut memtable = Memtable::new(0, true);
    memtable.insert(item(b"abc", b"x", 1));
    let tombstone =
        InternalValue::from_components(b"abc".to_vec(), b"yy".to_vec(), 1, ValueType::Tombstone);
    memtable.insert(tombstone.clone());
    assert_eq!(1, memtable.len());
    assert_eq!(vec![tombstone], memtable.iter());
    let overhead = std::mem::size_of::<InternalValue>() as u64;
    assert_eq!(9 + 2 * overhead, memtable.size());
}

#[test]
fn inserting_reports_the_sizes() {
    let mut memtable = Memtable::new(0, false);
    let overhead = std::mem::size_of::<InternalValue>() as u64;
    let first = item(b"abc", b"12345", 0);
    assert!(memtable.can_insert(&first));
    assert_eq!((8 + overhead, 8 + overhead), memtable.insert(first));
    assert_eq!(
        (1 + overhead, 9 + 2 * overhead),
        memtable.insert(item(b"z", b"", 1))
    );
    assert_eq!(9 + 2 * overhead, memtable.size());
}

#[test]
fn the_highest_sequence_number_is_kept() {
    let mut memtable = Memtable::new(0, false);
    memtable.insert(item(b"b", b"", 4));
    assert_eq!(Some(4), memtable.get_highest_seqno());
    memtable.insert(item(b"a", b"", 9));
    memtable.insert(item(b"c", b"", 6));
    assert_eq!(Some(9), memtable.get_highest_seqno());
}

#[test]
fn items_come_out_sorted() {
    let mut memtable = Memtable::new(0, false);
    memtable.insert(item(b"abcdef", b"", 6));
    memtable.insert(item(b"abc", b"", 3));
    memtable.insert(item(b"a", b"", 7));
    memtable.insert(item(b"abc", b"", 5));
    memtable.insert(item(b"b", b"", 1));
    memtable.insert(item(b"abc", b"", 4));
    assert_eq!(
        vec![
            (b"a".to_vec(), 7),
            (b"abc".to_vec(), 5),
            (b"abc".to_vec(), 4),
            (b"abc".to_vec(), 3),
            (b"abcdef".to_vec(), 6),
            (b"b".to_vec(), 1),
        ],
        versions(&memtable.iter())
    );
}

#[test]
fn a_range_holds_what_lies_between_its_ends() {
    let mut memtable = Memtable::new(0, false);
    for (key, seqno) in [("a", 7), ("abc", 5), ("abc", 4), ("abc", 3), ("b", 1)] {
        memtable.insert(item(key.as_bytes(), b"", seqno));
    }
    let key = |key: &str, seqno| InternalKey::new(key.into(), seqno, ValueType::Value);

    assert_eq!(
        vec![(b"abc".to_vec(), 4), (b"abc".to_vec(), 3)],
        versions(&memtable.range(
            RangeBound::Included(key("abc", 4)),
            RangeBound::Excluded(key("b", 1)),
        ))
    );
    assert_eq!(
        vec![(b"abc".to_vec(), 3), (b"b".to_vec(), 1)],
        versions(&memtable.range(
            RangeBound::Excluded(key("abc", 4)),
            RangeBound::Included(key("b", 1)),
        ))
    );
    assert_eq!(
        memtable.iter(),
        memtable.range(RangeBound::Unbounded, RangeBound::Unbounded)
    );
    // The ends cross.
    assert!(memtable
        .range(
            RangeBound::Included(key("b", 0)),
            RangeBound::Included(key("a", 0)),
        )
        .is_empty());
}

#[test]
fn a_point_read_is_the_head_of_a_range() {
    let mut memtable = Memtable::new(0, true);
    for (key, seqno) in [("a", 7), ("abc", 5), ("abc", 3), ("abcdef", 6)] {
        memtable.insert(item(key.as_bytes(), b"", seqno));
    }
    for bound in 1..9 {
        let from = InternalKey::new(b"abc".to_vec(), bound - 1, ValueType::Value);
        let head = memtable
            .range(RangeBound::Included(from), RangeBound::Unbounded)
            .into_iter()
            .next()
            .filter(|item| item.key.user_key == b"abc");
        assert_eq!(head, memtable.get(b"abc", bound));
    }
}

#[test]
fn there_is_one_item_for_each_entry() {
    let mut memtable = Memtable::new(0, true);
    for n in 0..50u64 {
        memtable.insert(item(&(n % 7).to_be_bytes(), b"", n % 11));
        assert_eq!(memtable.len(), memtable.iter().len());
    }
}

#[test]
fn inserts_of_different_versions_commute() {
    let mut one = Memtable::new(0, true);
    one.insert(item(b"abc", b"x", 3));
    one.insert(item(b"abc", b"y", 8));

    let mut other = Memtable::new(0, true);
    other.insert(item(b"abc", b"y", 8));
    other.insert(item(b"abc", b"x", 3));

    assert_eq!(one.iter(), other.iter());
    assert_eq!(one.size(), other.size());
    assert_eq!(one.get_highest_seqno(), other.get_highest_seqno());
}
