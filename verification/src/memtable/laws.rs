//! What holds of reads and writes of a memtable taken together.
use crate::hash;
use crate::memtable;
use crate::memtable::key_filter;
use crate::memtable::skiplist::RangeBound;
use crate::memtable::Table;
use crate::order;
use crate::value;
use crate::value::{InternalKey, InternalValue, Payload, SeqNo, Version};
use vstd::prelude::*;

verus! {

/// Two answers to one question are the same item, or both none. So what a reader finds depends
/// only on what the memtable holds, and not on whether it keeps a filter.
pub proof fn answers_agree(
    entries: Map<Version, Payload>,
    key: Seq<u8>,
    bound: SeqNo,
    a: Option<InternalValue>,
    b: Option<InternalValue>,
)
    requires
        memtable::is_answer(entries, key, bound, a),
        memtable::is_answer(entries, key, bound, b),
    ensures
        a is Some <==> b is Some,
        a is Some ==> a->0.version() == b->0.version() && a->0.payload() == b->0.payload(),
        a is Some ==> {
            &&& a->0.key.user_key@ == b->0.key.user_key@
            &&& a->0.key.seqno == b->0.key.seqno
            &&& a->0.key.value_type == b->0.key.value_type
            &&& a->0.value@ == b->0.value@
        },
{
    if a is Some {
        assert(entries.contains_key((key, a->0.key.seqno)));
    }
    if b is Some {
        assert(entries.contains_key((key, b->0.key.seqno)));
    }
}

/// A write is read back: once an item is inserted, a reader who sees it, and no newer version of
/// its key, finds exactly it. The reader just above its sequence number is always one.
pub proof fn write_is_read_back(
    table: Table,
    item: InternalValue,
    bound: SeqNo,
    answer: Option<InternalValue>,
)
    requires
        item.key.seqno < bound,
        forall|s: SeqNo|
            item.key.seqno < s < bound ==> !#[trigger] table.entries.contains_key(
                (item.key.user_key@, s),
            ),
        memtable::is_answer(table.insert(item).entries, item.key.user_key@, bound, answer),
    ensures
        answer is Some,
        answer->0.version() == item.version(),
        answer->0.payload() == item.payload(),
        answer->0.key.user_key@ == item.key.user_key@,
        answer->0.key.seqno == item.key.seqno,
        answer->0.key.value_type == item.key.value_type,
        answer->0.value@ == item.value@,
{
    let key = item.key.user_key@;
    let after = table.insert(item).entries;
    assert(after.contains_key((key, item.key.seqno)));
    if answer is Some {
        let found = answer->0.key.seqno;
        assert(after.contains_key((key, found)));
        if found != item.key.seqno {
            assert(table.entries.contains_key((key, found)));
        }
    }
}

/// An insert puts the item's value type and value under its user key and sequence number, changes
/// nothing else that is held, and adds the item's bytes and the structure around them to the size.
pub proof fn insert_touches_one_version(
    table: Table,
    item: InternalValue,
    key: Seq<u8>,
    seqno: SeqNo,
)
    ensures
        key == item.key.user_key@ && seqno == item.key.seqno ==> {
            &&& table.insert(item).entries.contains_key((key, seqno))
            &&& table.insert(item).entries[(key, seqno)].0 == item.key.value_type
            &&& table.insert(item).entries[(key, seqno)].1 == item.value@
        },
        key != item.key.user_key@ || seqno != item.key.seqno ==> {
            &&& table.insert(item).entries.contains_key((key, seqno))
                <==> table.entries.contains_key((key, seqno))
            &&& table.insert(item).entries[(key, seqno)] == table.entries[(key, seqno)]
        },
        table.insert(item).size == table.size + item.key.user_key@.len() + item.value@.len()
            + vstd::layout::size_of::<InternalValue>(),
        table.insert(item).id == table.id,
        table.insert(item).flagged == table.flagged,
        table.insert(item).filtered == table.filtered,
{
}

/// A write changes no other read: readers of other keys, and readers at or below its sequence
/// number, find what they found before.
pub proof fn write_disturbs_no_other_read(
    table: Table,
    item: InternalValue,
    key: Seq<u8>,
    bound: SeqNo,
    answer: Option<InternalValue>,
)
    requires
        key != item.key.user_key@ || bound <= item.key.seqno,
    ensures
        memtable::is_answer(table.entries, key, bound, answer) <==> memtable::is_answer(
            table.insert(item).entries,
            key,
            bound,
            answer,
        ),
{
    let before = table.entries;
    let after = table.insert(item).entries;
    assert forall|s: SeqNo| s < bound implies (#[trigger] before.contains_key((key, s))
        <==> after.contains_key((key, s))) && before[(key, s)] == after[(key, s)] by {}
    assert forall|s: SeqNo| s < bound implies (#[trigger] after.contains_key((key, s))
        <==> before.contains_key((key, s))) by {}
}

/// A filter stays exact: if it has the bits of the keys of a table and no others, then it does so
/// once an item is inserted and the bits of its key are set.
pub proof fn filter_follows_a_write(bits: Set<int>, table: Table, item: InternalValue)
    requires
        memtable::is_filter_of(bits, table.entries),
    ensures
        memtable::is_filter_of(
            bits.union(key_filter::bits_for(hash::xxh3_64_of(item.key.user_key@))),
            table.insert(item).entries,
        ),
{
    let added = key_filter::bits_for(hash::xxh3_64_of(item.key.user_key@));
    let after = table.insert(item).entries;
    assert forall|p: int| #[trigger] bits.union(added).contains(p) implies exists|version: Version|
     #[trigger]
        after.contains_key(version) && key_filter::bits_for(hash::xxh3_64_of(version.0)).contains(
            p,
        ) by {
        if added.contains(p) {
            assert(after.contains_key(item.version()));
        } else {
            assert(bits.contains(p));
            let version = choose|version: Version| #[trigger]
                table.entries.contains_key(version) && key_filter::bits_for(
                    hash::xxh3_64_of(version.0),
                ).contains(p);
            assert(after.contains_key(version));
        }
    }
}

/// The order of two inserts of different versions does not matter.
pub proof fn inserts_commute(table: Table, a: InternalValue, b: InternalValue)
    requires
        a.version() != b.version(),
    ensures
        table.insert(a).insert(b) == table.insert(b).insert(a),
{
    assert(table.insert(a).insert(b) =~= table.insert(b).insert(a));
}

/// The table after a history of inserts.
pub open spec fn after_all(table: Table, items: Seq<InternalValue>) -> Table
    decreases items.len(),
{
    if items.len() == 0 {
        table
    } else {
        after_all(table, items.drop_last()).insert(items.last())
    }
}

/// Item `i` of a history is the last one of its version.
pub open spec fn is_last_of_version(items: Seq<InternalValue>, i: int) -> bool {
    &&& 0 <= i < items.len()
    &&& forall|j: int| i < j < items.len() ==> (#[trigger] items[j]).version() != items[i].version()
}

/// Two items agree in everything: user key, sequence number, value type and value.
pub open spec fn is_same_item(a: InternalValue, b: InternalValue) -> bool {
    &&& a.key.user_key@ == b.key.user_key@
    &&& a.key.seqno == b.key.seqno
    &&& a.key.value_type == b.key.value_type
    &&& a.value@ == b.value@
}

/// No item after number `i` of a history has both its user key and its sequence number.
pub open spec fn is_not_replaced(items: Seq<InternalValue>, i: int) -> bool {
    forall|j: int|
        i < j < items.len() ==> (#[trigger] items[j]).key.user_key@ != items[i].key.user_key@
            || items[j].key.seqno != items[i].key.seqno
}

/// `item` is one that a history inserted and did not replace.
pub open spec fn is_from_history(items: Seq<InternalValue>, item: InternalValue) -> bool {
    exists|k: int|
        0 <= k < items.len() && is_same_item(#[trigger] items[k], item) && is_not_replaced(items, k)
}

/// One of `items` has this user key and this sequence number.
pub open spec fn is_among(items: Seq<InternalValue>, key: Seq<u8>, seqno: SeqNo) -> bool {
    exists|i: int|
        0 <= i < items.len() && (#[trigger] items[i]).key.user_key@ == key && items[i].key.seqno
            == seqno
}

proof fn lemma_last_is_not_replaced(items: Seq<InternalValue>, i: int)
    requires
        0 <= i < items.len(),
    ensures
        is_last_of_version(items, i) <==> is_not_replaced(items, i),
{
    assert forall|j: int| i < j < items.len() implies ((#[trigger] items[j]).version()
        != items[i].version() <==> items[j].key.user_key@ != items[i].key.user_key@
        || items[j].key.seqno != items[i].key.seqno) by {}
    if is_not_replaced(items, i) {
        assert forall|j: int| i < j < items.len() implies (#[trigger] items[j]).version()
            != items[i].version() by {}
    }
}

/// An item that was inserted is held, unless a later one of the same version replaced it.
pub proof fn inserted_is_held(table: Table, items: Seq<InternalValue>, i: int)
    requires
        0 <= i < items.len(),
    ensures
        after_all(table, items).entries.contains_key(items[i].version()),
        is_last_of_version(items, i) ==> after_all(table, items).entries[items[i].version()]
            == items[i].payload(),
    decreases items.len(),
{
    if i < items.len() - 1 {
        let shorter = items.drop_last();
        inserted_is_held(table, shorter, i);
        assert(shorter[i] == items[i]);
        if is_last_of_version(items, i) {
            assert(items[items.len() - 1].version() != items[i].version());
            assert forall|j: int| i < j < shorter.len() implies (#[trigger] shorter[j]).version()
                != shorter[i].version() by {
                assert(shorter[j] == items[j]);
            }
        }
    }
}

/// A table that was empty holds only what was inserted.
pub proof fn held_was_inserted(table: Table, items: Seq<InternalValue>, version: Version) -> (i: int)
    requires
        table.entries.dom() == Set::<Version>::empty(),
        after_all(table, items).entries.contains_key(version),
    ensures
        is_last_of_version(items, i),
        items[i].version() == version,
    decreases items.len(),
{
    if items.len() == 0 {
        assert(table.entries.dom().contains(version));
        0
    } else if items.last().version() == version {
        items.len() - 1
    } else {
        let shorter = items.drop_last();
        let i = held_was_inserted(table, shorter, version);
        assert forall|j: int| i < j < items.len() implies (#[trigger] items[j]).version()
            != items[i].version() by {
            if j < shorter.len() {
                assert(shorter[j] == items[j]);
            }
        }
        i
    }
}

/// A read sees the whole history below its bound, and nothing else: after any inserts into an
/// empty memtable, in any order, a reader at `bound` finds an item that was inserted for the key,
/// the last of its version and of the highest sequence number below the bound; or nothing, if
/// none was inserted for the key below the bound.
pub proof fn reads_see_the_history(
    table: Table,
    items: Seq<InternalValue>,
    key: Seq<u8>,
    bound: SeqNo,
    answer: Option<InternalValue>,
)
    requires
        table.entries.dom() == Set::<Version>::empty(),
        memtable::is_answer(after_all(table, items).entries, key, bound, answer),
    ensures
        match answer {
            Some(found) => {
                &&& found.key.user_key@ == key
                &&& found.key.seqno < bound
                &&& exists|i: int| #[trigger]
                    is_last_of_version(items, i) && items[i].version() == found.version()
                        && items[i].payload() == found.payload()
                &&& is_from_history(items, found)
                &&& forall|j: int|
                    0 <= j < items.len() && (#[trigger] items[j]).key.user_key@ == key
                        && items[j].key.seqno < bound ==> items[j].key.seqno <= found.key.seqno
            },
            None => forall|j: int|
                0 <= j < items.len() ==> (#[trigger] items[j]).key.user_key@ != key
                    || items[j].key.seqno >= bound,
        },
{
    let entries = after_all(table, items).entries;
    assert forall|j: int| 0 <= j < items.len() implies entries.contains_key(
        (#[trigger] items[j]).version(),
    ) by {
        inserted_is_held(table, items, j);
    }
    if answer is Some {
        let found = answer->0;
        assert(entries.contains_key((key, found.key.seqno)));
        let i = held_was_inserted(table, items, found.version());
        inserted_is_held(table, items, i);
        assert(is_same_item(items[i], found));
        lemma_last_is_not_replaced(items, i);
    }
}

/// The bytes of all keys and values of a history.
pub open spec fn bytes_in(items: Seq<InternalValue>) -> int
    decreases items.len(),
{
    if items.len() == 0 {
        0
    } else {
        bytes_in(items.drop_last()) + items.last().key.user_key@.len() + items.last().value@.len()
    }
}

/// What a table takes up is what all the items it was given take up.
pub proof fn size_adds_up(table: Table, items: Seq<InternalValue>)
    ensures
        after_all(table, items).size == table.size + items.map_values(
            |item: InternalValue| item.footprint() as int,
        ).fold_right(|size: int, sum: int| size + sum, 0),
        after_all(table, items).size == table.size + bytes_in(items) + items.len()
            * vstd::layout::size_of::<InternalValue>(),
    decreases items.len(),
{
    let footprint = |item: InternalValue| item.footprint() as int;
    let add_up = |size: int, sum: int| size + sum;
    if items.len() > 0 {
        size_adds_up(table, items.drop_last());
        let sizes = items.map_values(footprint);
        assert(sizes.drop_last() =~= items.drop_last().map_values(footprint));
        lemma_sum_from(sizes.drop_last(), items.last().footprint() as int);
        let structure = vstd::layout::size_of::<InternalValue>() as int;
        let n = items.len() as int;
        assert(n * structure == (n - 1) * structure + structure) by (nonlinear_arith);
    }
}

proof fn lemma_sum_from(sizes: Seq<int>, start: int)
    ensures
        sizes.fold_right(|size: int, sum: int| size + sum, start) == start + sizes.fold_right(
            |size: int, sum: int| size + sum,
            0,
        ),
    decreases sizes.len(),
{
    if sizes.len() > 0 {
        lemma_sum_from(sizes.drop_last(), sizes.last() + start);
        lemma_sum_from(sizes.drop_last(), sizes.last());
    }
}

/// A point read is the head of a range: the item that a reader at `bound` finds is the first of
/// those from the version just below the bound on, if that one has the key; and otherwise nothing.
pub proof fn read_is_head_of_range(
    entries: Map<Version, Payload>,
    from: InternalKey,
    bound: SeqNo,
    items: Seq<InternalValue>,
)
    requires
        from.seqno + 1 == bound,
        memtable::is_listing(
            items,
            entries.restrict(
                Set::new(
                    |version: Version| memtable::key_above(RangeBound::Included(from), version),
                ),
            ),
        ),
    ensures
        memtable::is_answer(
            entries,
            from.user_key@,
            bound,
            if items.len() > 0 && items[0].key.user_key@ == from.user_key@ {
                Some(items[0])
            } else {
                None
            },
        ),
{
    let key = from.user_key@;
    let listed = entries.restrict(
        Set::new(|version: Version| memtable::key_above(RangeBound::Included(from), version)),
    );
    order::lemma_bytes_lt_irreflexive(key);
    assert forall|s: SeqNo| s < bound && #[trigger] entries.contains_key((key, s)) implies {
        &&& items.len() > 0
        &&& items[0].key.user_key@ == key
        &&& s <= items[0].key.seqno
    } by {
        assert(listed.contains_key((key, s)));
        let i = choose|i: int| 0 <= i < items.len() && (#[trigger] items[i]).version() == (key, s);
        let first = items[0].version();
        assert(listed.contains_pair(first, items[0].payload()));
        if i > 0 {
            assert(value::sorts_before(items[0].version(), items[i].version()));
            if order::bytes_lt(first.0, key) {
                if order::bytes_lt(key, first.0) {
                    order::lemma_bytes_lt_transitive(key, first.0, key);
                }
            }
        }
    }
    if items.len() > 0 {
        assert(listed.contains_pair(items[0].version(), items[0].payload()));
    }
}

/// There is one listing: two listings of the same entries have the same items in the same order.
pub proof fn listing_is_unique(
    entries: Map<Version, Payload>,
    a: Seq<InternalValue>,
    b: Seq<InternalValue>,
    i: int,
)
    requires
        memtable::is_listing(a, entries),
        memtable::is_listing(b, entries),
        0 <= i < a.len(),
    ensures
        i < b.len(),
        a[i].version() == b[i].version(),
        a[i].payload() == b[i].payload(),
    decreases i,
{
    assert forall|k: int| 0 <= k < i implies k < b.len() && (#[trigger] a[k]).version()
        == b[k].version() by {
        listing_is_unique(entries, a, b, k);
    }
    let x = a[i].version();
    assert(entries.contains_pair(x, a[i].payload()));
    let j = choose|j: int| 0 <= j < b.len() && (#[trigger] b[j]).version() == x;
    if j < i {
        assert(value::sorts_before(a[j].version(), a[i].version()));
        lemma_sorts_before_asymmetric(a[j].version(), a[i].version());
    } else if j > i {
        let y = b[i].version();
        assert(value::sorts_before(b[i].version(), b[j].version()));
        assert(entries.contains_pair(y, b[i].payload()));
        let k = choose|k: int| 0 <= k < a.len() && (#[trigger] a[k]).version() == y;
        lemma_sorts_before_asymmetric(y, x);
        if k < i {
            assert(value::sorts_before(b[k].version(), b[i].version()));
            lemma_sorts_before_asymmetric(b[k].version(), b[i].version());
        } else if k > i {
            assert(value::sorts_before(a[i].version(), a[k].version()));
        }
    }
    assert(entries.contains_pair(b[i].version(), b[i].payload()));
}

/// A listing has one item for each entry, so all items are as many as the memtable counts.
pub proof fn listing_has_every_entry_once(
    entries: Map<Version, Payload>,
    items: Seq<InternalValue>,
)
    requires
        memtable::is_listing(items, entries),
    ensures
        entries.dom().finite(),
        items.len() == entries.dom().len(),
{
    let versions = items.map_values(|item: InternalValue| item.version());
    assert(versions.no_duplicates()) by {
        assert forall|i: int, j: int| 0 <= i < j < versions.len() implies versions[i]
            != versions[j] by {
            assert(value::sorts_before(items[i].version(), items[j].version()));
            lemma_sorts_before_asymmetric(items[i].version(), items[j].version());
        }
    }
    assert(versions.to_set() =~= entries.dom()) by {
        assert forall|version: Version| entries.dom().contains(
            version,
        ) implies versions.to_set().contains(version) by {
            assert(entries.contains_key(version));
            let i = choose|i: int|
                0 <= i < items.len() && (#[trigger] items[i]).version() == version;
            assert(versions[i] == version);
        }
        assert forall|version: Version| versions.to_set().contains(
            version,
        ) implies entries.dom().contains(version) by {
            let i = choose|i: int| 0 <= i < versions.len() && versions[i] == version;
            assert(entries.contains_pair(items[i].version(), items[i].payload()));
        }
    }
    versions.unique_seq_to_set();
}

/// No two versions sort before each other.
proof fn lemma_sorts_before_asymmetric(a: Version, b: Version)
    requires
        value::sorts_before(a, b),
    ensures
        !value::sorts_before(b, a),
        a != b,
{
    order::lemma_bytes_lt_irreflexive(a.0);
    if order::bytes_lt(a.0, b.0) && order::bytes_lt(b.0, a.0) {
        order::lemma_bytes_lt_transitive(a.0, b.0, a.0);
    }
}

/// What a table that was empty holds after a history: the user keys and sequence numbers of the
/// items that were inserted, and no others. So it counts them, each once.
pub proof fn held_versions_are_those_inserted(table: Table, items: Seq<InternalValue>)
    requires
        table.entries.dom() == Set::<Version>::empty(),
    ensures
        after_all(table, items).entries.dom() == items.map_values(
            |item: InternalValue| (item.key.user_key@, item.key.seqno),
        ).to_set(),
{
    let entries = after_all(table, items).entries;
    let versions = items.map_values(|item: InternalValue| (item.key.user_key@, item.key.seqno));
    assert forall|version: Version| entries.dom().contains(version) implies versions.to_set().contains(
        version,
    ) by {
        let i = held_was_inserted(table, items, version);
        assert(versions[i] == version);
    }
    assert forall|version: Version| versions.to_set().contains(version) implies entries.dom().contains(
        version,
    ) by {
        let i = choose|i: int| 0 <= i < versions.len() && versions[i] == version;
        inserted_is_held(table, items, i);
    }
    assert(entries.dom() =~= versions.to_set());
}

/// The highest sequence number is that of an item that was inserted, and none was higher.
pub proof fn highest_is_of_the_history(table: Table, items: Seq<InternalValue>, seqno: SeqNo)
    requires
        table.entries.dom() == Set::<Version>::empty(),
        memtable::is_highest(after_all(table, items).entries, seqno),
    ensures
        exists|i: int| 0 <= i < items.len() && (#[trigger] items[i]).key.seqno == seqno,
        forall|i: int| 0 <= i < items.len() ==> (#[trigger] items[i]).key.seqno <= seqno,
{
    let entries = after_all(table, items).entries;
    let version = choose|version: Version| #[trigger]
        entries.contains_key(version) && version.1 == seqno;
    let i = held_was_inserted(table, items, version);
    assert(items[i].key.seqno == seqno);
    assert forall|j: int| 0 <= j < items.len() implies (#[trigger] items[j]).key.seqno <= seqno by {
        inserted_is_held(table, items, j);
        assert(entries.contains_key(items[j].version()));
    }
}

/// A filter of what a memtable holds has exactly the bits of the keys that were inserted.
pub proof fn filter_is_of_the_history(
    table: Table,
    items: Seq<InternalValue>,
    bits: Set<int>,
    p: int,
)
    requires
        table.entries.dom() == Set::<Version>::empty(),
        memtable::is_filter_of(bits, after_all(table, items).entries),
    ensures
        bits.contains(p) <==> exists|i: int|
            0 <= i < items.len() && key_filter::bits_for(
                hash::xxh3_64_of((#[trigger] items[i]).key.user_key@),
            ).contains(p),
{
    let entries = after_all(table, items).entries;
    if bits.contains(p) {
        let version = choose|version: Version| #[trigger]
            entries.contains_key(version) && key_filter::bits_for(
                hash::xxh3_64_of(version.0),
            ).contains(p);
        let i = held_was_inserted(table, items, version);
        assert(items[i].key.user_key@ == version.0);
    }
    if exists|i: int|
        0 <= i < items.len() && key_filter::bits_for(
            hash::xxh3_64_of((#[trigger] items[i]).key.user_key@),
        ).contains(p) {
        let i = choose|i: int|
            0 <= i < items.len() && key_filter::bits_for(
                hash::xxh3_64_of((#[trigger] items[i]).key.user_key@),
            ).contains(p);
        inserted_is_held(table, items, i);
        assert(entries.contains_key(items[i].version()));
    }
}

/// A user key and sequence number do not come before the lower end of a range, nor are they the
/// end itself where it is left out.
pub open spec fn is_from(lower: RangeBound<InternalKey>, key: Seq<u8>, seqno: SeqNo) -> bool {
    match lower {
        RangeBound::Included(end) => !value::sorts_before((key, seqno), (end.user_key@, end.seqno)),
        RangeBound::Excluded(end) => value::sorts_before((end.user_key@, end.seqno), (key, seqno)),
        RangeBound::Unbounded => true,
    }
}

/// A user key and sequence number do not come after the upper end of a range, nor are they the end
/// itself where it is left out.
pub open spec fn is_up_to(upper: RangeBound<InternalKey>, key: Seq<u8>, seqno: SeqNo) -> bool {
    match upper {
        RangeBound::Included(end) => !value::sorts_before((end.user_key@, end.seqno), (key, seqno)),
        RangeBound::Excluded(end) => value::sorts_before((key, seqno), (end.user_key@, end.seqno)),
        RangeBound::Unbounded => true,
    }
}

/// What the ends of a range mean, for every key and sequence number.
pub proof fn ends_of_a_range(bound: RangeBound<InternalKey>, key: Seq<u8>, seqno: SeqNo)
    ensures
        memtable::key_above(bound, (key, seqno)) <==> is_from(bound, key, seqno),
        memtable::key_below((key, seqno), bound) <==> is_up_to(bound, key, seqno),
{
    match bound {
        RangeBound::Included(end) => {
            value::versions_are_totally_sorted((end.user_key@, end.seqno), (key, seqno));
        },
        _ => {},
    }
}

/// An end divides: a version is from a key on exactly when it is not before that key, and past a
/// key exactly when it is not up to it.
pub proof fn an_end_divides(end: InternalKey, version: Version)
    ensures
        memtable::key_above(RangeBound::Included(end), version) <==> !memtable::key_below(
            version,
            RangeBound::Excluded(end),
        ),
        memtable::key_above(RangeBound::Excluded(end), version) <==> !memtable::key_below(
            version,
            RangeBound::Included(end),
        ),
        memtable::key_above(RangeBound::Included(end), (end.user_key@, end.seqno)),
        memtable::key_below((end.user_key@, end.seqno), RangeBound::Included(end)),
        memtable::key_above(RangeBound::Unbounded, version),
        memtable::key_below(version, RangeBound::Unbounded),
{
    value::versions_are_totally_sorted((end.user_key@, end.seqno), version);
    value::versions_are_totally_sorted((end.user_key@, end.seqno), (end.user_key@, end.seqno));
}

/// Where a range starts at or before a key's version, it holds every older version of that key, up
/// to the upper end. In particular a range from a key at the highest sequence number on holds every
/// version of that key.
pub proof fn range_holds_older_versions(end: InternalKey, seqno: SeqNo)
    ensures
        memtable::key_above(RangeBound::Included(end), (end.user_key@, seqno)) <==> seqno
            <= end.seqno,
        memtable::key_above(RangeBound::Excluded(end), (end.user_key@, seqno)) <==> seqno
            < end.seqno,
        memtable::key_below((end.user_key@, seqno), RangeBound::Included(end)) <==> seqno
            >= end.seqno,
        memtable::key_below((end.user_key@, seqno), RangeBound::Excluded(end)) <==> seqno
            > end.seqno,
{
    order::lemma_bytes_lt_irreflexive(end.user_key@);
}

/// Versions of other keys are in a range by their keys alone.
pub proof fn range_goes_by_key(end: InternalKey, key: Seq<u8>, seqno: SeqNo)
    requires
        key != end.user_key@,
    ensures
        memtable::key_above(RangeBound::Included(end), (key, seqno)) <==> order::bytes_lt(
            end.user_key@,
            key,
        ),
        memtable::key_above(RangeBound::Excluded(end), (key, seqno)) <==> order::bytes_lt(
            end.user_key@,
            key,
        ),
        memtable::key_below((key, seqno), RangeBound::Included(end)) <==> order::bytes_lt(
            key,
            end.user_key@,
        ),
        memtable::key_below((key, seqno), RangeBound::Excluded(end)) <==> order::bytes_lt(
            key,
            end.user_key@,
        ),
{
}

/// A range shows the history between its ends, and nothing else: after any inserts into an empty
/// memtable, its items are those that were inserted and not replaced and lie between the ends, each
/// once, by user key and, within one user key, from the newest to the oldest.
pub proof fn range_shows_the_history(
    table: Table,
    items: Seq<InternalValue>,
    lower: RangeBound<InternalKey>,
    upper: RangeBound<InternalKey>,
    listed: Seq<InternalValue>,
)
    requires
        table.entries.dom() == Set::<Version>::empty(),
        memtable::is_listing(
            listed,
            after_all(table, items).entries.restrict(
                Set::new(
                    |version: Version|
                        memtable::key_above(lower, version) && memtable::key_below(version, upper),
                ),
            ),
        ),
    ensures
        forall|i: int, j: int|
            0 <= i < j < listed.len() ==> order::bytes_lt(
                (#[trigger] listed[i]).key.user_key@,
                (#[trigger] listed[j]).key.user_key@,
            ) || (listed[i].key.user_key@ == listed[j].key.user_key@ && listed[i].key.seqno
                > listed[j].key.seqno),
        forall|i: int|
            0 <= i < listed.len() ==> {
                &&& is_from(lower, (#[trigger] listed[i]).key.user_key@, listed[i].key.seqno)
                &&& is_up_to(upper, listed[i].key.user_key@, listed[i].key.seqno)
                &&& is_from_history(items, listed[i])
            },
        forall|k: int|
            0 <= k < items.len() && is_from(
                lower,
                (#[trigger] items[k]).key.user_key@,
                items[k].key.seqno,
            ) && is_up_to(upper, items[k].key.user_key@, items[k].key.seqno) ==> is_among(
                listed,
                items[k].key.user_key@,
                items[k].key.seqno,
            ),
{
    let entries = after_all(table, items).entries;
    let between = entries.restrict(
        Set::new(
            |version: Version|
                memtable::key_above(lower, version) && memtable::key_below(version, upper),
        ),
    );
    assert forall|i: int, j: int| 0 <= i < j < listed.len() implies order::bytes_lt(
        (#[trigger] listed[i]).key.user_key@,
        (#[trigger] listed[j]).key.user_key@,
    ) || (listed[i].key.user_key@ == listed[j].key.user_key@ && listed[i].key.seqno
        > listed[j].key.seqno) by {
        assert(value::sorts_before(listed[i].version(), listed[j].version()));
    }
    assert forall|i: int| 0 <= i < listed.len() implies {
        &&& is_from(lower, (#[trigger] listed[i]).key.user_key@, listed[i].key.seqno)
        &&& is_up_to(upper, listed[i].key.user_key@, listed[i].key.seqno)
        &&& is_from_history(items, listed[i])
    } by {
        assert(between.contains_pair(listed[i].version(), listed[i].payload()));
        ends_of_a_range(lower, listed[i].key.user_key@, listed[i].key.seqno);
        ends_of_a_range(upper, listed[i].key.user_key@, listed[i].key.seqno);
        let k = held_was_inserted(table, items, listed[i].version());
        inserted_is_held(table, items, k);
        lemma_last_is_not_replaced(items, k);
        assert(is_same_item(items[k], listed[i]));
    }
    assert forall|k: int|
        0 <= k < items.len() && is_from(
            lower,
            (#[trigger] items[k]).key.user_key@,
            items[k].key.seqno,
        ) && is_up_to(upper, items[k].key.user_key@, items[k].key.seqno) implies is_among(
        listed,
        items[k].key.user_key@,
        items[k].key.seqno,
    ) by {
        inserted_is_held(table, items, k);
        ends_of_a_range(lower, items[k].key.user_key@, items[k].key.seqno);
        ends_of_a_range(upper, items[k].key.user_key@, items[k].key.seqno);
        assert(between.contains_key(items[k].version()));
        let i = choose|i: int|
            0 <= i < listed.len() && (#[trigger] listed[i]).version() == items[k].version();
        assert(listed[i].key.user_key@ == items[k].key.user_key@);
    }
}

/// All items together show the whole history: those that were inserted and not replaced, each once,
/// by user key and, within one user key, from the newest to the oldest.
pub proof fn listing_shows_the_history(
    table: Table,
    items: Seq<InternalValue>,
    listed: Seq<InternalValue>,
)
    requires
        table.entries.dom() == Set::<Version>::empty(),
        memtable::is_listing(listed, after_all(table, items).entries),
    ensures
        forall|i: int, j: int|
            0 <= i < j < listed.len() ==> order::bytes_lt(
                (#[trigger] listed[i]).key.user_key@,
                (#[trigger] listed[j]).key.user_key@,
            ) || (listed[i].key.user_key@ == listed[j].key.user_key@ && listed[i].key.seqno
                > listed[j].key.seqno),
        forall|i: int|
            0 <= i < listed.len() ==> is_from_history(items, #[trigger] listed[i]),
        forall|k: int|
            0 <= k < items.len() ==> is_among(
                listed,
                (#[trigger] items[k]).key.user_key@,
                items[k].key.seqno,
            ),
{
    let entries = after_all(table, items).entries;
    let all = RangeBound::<InternalKey>::Unbounded;
    let everything = entries.restrict(
        Set::new(
            |version: Version|
                memtable::key_above(all, version) && memtable::key_below(version, all),
        ),
    );
    assert(everything =~= entries);
    range_shows_the_history(table, items, all, all, listed);
}

/// Two ranges that meet at a key make up everything: what comes before the key, followed by what is
/// from it on, lists all entries.
pub proof fn ranges_that_meet_list_everything(
    entries: Map<Version, Payload>,
    end: InternalKey,
    before: Seq<InternalValue>,
    from: Seq<InternalValue>,
)
    requires
        memtable::is_listing(
            before,
            entries.restrict(
                Set::new(
                    |version: Version|
                        memtable::key_above(RangeBound::Unbounded, version) && memtable::key_below(
                            version,
                            RangeBound::Excluded(end),
                        ),
                ),
            ),
        ),
        memtable::is_listing(
            from,
            entries.restrict(
                Set::new(
                    |version: Version|
                        memtable::key_above(RangeBound::Included(end), version)
                            && memtable::key_below(version, RangeBound::Unbounded),
                ),
            ),
        ),
    ensures
        memtable::is_listing(before + from, entries),
{
    let low = entries.restrict(
        Set::new(
            |version: Version|
                memtable::key_above(RangeBound::Unbounded, version) && memtable::key_below(
                    version,
                    RangeBound::Excluded(end),
                ),
        ),
    );
    let high = entries.restrict(
        Set::new(
            |version: Version|
                memtable::key_above(RangeBound::Included(end), version) && memtable::key_below(
                    version,
                    RangeBound::Unbounded,
                ),
        ),
    );
    let all = before + from;
    let n = before.len() as int;
    assert forall|i: int| 0 <= i < all.len() implies entries.contains_pair(
        (#[trigger] all[i]).version(),
        all[i].payload(),
    ) by {
        if i < n {
            assert(low.contains_pair(before[i].version(), before[i].payload()));
        } else {
            assert(high.contains_pair(from[i - n].version(), from[i - n].payload()));
        }
    }
    assert forall|i: int, j: int| 0 <= i < j < all.len() implies value::sorts_before(
        (#[trigger] all[i]).version(),
        (#[trigger] all[j]).version(),
    ) by {
        if j < n {
            assert(value::sorts_before(before[i].version(), before[j].version()));
        } else if i >= n {
            assert(value::sorts_before(from[i - n].version(), from[j - n].version()));
        } else {
            assert(low.contains_pair(before[i].version(), before[i].payload()));
            assert(high.contains_pair(from[j - n].version(), from[j - n].payload()));
            if end.version() != from[j - n].version() {
                value::sorting_is_transitive(
                    before[i].version(),
                    end.version(),
                    from[j - n].version(),
                );
            }
        }
    }
    assert forall|version: Version| #[trigger] entries.contains_key(version) implies exists|i: int|
        0 <= i < all.len() && (#[trigger] all[i]).version() == version by {
        an_end_divides(end, version);
        if memtable::key_below(version, RangeBound::Excluded(end)) {
            assert(low.contains_key(version));
            let i = choose|i: int|
                0 <= i < before.len() && (#[trigger] before[i]).version() == version;
            assert(all[i].version() == version);
        } else {
            assert(high.contains_key(version));
            let i = choose|i: int|
                0 <= i < from.len() && (#[trigger] from[i]).version() == version;
            assert(all[n + i].version() == version);
        }
    }
}

} // verus!
