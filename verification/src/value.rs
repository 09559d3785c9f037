//! Versioned keys, and the items that a memtable holds.
use crate::order;
use vstd::prelude::*;

verus! {

/// The number of a write. Higher is newer.
pub type SeqNo = u64;

/// A key as the user knows it.
pub type UserKey = Vec<u8>;

/// A value as the user knows it.
pub type UserValue = Vec<u8>;

/// What an item says of its key.
#[derive(Clone, Copy, Debug, PartialEq, Eq, Structural)]
pub enum ValueType {
    /// The key has a value.
    Value,
    /// The key was deleted.
    Tombstone,
}

/// A user key at one sequence number.
///
/// Internal keys are sorted by user key and, within one user key, from the newest to the oldest.
/// The value type does not matter for the order.
#[derive(Debug, PartialEq, Eq)]
pub struct InternalKey {
    pub user_key: UserKey,
    pub seqno: SeqNo,
    pub value_type: ValueType,
}

/// A user key at one sequence number, and what it holds there.
#[derive(Debug, PartialEq, Eq)]
pub struct InternalValue {
    pub key: InternalKey,
    pub value: UserValue,
}

/// What identifies an item: its user key and its sequence number.
pub type Version = (Seq<u8>, SeqNo);

/// What an item holds: its value type and its value.
pub type Payload = (ValueType, Seq<u8>);

/// `a` is sorted before `b`: by user key and, within one user key, the newer first.
pub open spec fn sorts_before(a: Version, b: Version) -> bool {
    order::bytes_lt(a.0, b.0) || (a.0 == b.0 && a.1 > b.1)
}

impl InternalKey {
    /// What identifies an item with this key.
    pub open spec fn version(self) -> Version {
        (self.user_key@, self.seqno)
    }

    /// A key at a sequence number.
    pub fn new(user_key: UserKey, seqno: SeqNo, value_type: ValueType) -> (key: InternalKey)
        ensures
            key.user_key == user_key,
            key.seqno == seqno,
            key.value_type == value_type,
    {
        InternalKey { user_key, seqno, value_type }
    }
}

impl Clone for InternalKey {
    fn clone(&self) -> (key: InternalKey)
        ensures
            key.version() == self.version(),
            key.user_key@ == self.user_key@,
            key.seqno == self.seqno,
            key.value_type == self.value_type,
    {
        InternalKey {
            user_key: vstd::slice::slice_to_vec(self.user_key.as_slice()),
            seqno: self.seqno,
            value_type: self.value_type,
        }
    }
}

impl Clone for InternalValue {
    fn clone(&self) -> (item: InternalValue)
        ensures
            item.version() == self.version(),
            item.payload() == self.payload(),
            item.key.user_key@ == self.key.user_key@,
            item.key.seqno == self.key.seqno,
            item.key.value_type == self.key.value_type,
            item.value@ == self.value@,
    {
        InternalValue {
            key: self.key.clone(),
            value: vstd::slice::slice_to_vec(self.value.as_slice()),
        }
    }
}

impl InternalValue {
    /// What identifies this item.
    pub open spec fn version(self) -> Version {
        self.key.version()
    }

    /// What this item holds.
    pub open spec fn payload(self) -> Payload {
        (self.key.value_type, self.value@)
    }

    /// What this item takes up, approximately: its bytes and the structure around them.
    pub open spec fn footprint(self) -> nat {
        self.key.user_key@.len() + self.value@.len() + vstd::layout::size_of::<InternalValue>()
    }

    /// An item from its parts.
    ///
    /// The last clause bounds the fixed part of every item's footprint, as the layout of any type
    /// is bounded.
    pub fn from_components(
        user_key: UserKey,
        value: UserValue,
        seqno: SeqNo,
        value_type: ValueType,
    ) -> (item: InternalValue)
        ensures
            item.version() == (user_key@, seqno),
            item.payload() == (value_type, value@),
            item.key.user_key == user_key,
            item.key.seqno == seqno,
            item.key.value_type == value_type,
            item.value == value,
            vstd::layout::size_of::<InternalValue>() <= isize::MAX,
    {
        vstd::layout::layout_for_type_is_valid::<InternalValue>();
        InternalValue { key: InternalKey::new(user_key, seqno, value_type), value }
    }
}

/// Every byte of an item counts once: an item takes up as many more bytes than another as its key
/// and its value are longer.
pub proof fn footprint_counts_every_byte(a: InternalValue, b: InternalValue)
    ensures
        a.footprint() - b.footprint() == (a.key.user_key@.len() - b.key.user_key@.len()) + (
        a.value@.len() - b.value@.len()),
{
}

/// An item takes up its bytes and the structure around them.
pub proof fn footprint_is_bytes_and_structure(item: InternalValue)
    ensures
        item.key.user_key@.len() == 0 && item.value@.len() == 0 ==> item.footprint()
            == vstd::layout::size_of::<InternalValue>(),
        item.footprint() == item.key.user_key@.len() + item.value@.len() + vstd::layout::size_of::<
            InternalValue,
        >(),
{
}

/// Two items are of the same version exactly when they have the same user key and the same
/// sequence number, and hold the same exactly when they have the same value type and value.
pub proof fn version_and_payload_are_the_whole_item(a: InternalValue, b: InternalValue)
    ensures
        a.version() == b.version() <==> a.key.user_key@ == b.key.user_key@ && a.key.seqno
            == b.key.seqno,
        a.payload() == b.payload() <==> a.key.value_type == b.key.value_type && a.value@ == b.value@,
{
}

/// Of two versions of one key, the newer sorts first.
pub proof fn newer_versions_sort_first(key: Seq<u8>, newer: SeqNo, older: SeqNo)
    ensures
        sorts_before((key, newer), (key, older)) <==> newer > older,
{
    order::lemma_bytes_lt_irreflexive(key);
}

/// Versions of different keys sort by their keys alone, whatever their sequence numbers.
pub proof fn different_keys_sort_by_key(a: Version, b: Version)
    requires
        a.0 != b.0,
    ensures
        sorts_before(a, b) <==> order::bytes_lt(a.0, b.0),
{
}

/// Of two different versions, one sorts before the other, and only one.
pub proof fn versions_are_totally_sorted(a: Version, b: Version)
    ensures
        a == b ==> !sorts_before(a, b),
        a != b ==> (sorts_before(a, b) <==> !sorts_before(b, a)),
{
    order::lemma_bytes_lt_irreflexive(a.0);
    order::lemma_bytes_lt_total(a.0, b.0);
    if order::bytes_lt(a.0, b.0) && order::bytes_lt(b.0, a.0) {
        order::lemma_bytes_lt_transitive(a.0, b.0, a.0);
    }
}

/// What sorts before something sorts before all that sorts after it.
pub proof fn sorting_is_transitive(a: Version, b: Version, c: Version)
    requires
        sorts_before(a, b),
        sorts_before(b, c),
    ensures
        sorts_before(a, c),
{
    if order::bytes_lt(a.0, b.0) && order::bytes_lt(b.0, c.0) {
        order::lemma_bytes_lt_transitive(a.0, b.0, c.0);
    }
}

} // verus!
