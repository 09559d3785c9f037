//! The skiplist of `crossbeam_skiplist`, as a sorted map.
//!
//! An entry of the list is keyed by bytes and a rank; both sort upwards. Nothing here is proved:
//! each function makes one call, and its contract says what the call does to the contents of a
//! list that nobody else is changing.
use crate::order;
use crate::value::{Payload, ValueType};
use crossbeam_skiplist::SkipMap;
use std::ops::Bound;
use vstd::prelude::*;

verus! {

/// The lock-free skiplist.
#[verifier::external_type_specification]
#[verifier::external_body]
#[verifier::reject_recursive_types(K)]
#[verifier::reject_recursive_types(V)]
pub struct ExSkipMap<K, V>(crossbeam_skiplist::SkipMap<K, V>);

/// The list that a memtable keeps.
pub type List = SkipMap<(Vec<u8>, u64), (ValueType, Vec<u8>)>;

/// One entry of the list.
pub type Entry = ((Vec<u8>, u64), (ValueType, Vec<u8>));

/// Where an entry stands in the list: its bytes, then its rank.
pub type Place = (Seq<u8>, u64);

/// One end of a range.
pub enum RangeBound<T> {
    Included(T),
    Excluded(T),
    Unbounded,
}

/// What a list holds.
pub uninterp spec fn contents(list: List) -> Map<Place, Payload>;

/// The place of an entry.
pub open spec fn place_of(entry: Entry) -> Place {
    (entry.0.0@, entry.0.1)
}

/// The payload of an entry.
pub open spec fn payload_of(entry: Entry) -> Payload {
    (entry.1.0, entry.1.1@)
}

/// A place is not below the lower end of a range.
pub open spec fn above(lower: RangeBound<(Vec<u8>, u64)>, place: Place) -> bool {
    match lower {
        RangeBound::Included(end) => (end.0@, end.1) == place || order::precedes(
            (end.0@, end.1),
            place,
        ),
        RangeBound::Excluded(end) => order::precedes((end.0@, end.1), place),
        RangeBound::Unbounded => true,
    }
}

/// A place is not above the upper end of a range.
pub open spec fn below(place: Place, upper: RangeBound<(Vec<u8>, u64)>) -> bool {
    match upper {
        RangeBound::Included(end) => (end.0@, end.1) == place || order::precedes(
            place,
            (end.0@, end.1),
        ),
        RangeBound::Excluded(end) => order::precedes(place, (end.0@, end.1)),
        RangeBound::Unbounded => true,
    }
}

/// `entries` are exactly those of `held`, each once, in ascending order.
pub open spec fn enumerates(entries: Seq<Entry>, held: Map<Place, Payload>) -> bool {
    &&& forall|i: int, j: int|
        0 <= i < j < entries.len() ==> order::precedes(
            place_of(#[trigger] entries[i]),
            place_of(#[trigger] entries[j]),
        )
    &&& forall|i: int|
        0 <= i < entries.len() ==> held.contains_pair(
            place_of(#[trigger] entries[i]),
            payload_of(entries[i]),
        )
    &&& forall|place: Place| #[trigger]
        held.contains_key(place) ==> exists|i: int|
            0 <= i < entries.len() && place_of(#[trigger] entries[i]) == place
}

/// Calls `SkipMap::default`, which gives an empty list.
#[verifier::external_body]
pub(crate) fn empty() -> (list: List)
    ensures
        contents(list).dom() == Set::<Place>::empty(),
{
    SkipMap::default()
}

/// Calls `SkipMap::insert`, which adds an entry, in place of one with an equal key.
#[verifier::external_body]
pub(crate) fn insert(list: &mut List, key: (Vec<u8>, u64), value: (ValueType, Vec<u8>))
    ensures
        contents(*final(list)) == contents(*old(list)).insert(
            (key.0@, key.1),
            (value.0, value.1@),
        ),
{
    list.insert(key, value);
}

/// Calls `SkipMap::len`, which counts the entries.
#[verifier::external_body]
pub(crate) fn len(list: &List) -> (n: usize)
    ensures
        n == contents(*list).dom().len(),
{
    list.len()
}

/// Calls `SkipMap::is_empty`, which tells whether there is no entry.
#[verifier::external_body]
pub(crate) fn is_empty(list: &List) -> (vacant: bool)
    ensures
        vacant <==> contents(*list).dom() == Set::<Place>::empty(),
{
    list.is_empty()
}

/// Calls `SkipMap::iter`, which walks all entries in ascending order of their keys, and copies
/// them out.
#[verifier::external_body]
pub(crate) fn iter(list: &List) -> (entries: Vec<Entry>)
    ensures
        enumerates(entries@, contents(*list)),
{
    list.iter().map(|entry| (entry.key().clone(), entry.value().clone())).collect()
}

/// Calls `SkipMap::range`, which walks the entries whose keys lie between two ends in ascending
/// order of their keys, none if the ends cross, and copies them out.
#[verifier::external_body]
pub(crate) fn range(
    list: &List,
    lower: RangeBound<(Vec<u8>, u64)>,
    upper: RangeBound<(Vec<u8>, u64)>,
) -> (entries: Vec<Entry>)
    ensures
        enumerates(
            entries@,
            contents(*list).restrict(
                Set::new(|place: Place| above(lower, place) && below(place, upper)),
            ),
        ),
{
    let from = match lower {
        RangeBound::Included(end) => Bound::Included(end),
        RangeBound::Excluded(end) => Bound::Excluded(end),
        RangeBound::Unbounded => Bound::Unbounded,
    };
    let to = match upper {
        RangeBound::Included(end) => Bound::Included(end),
        RangeBound::Excluded(end) => Bound::Excluded(end),
        RangeBound::Unbounded => Bound::Unbounded,
    };
    list.range((from, to)).map(|entry| (entry.key().clone(), entry.value().clone())).collect()
}

/// Calls `SkipMap::range` with a lower end and takes the first entry that it walks to, if any:
/// the one with the lowest key that is not below the end.
#[verifier::external_body]
pub(crate) fn first_from(list: &List, lower: (Vec<u8>, u64)) -> (first: Option<Entry>)
    ensures
        match first {
            Some(entry) => {
                &&& contents(*list).contains_pair(place_of(entry), payload_of(entry))
                &&& above(RangeBound::Included(lower), place_of(entry))
                &&& forall|place: Place| #[trigger]
                    contents(*list).contains_key(place) && above(RangeBound::Included(lower), place)
                        ==> place == place_of(entry) || order::precedes(place_of(entry), place)
            },
            None => forall|place: Place| #[trigger]
                contents(*list).contains_key(place) ==> !above(RangeBound::Included(lower), place),
        },
{
    list.range(lower..).next().map(|entry| (entry.key().clone(), entry.value().clone()))
}

} // verus!
