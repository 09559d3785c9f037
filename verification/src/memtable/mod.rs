//! The memtable: sorted, ephemeral storage for new items.
pub mod key_filter;
pub mod laws;
pub mod skiplist;

use crate::hash;
use crate::memtable::key_filter::KeyFilter;
use crate::memtable::skiplist::{Entry, List, Place, RangeBound};
use crate::order;
use crate::value;
use crate::value::{InternalKey, InternalValue, Payload, SeqNo, Version};
use vstd::prelude::*;

verus! {

/// Names a memtable among those of its tree.
pub type MemtableId = u64;

/// What a memtable is, mathematically.
#[verifier::ext_equal]
pub struct Table {
    /// Its name.
    pub id: MemtableId,
    /// What it holds, by user key and sequence number.
    pub entries: Map<Version, Payload>,
    /// What all the items it was ever given take up, approximately.
    pub size: int,
    /// It was flagged for rotation.
    pub flagged: bool,
    /// It keeps a filter of its keys.
    pub filtered: bool,
}

impl Table {
    /// The table with one more item, which replaces one of the same version.
    pub open spec fn insert(self, item: InternalValue) -> Table {
        Table {
            entries: self.entries.insert(item.version(), item.payload()),
            size: self.size + item.footprint(),
            ..self
        }
    }
}

/// Of the versions of `key` that are older than `bound`, `seqno` is the newest.
pub open spec fn is_newest_below(
    entries: Map<Version, Payload>,
    key: Seq<u8>,
    bound: SeqNo,
    seqno: SeqNo,
) -> bool {
    &&& seqno < bound
    &&& entries.contains_key((key, seqno))
    &&& forall|s: SeqNo| s < bound && #[trigger] entries.contains_key((key, s)) ==> s <= seqno
}

/// `answer` is what a reader who sees strictly below `bound` finds at `key`: the newest version
/// below the bound, or nothing if there is none.
pub open spec fn is_answer(
    entries: Map<Version, Payload>,
    key: Seq<u8>,
    bound: SeqNo,
    answer: Option<InternalValue>,
) -> bool {
    match answer {
        Some(item) => {
            &&& item.key.user_key@ == key
            &&& is_newest_below(entries, key, bound, item.key.seqno)
            &&& item.payload() == entries[(key, item.key.seqno)]
        },
        None => forall|s: SeqNo| s < bound ==> !#[trigger] entries.contains_key((key, s)),
    }
}

/// `items` are exactly those of `entries`, each once, sorted by user key and, within one user
/// key, from the newest to the oldest.
pub open spec fn is_listing(items: Seq<InternalValue>, entries: Map<Version, Payload>) -> bool {
    &&& forall|i: int, j: int|
        0 <= i < j < items.len() ==> value::sorts_before(
            (#[trigger] items[i]).version(),
            (#[trigger] items[j]).version(),
        )
    &&& forall|i: int|
        0 <= i < items.len() ==> entries.contains_pair(
            (#[trigger] items[i]).version(),
            items[i].payload(),
        )
    &&& forall|version: Version| #[trigger]
        entries.contains_key(version) ==> exists|i: int|
            0 <= i < items.len() && (#[trigger] items[i]).version() == version
}

/// A version is not below the lower end of a range of keys.
pub open spec fn key_above(lower: RangeBound<InternalKey>, version: Version) -> bool {
    match lower {
        RangeBound::Included(key) => key.version() == version || value::sorts_before(
            key.version(),
            version,
        ),
        RangeBound::Excluded(key) => value::sorts_before(key.version(), version),
        RangeBound::Unbounded => true,
    }
}

/// A version is not above the upper end of a range of keys.
pub open spec fn key_below(version: Version, upper: RangeBound<InternalKey>) -> bool {
    match upper {
        RangeBound::Included(key) => key.version() == version || value::sorts_before(
            version,
            key.version(),
        ),
        RangeBound::Excluded(key) => value::sorts_before(version, key.version()),
        RangeBound::Unbounded => true,
    }
}

/// `seqno` is the highest sequence number of `entries`.
pub open spec fn is_highest(entries: Map<Version, Payload>, seqno: SeqNo) -> bool {
    &&& exists|version: Version| #[trigger] entries.contains_key(version) && version.1 == seqno
    &&& forall|version: Version| #[trigger] entries.contains_key(version) ==> version.1 <= seqno
}

/// `bits` are exactly those that the user keys of `entries` have in a filter.
pub open spec fn is_filter_of(bits: Set<int>, entries: Map<Version, Payload>) -> bool {
    &&& forall|version: Version| #[trigger]
        entries.contains_key(version) ==> key_filter::bits_for(
            hash::xxh3_64_of(version.0),
        ).subset_of(bits)
    &&& forall|p: int| #[trigger]
        bits.contains(p) ==> exists|version: Version| #[trigger]
            entries.contains_key(version) && key_filter::bits_for(
                hash::xxh3_64_of(version.0),
            ).contains(p)
}

/// The place in the list of a version: newer versions of a key rank lower.
spec fn place(version: Version) -> Place {
    (version.0, (u64::MAX - version.1) as u64)
}

/// What a list holds, by version.
spec fn by_version(list: Map<Place, Payload>) -> Map<Version, Payload> {
    Map::new(|version: Version| list.contains_key(place(version)), |version: Version| list[place(version)])
}

/// The memtable serves as an intermediary, ephemeral, sorted storage for new items.
///
/// When the memtable exceeds some size, it should be flushed to a table.
pub struct Memtable {
    pub id: MemtableId,
    /// The actual content.
    ///
    /// A place in the list is a user key and the distance of the sequence number from the
    /// highest there is, so that the newest version of a key comes first.
    items: List,
    /// Approximate memtable size.
    ///
    /// If this grows too large, a flush is triggered.
    approximate_size: u64,
    /// Highest encountered sequence number.
    ///
    /// This is used so that `get_highest_seqno` has O(1) complexity.
    highest_seqno: SeqNo,
    requested_rotation: bool,
    /// A filter is only worth its write cost to a tree whose point reads miss, so it is a choice.
    filter: Option<KeyFilter>,
}

impl View for Memtable {
    type V = Table;

    closed spec fn view(&self) -> Table {
        Table {
            id: self.id,
            entries: by_version(skiplist::contents(self.items)),
            size: self.approximate_size as int,
            flagged: self.requested_rotation,
            filtered: self.filter is Some,
        }
    }
}

impl Memtable {
    /// The memtable knows its highest sequence number, and its filter, if it keeps one, has the
    /// bits of its keys and no others.
    pub closed spec fn wf(&self) -> bool {
        &&& skiplist::contents(self.items).dom().finite()
        &&& self@.entries.dom() == Set::<Version>::empty() || is_highest(
            self@.entries,
            self.highest_seqno,
        )
        &&& self@.entries.dom() == Set::<Version>::empty() ==> self.highest_seqno == 0
        &&& match self.filter {
            Some(filter) => {
                &&& filter.wf()
                &&& is_filter_of(filter@, self@.entries)
            },
            None => true,
        }
    }

    /// An empty memtable, which keeps a filter of its keys if `filtered`.
    ///
    /// The last clause tells a caller that the fixed part of an item's footprint leaves room for
    /// the item.
    #[must_use]
    pub fn new(id: MemtableId, filtered: bool) -> (memtable: Memtable)
        ensures
            memtable.wf(),
            memtable@ == (Table { id, entries: Map::empty(), size: 0, flagged: false, filtered }),
            vstd::layout::size_of::<InternalValue>() <= isize::MAX,
    {
        vstd::layout::layout_for_type_is_valid::<InternalValue>();
        let memtable = Memtable {
            id,
            items: skiplist::empty(),
            approximate_size: 0,
            highest_seqno: 0,
            requested_rotation: false,
            filter: if filtered {
                Some(KeyFilter::new())
            } else {
                None
            },
        };
        assert(memtable@.entries =~= Map::empty());
        memtable
    }

    /// Returns the memtable ID.
    pub fn id(&self) -> (id: MemtableId)
        ensures
            id == self@.id,
    {
        self.id
    }

    /// Returns `true` if the memtable was already flagged for rotation.
    pub fn is_flagged_for_rotation(&self) -> (flagged: bool)
        ensures
            flagged == self@.flagged,
    {
        self.requested_rotation
    }

    /// Flags the memtable as requested for rotation.
    pub fn flag_rotated(&mut self)
        requires
            old(self).wf(),
        ensures
            final(self).wf(),
            final(self)@ == (Table { flagged: true, ..old(self)@ }),
    {
        self.requested_rotation = true;
    }

    /// Gets approximate size of memtable in bytes.
    pub fn size(&self) -> (size: u64)
        ensures
            size == self@.size,
    {
        self.approximate_size
    }

    /// Returns the newest version of `key` that is older than `seqno`, if there is one.
    pub fn get(&self, key: &[u8], seqno: SeqNo) -> (answer: Option<InternalValue>)
        requires
            self.wf(),
        ensures
            is_answer(self@.entries, key@, seqno, answer),
    {
        if seqno == 0 {
            return None;
        }
        // The cheap no.
        if let Some(filter) = &self.filter {
            if !filter.might_hold(key) {
                return None;
            }
        }
        // Versions are sorted by user key and then from the newest to the oldest, so the first
        // one from here on is the newest below `seqno`, if it belongs to the key at all.
        //
        // Example: we search for "abc"
        //
        // key -> seqno
        //
        // a   -> 7
        // abc -> 5 <<< the newest version of the key: found with any seqno above 5
        // abc -> 4
        // abc -> 3 <<< found with seqno = 4
        // abcdef -> 6
        // abcdef -> 5
        let lower: (Vec<u8>, u64) = (vstd::slice::slice_to_vec(key), u64::MAX - (seqno - 1));
        let ghost from = (lower.0@, lower.1);
        let ghost held = skiplist::contents(self.items);
        match skiplist::first_from(&self.items, lower) {
            None => {
                proof {
                    assert forall|s: SeqNo| s < seqno implies !#[trigger] self@.entries.contains_key(
                        (key@, s),
                    ) by {
                        let p = place((key@, s));
                        assert(skiplist::above(RangeBound::Included(lower), p));
                        assert(!held.contains_key(p));
                    }
                }
                None
            },
            Some(entry) => {
                let ghost found = skiplist::place_of(entry);
                proof {
                    assert forall|s: SeqNo|
                        s < seqno && #[trigger] self@.entries.contains_key((key@, s)) implies found.0
                        == key@ && found.1 <= u64::MAX - s by {
                        let p = place((key@, s));
                        assert(held.contains_key(p));
                        assert(skiplist::above(RangeBound::Included(lower), p));
                        lemma_between(from, found, p);
                    }
                }
                if order::same_bytes(entry.0.0.as_slice(), key) {
                    let item = item_of(entry);
                    proof {
                        order::lemma_bytes_lt_irreflexive(key@);
                        assert(place((key@, item.key.seqno)) == found);
                    }
                    Some(item)
                } else {
                    None
                }
            },
        }
    }

    /// Returns all items, sorted by user key and, within one user key, from the newest to the
    /// oldest.
    pub fn iter(&self) -> (items: Vec<InternalValue>)
        requires
            self.wf(),
        ensures
            is_listing(items@, self@.entries),
    {
        let entries = skiplist::iter(&self.items);
        items_of(entries, Ghost(skiplist::contents(self.items)))
    }

    /// Returns the items whose keys lie between two ends, in the same order, none if the ends
    /// cross.
    pub fn range(
        &self,
        lower: RangeBound<InternalKey>,
        upper: RangeBound<InternalKey>,
    ) -> (items: Vec<InternalValue>)
        requires
            self.wf(),
        ensures
            is_listing(
                items@,
                self@.entries.restrict(
                    Set::new(|version: Version| key_above(lower, version) && key_below(version, upper)),
                ),
            ),
    {
        let ghost wanted = Set::new(
            |version: Version| key_above(lower, version) && key_below(version, upper),
        );
        let from = bound_of(lower);
        let to = bound_of(upper);
        let ghost places = Set::new(
            |place: Place| skiplist::above(from, place) && skiplist::below(place, to),
        );
        let ghost held = skiplist::contents(self.items).restrict(places);
        let entries = skiplist::range(&self.items, from, to);
        proof {
            assert(by_version(held) =~= self@.entries.restrict(wanted));
        }
        items_of(entries, Ghost(held))
    }

    /// Counts the number of items in the memtable.
    pub fn len(&self) -> (n: usize)
        requires
            self.wf(),
        ensures
            n == self@.entries.dom().len(),
    {
        proof {
            lemma_same_size(skiplist::contents(self.items));
        }
        skiplist::len(&self.items)
    }

    /// Returns `true` if the memtable is empty.
    #[must_use]
    pub fn is_empty(&self) -> (vacant: bool)
        requires
            self.wf(),
        ensures
            vacant <==> self@.entries.dom() == Set::<Version>::empty(),
    {
        proof {
            lemma_same_emptiness(skiplist::contents(self.items));
        }
        skiplist::is_empty(&self.items)
    }

    /// Whether what all items take up can still be counted once `item` is inserted.
    #[must_use]
    pub fn can_insert(&self, item: &InternalValue) -> (fits: bool)
        ensures
            fits <==> self@.size + item.footprint() <= u64::MAX,
            fits <==> self@.size + item.key.user_key@.len() + item.value@.len()
                + vstd::layout::size_of::<InternalValue>() <= u64::MAX,
    {
        let total: u128 = self.approximate_size as u128 + item.key.user_key.len() as u128
            + item.value.len() as u128 + std::mem::size_of::<InternalValue>() as u128;
        total <= u64::MAX as u128
    }

    /// Inserts an item into the memtable. Returns what the item takes up, and what all items
    /// take up now.
    pub fn insert(&mut self, item: InternalValue) -> (sizes: (u64, u64))
        requires
            old(self).wf(),
            old(self)@.size + item.footprint() <= u64::MAX,
        ensures
            final(self).wf(),
            final(self)@ == old(self)@.insert(item),
            sizes.0 == item.footprint(),
            sizes.0 == item.key.user_key@.len() + item.value@.len() + vstd::layout::size_of::<
                InternalValue,
            >(),
            sizes.1 == final(self)@.size,
            sizes.1 == old(self)@.size + sizes.0,
    {
        let item_size: u64 = item.key.user_key.len() as u64 + item.value.len() as u64
            + std::mem::size_of::<InternalValue>() as u64;
        let size_before: u64 = self.approximate_size;
        self.approximate_size = size_before + item_size;

        let ghost before = *old(self);
        let ghost version = item.version();
        let InternalValue { key, value } = item;

        // A tombstone is an insert like any other, so removal needs nothing here: the filter
        // answers whether this memtable has an entry for a key, not whether the key exists.
        if let Some(filter) = &mut self.filter {
            filter.set(key.user_key.as_slice());
        }
        skiplist::insert(
            &mut self.items,
            (key.user_key, u64::MAX - key.seqno),
            (key.value_type, value),
        );
        if self.highest_seqno < key.seqno {
            self.highest_seqno = key.seqno;
        }
        proof {
            assert(self@.entries =~= before@.entries.insert(version, item.payload()));
            assert(self@.entries.contains_key(version));
            if before@.entries.dom() != Set::<Version>::empty() {
                let old_highest = choose|v: Version| #[trigger]
                    before@.entries.contains_key(v) && v.1 == before.highest_seqno;
                assert(self@.entries.contains_key(old_highest));
            }
            if let Some(filter) = before.filter {
                laws::filter_follows_a_write(filter@, before@, item);
            }
        }
        (item_size, size_before + item_size)
    }

    /// Returns the highest sequence number in the memtable.
    pub fn get_highest_seqno(&self) -> (highest: Option<SeqNo>)
        requires
            self.wf(),
        ensures
            match highest {
                Some(seqno) => is_highest(self@.entries, seqno),
                None => self@.entries.dom() == Set::<Version>::empty(),
            },
    {
        if self.is_empty() {
            None
        } else {
            Some(self.highest_seqno)
        }
    }
}

/// A list and its contents by version have equally many entries.
proof fn lemma_same_size(list: Map<Place, Payload>)
    requires
        list.dom().finite(),
    ensures
        by_version(list).dom().finite(),
        by_version(list).dom().len() == list.dom().len(),
{
    let f = |p: Place| (p.0, (u64::MAX - p.1) as u64);
    let versions = by_version(list).dom();
    assert(list.dom().map(f) =~= versions) by {
        assert forall|v: Version| versions.contains(v) implies list.dom().map(f).contains(v) by {
            assert(list.dom().contains(place(v)));
            assert(f(place(v)) == v);
        }
        assert forall|v: Version| list.dom().map(f).contains(v) implies versions.contains(v) by {
            let p = choose|p: Place| list.dom().contains(p) && v == f(p);
            assert(place(v) == p);
        }
    }
    vstd::set_lib::lemma_map_size(list.dom(), versions, f);
}

/// A list and its contents by version are empty together.
proof fn lemma_same_emptiness(list: Map<Place, Payload>)
    ensures
        list.dom() == Set::<Place>::empty() <==> by_version(list).dom() == Set::<Version>::empty(),
{
    let versions = by_version(list).dom();
    if versions == Set::<Version>::empty() {
        assert forall|p: Place| !list.dom().contains(p) by {
            let v = (p.0, (u64::MAX - p.1) as u64);
            assert(place(v) == p);
            assert(!versions.contains(v));
        }
        assert(list.dom() =~= Set::<Place>::empty());
    } else if list.dom() == Set::<Place>::empty() {
        assert(versions =~= Set::<Version>::empty());
    }
}

/// The end of a range of places that an end of a range of keys stands for.
fn bound_of(bound: RangeBound<InternalKey>) -> (end: RangeBound<(Vec<u8>, u64)>)
    ensures
        forall|version: Version| #[trigger]
            key_above(bound, version) <==> skiplist::above(end, place(version)),
        forall|version: Version| #[trigger]
            key_below(version, bound) <==> skiplist::below(place(version), end),
{
    match bound {
        RangeBound::Included(key) => RangeBound::Included((key.user_key, u64::MAX - key.seqno)),
        RangeBound::Excluded(key) => RangeBound::Excluded((key.user_key, u64::MAX - key.seqno)),
        RangeBound::Unbounded => RangeBound::Unbounded,
    }
}

/// The items that entries of the list stand for.
fn items_of(entries: Vec<Entry>, held: Ghost<Map<Place, Payload>>) -> (items: Vec<InternalValue>)
    requires
        skiplist::enumerates(entries@, held@),
    ensures
        is_listing(items@, by_version(held@)),
{
    let ghost all = entries@;
    let mut items: Vec<InternalValue> = Vec::new();
    for entry in walk: entries
        invariant
            walk.seq() == all,
            items@.len() == walk.index(),
            forall|i: int|
                0 <= i < items@.len() ==> {
                    &&& place((#[trigger] items@[i]).version()) == skiplist::place_of(all[i])
                    &&& items@[i].payload() == skiplist::payload_of(all[i])
                },
    {
        items.push(item_of(entry));
    }
    proof {
        let versions = by_version(held@);
        assert(items@.len() == all.len());
        assert forall|i: int, j: int| 0 <= i < j < items@.len() implies value::sorts_before(
            (#[trigger] items@[i]).version(),
            (#[trigger] items@[j]).version(),
        ) by {
            assert(order::precedes(skiplist::place_of(all[i]), skiplist::place_of(all[j])));
        }
        assert forall|i: int| 0 <= i < items@.len() implies versions.contains_pair(
            (#[trigger] items@[i]).version(),
            items@[i].payload(),
        ) by {
            assert(held@.contains_pair(skiplist::place_of(all[i]), skiplist::payload_of(all[i])));
        }
        assert forall|version: Version| #[trigger] versions.contains_key(version) implies exists|
            i: int,
        |
            0 <= i < items@.len() && (#[trigger] items@[i]).version() == version by {
            assert(held@.contains_key(place(version)));
            let i = choose|i: int|
                0 <= i < all.len() && skiplist::place_of(#[trigger] all[i]) == place(version);
            assert(items@[i].version() == version);
        }
    }
    items
}

/// What lies between two places with the same bytes has these bytes too.
proof fn lemma_between(from: Place, found: Place, to: Place)
    requires
        from.0 == to.0,
        from == found || order::precedes(from, found),
        to == found || order::precedes(found, to),
    ensures
        found.0 == from.0,
        found.1 <= to.1,
{
    if order::bytes_lt(from.0, found.0) {
        order::lemma_bytes_lt_irreflexive(from.0);
        if order::bytes_lt(found.0, to.0) {
            order::lemma_bytes_lt_transitive(from.0, found.0, to.0);
        }
    } else {
        order::lemma_bytes_lt_irreflexive(from.0);
    }
}

/// The item that an entry of the list stands for.
fn item_of(entry: Entry) -> (item: InternalValue)
    ensures
        place(item.version()) == skiplist::place_of(entry),
        item.payload() == skiplist::payload_of(entry),
{
    let ((user_key, rank), (value_type, value)) = entry;
    InternalValue { key: InternalKey::new(user_key, u64::MAX - rank, value_type), value }
}

} // verus!
