//! The write side of an LSM tree: the memtable that new items go to, and the watermark that tells
//! a reader how far it may see.
//!
//! Every function is verified by Verus against its contract. What is believed without proof stands
//! in [`memtable::skiplist`] and in [`hash`].
pub mod hash;
pub mod memtable;
pub mod order;
pub mod schedule;
pub mod value;
pub mod visible_seqno;

pub use memtable::key_filter::KeyFilter;
pub use memtable::skiplist::RangeBound;
pub use memtable::{Memtable, MemtableId};
pub use value::{InternalKey, InternalValue, SeqNo, UserKey, UserValue, ValueType};
pub use visible_seqno::{Pending, VisibleSeqno};
