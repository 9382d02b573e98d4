//! A comparator-driven priority queue.
//!
//! The queue returns its highest-ranked element first, where the ranking is
//! supplied by the caller as a tri-state comparator. Each stored entry is
//! bound to the comparator that was active when it was inserted, so replacing
//! the queue's comparator never re-ranks entries already present. Ties, and
//! the absence of a comparator, fall back to insertion order, most recent
//! first.

pub mod entry;
pub mod heap;
pub mod order;
pub mod queue;

pub use entry::default_compare;
pub use entry::Entry;
pub use order::Compare;
pub use order::NoComparator;
pub use order::NumericComparator;
pub use order::PivotComparator;
pub use queue::PriorityQueue;
