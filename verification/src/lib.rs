//! Verified core of a generational, non-moving mark-sweep garbage collector
//! laid out as a Big Bag of Pages (BiBOP).
//!
//! The crate holds the collector's bookkeeping as plain values: page headers
//! with their mark, dirty and allocation bitmaps, free lists threaded through
//! page slots, work-stealing mark queues, the incremental-marking state
//! machine, lock-order discipline, handle storage, metrics and history rings.
//! Every operation carries a contract over a mathematical model.

pub mod bits;
pub mod bitmap;
pub mod page;
pub mod size_class;
pub mod sweep;
pub mod worklist;
pub mod marker;
pub mod incremental;
pub mod sync;
pub mod metrics;
pub mod young_history;
pub mod handles;
pub mod async_scope;
pub mod collect;
pub mod mark;
pub mod threads;
pub mod tcb;
pub mod local_heap;
pub mod barrier;
pub mod large;
pub mod lookup;
pub mod orphan;
pub mod class_alloc;
pub mod generations;
pub mod segments;
pub mod collector;
