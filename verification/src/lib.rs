//! A precise garbage-collected heap with a semi-space copying collector.
//!
//! Clients register object types with a pointer layout, allocate objects
//! of those types, and hold on to them through handles.  A collection
//! copies what can be reached from the handles to a fresh region and
//! rewrites every handle and every pointer slot to the new addresses.
//!
//! Memory is modelled as regions of 64-bit words at page-aligned addresses;
//! an address is a number, and a pointer slot is one word.
//!
//! No function of the heap fails: what it cannot work on is left out by
//! its `requires`.  A caller that cannot prove such a condition can test
//! it: `GcOpts::is_startable` before `GcHeap::new`, `GcHeap::make_room_for`
//! before an allocation, `GcHeap::can_gc` before a collection,
//! `GcHeap::holds`, `GcHeap::points` and `GcHeap::takes` before a store,
//! `GcHeap::root_in_use` and `GcHeap::roots_full` before the use of a
//! handle, `GcTypeLayout::check_bitmap` before `GcTypeLayout::new_bitmap`.
//! Of these only `make_room_for` and its kin do more than look: they
//! collect the heap if they must, and say why there is no room if there
//! is none.

pub mod block;
pub mod collect;
pub mod copying;
pub mod cycle;
pub mod handle;
pub mod handles;
pub mod heap;
pub mod memory;
pub mod mutate;
pub mod opts;
pub mod order;
pub mod scan;
pub mod space;
pub mod strategy;
pub mod survive;
pub mod types;
pub mod walker;

pub use crate::copying::Copying;
pub use crate::strategy::{Compacting, Strategy};
pub use crate::handle::{Gc, GcVec};
pub use crate::handles::GcRoot;
pub use crate::heap::{GcHeap, GcPtr, GcVecPtr, Local, LocalScope};
pub use crate::opts::{GcError, GcOpts, Ratio};
pub use crate::types::{GcType, GcTypeId, GcTypeLayout, GcTypeWalk, GcTypes};
