//! A registry of polymorphic objects with key aliasing, capability-based
//! lookup, and a priority-driven cooperative event loop.
//!
//! The crate is organised leaves-first:
//! - [`assoc`] holds the association-list model shared by the map types;
//! - [`multimap`] is the alias table: many string keys over one storage slot;
//! - [`widget`] models objects and the closed set of optional capabilities;
//! - [`events`] is the event payload, the kind ordering, and the queue;
//! - [`registry`] composes allocation, naming, storage and capability
//!   membership into one collection of tagged objects;
//! - [`ui`] is the dispatcher state and its one-event-per-tick policy.

pub mod assoc;
pub mod events;
pub mod multimap;
pub mod registry;
pub mod ui;
pub mod widget;
