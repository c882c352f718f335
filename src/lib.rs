//! Offline-first merge engine for timestamped, tagged events.
//!
//! Devices append immutable patches; replaying them in dependency order
//! builds a multi-valued [`PatchedTimesheet`](repository::timesheet::PatchedTimesheet)
//! which is then flattened into a single-valued [`Timesheet`].
use vstd::prelude::*;

pub mod action;
pub mod config;
pub mod laws;
pub mod repository;
pub mod store;
pub mod time;
pub mod timesheet;

pub use crate::repository::Repository;
pub use crate::store::meta::Meta;
pub use crate::store::patch::Patch;
pub use crate::store::Store;
pub use crate::time::Timestamp;
pub use crate::timesheet::{Event, Timesheet};

verus! {

/// Globally unique reference of a patch (the 128 bits of a UUID).
pub type PatchRef = u128;

/// Identifier of an event, assigned once by the patch that creates it.
pub type EventRef = String;

/// A tag attached to an event.
pub type Tag = String;

} // verus!
