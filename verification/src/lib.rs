//! A verified engine for a nestable group/note/task store.
//!
//! A [`data::Project`] holds a forest of named groups, each with ordered
//! notes, tasks and child-group names, together with the watch set of
//! currently selected groups.  Every mutation validates its inputs in full
//! before touching the store, so a failed call leaves the value unchanged.

pub mod commands;
pub mod data;
pub mod error;
pub mod order;
pub mod watchset;
