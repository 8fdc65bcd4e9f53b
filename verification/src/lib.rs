//! A local mirror of remote calendar state.
//!
//! The crate keeps a date-indexed cache of calendar events, refreshes it
//! incrementally through opaque continuation tokens (tolerating pagination
//! and partial failure), and persists it in a structured text format.
//! Network transport, OAuth consent, and terminal rendering live outside
//! this crate; they exchange plain values with it.

pub mod cache;
pub mod date;
pub mod engine;
pub mod event;
pub mod kv;
pub mod num;
pub mod persist;
pub mod sync;
pub mod utils;

use vstd::prelude::*;

verus! {

} // verus!
