//! Access-decision core of a door controller: credential decoding, the
//! shared authorization cache, the event delivery buffer and the crash-safe
//! flash persistence layer.
use vstd::prelude::*;

pub mod access;
pub mod events;
pub mod fob_list;
pub mod shared;
pub mod storage;
pub mod sync;
pub mod text;
pub mod wiegand;

verus! {

/// Largest number of credentials the authorization cache holds.
pub const MAX_FOBS: usize = 512;

/// Number of slots in an event ring; one slot always stays free.
pub const MAX_EVENTS: usize = 20;

} // verus!
