use vstd::prelude::*;
use crate::data::{Stream, Val};
use crate::table::Table;

verus! {

/// The key/value store: each key with its value.
pub type Memory = Table<Val>;

/// The streams, by key.
pub type StreamMemory = Table<Stream>;

} // verus!
