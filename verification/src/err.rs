//! Typed error surface of the store.
//!
//! Strict lookups surface a typed not-found; backend and codec failures are
//! fatal to the current operation. The store never retries and never panics
//! on missing data.

use vstd::prelude::*;

use crate::types::HeaderHash;

verus! {

/// One error per failure class of the store.
#[derive(Clone, Copy, Debug)]
pub enum Error {
    /// Strict block lookup on an absent header hash.
    BlockNotFound(HeaderHash),
    /// Strict order lookup on an absent height; also an empty order tree
    /// where an extremum was asked for.
    BlockNumberNotFound(u64),
    /// Strict difficulty lookup on an absent height.
    BlockDifficultyNotFound(u64),
    /// Parallel-slice caller handed slices of different lengths.
    InvalidInputLengths,
    /// The backend store failed; indicates a storage or hardware fault.
    Io,
    /// A stored record failed to decode; indicates storage corruption.
    Deserialize,
}

} // verus!
