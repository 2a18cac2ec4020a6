//! Block persistence and ordering core of a proof-of-work blockchain node.
//!
//! The crate maintains three jointly consistent indexes over the canonical
//! chain, all backed by named trees of an embedded ordered key-value store:
//!
//! * a content-addressed block index (header hash -> serialized block),
//! * an ordering index (height, big-endian encoded -> header hash),
//! * a difficulty index (height, big-endian encoded -> serialized
//!   proof-of-work and ranking state).
//!
//! A staging overlay buffers speculative writes to the three indexes and
//! promotes them to the store in one step, or drops them.

pub mod bignum;
pub mod block;
pub mod bytes;
pub mod difficulty;
pub mod err;
pub mod hashes;
pub mod kv;
pub mod order;
pub mod overlay;
pub mod store;
pub mod types;
pub mod wire;
