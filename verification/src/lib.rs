//! Library for extracting per-unit production counters from a traced game
//! process and serving them as a time series.
//!
//! The crate is organised around plain data: observations (a timestamp plus a
//! list of crafting records), the binary framing used on disk and on the wire,
//! the collector's query engine, and the pure decision logic of the extractor
//! (breakpoint register arithmetic, shell memory layout, harvest decoding).
//! All process and network I/O lives outside this crate; callers hand in the
//! raw values and get plain values back.

pub mod codec;
pub mod collect;
pub mod debug;
pub mod extract;

pub use codec::{pack_observation, unpack_observation, CodecError, CraftingLite, Observation};
