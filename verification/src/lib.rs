//! A thread-safe sparse byte-range cache for immutable sources.
//!
//! The cache keeps `bytes::Bytes` under keys, merges adjacent or overlapping
//! coverage, and can enforce a payload-byte ceiling by evicting the least
//! recently used ranges.  Every operation is specified over [`view::CacheView`],
//! the mathematical content of a cache, and proved against that specification.

pub mod cache;
pub mod capacity;
pub mod differential;
pub mod effect;
pub mod error;
pub mod fetch;
pub mod fetch_laws;
pub mod handle_laws;
pub mod key;
pub mod laws;
mod lemmas;
pub mod lock;
pub mod model;
pub mod payload;
pub mod plan;
pub mod read_laws;
pub mod reader;
pub mod store;
pub mod view;

pub use cache::RangeCache;
pub use capacity::{CacheCapacity, CacheSnapshot, InsertOutcome, Invalidation, NonZeroUsize};
pub use error::RangeError;
pub use key::CacheKey;
pub use plan::Segment;
pub use reader::{CachedReader, ReadError, ReaderConfig};
pub use store::RangeStore;
