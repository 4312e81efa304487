//! A fixed-page, write-through byte cache in front of a single backing store.
//!
//! Callers address the store by byte offset and length. Every request is cut
//! into per-page operations; recently touched pages stay resident in memory,
//! bounded by a byte budget and evicted least-recently-used first. Every page
//! write reaches the store before the resident copy changes.
//!
//! - [`cache`]: the cache itself, with `new`, `read` and `write`.
//! - [`store`]: what the cache asks of a backing store, and a store in memory.
//! - [`index`]: the resident pages and their recency order.
//! - [`layout`]: cutting a byte range into per-page pieces.
//! - [`config`]: the bounds on page size and capacity.
//! - [`model`]: the abstract state that the contracts speak of.
//! - [`theorems`]: what follows for sequences of reads and writes.
//! - [`lemmas`]: arithmetic on pages that the proofs share.
//! - [`page_map`]: the hash map that holds the pages, hashed with `ahash`.

pub mod cache;
pub mod config;
pub mod error;
pub mod index;
pub mod layout;
pub mod lemmas;
pub mod model;
pub mod page_map;
pub mod store;
pub mod theorems;

pub use cache::WriteThroughCache;
pub use error::CacheError;
pub use page_map::AHashMap;
pub use store::{BackingStore, MemoryStore, StoreFault};
