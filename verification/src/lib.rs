//! Local-first synchronization core for a streaming client.
//!
//! The crate has three verified components: a query coalescer that batches
//! and deduplicates outbound filter requests to remote peers, a bounded
//! asset cache that turns URLs into decoded handles with at-most-one fetch
//! in flight per key, and a subscription registry that tracks local store
//! subscriptions and releases each one exactly once.


pub mod cache;
pub mod coalescer;
pub mod filter;
pub mod hex;
pub mod link;
pub mod login;
pub mod note;
pub mod note_store;
pub mod profiles;
pub mod registry;
