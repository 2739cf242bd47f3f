//! Ringboard: a verified model of a clipboard-history store.
//!
//! The library covers the persistent entry store of a clipboard-history
//! service: two fixed-capacity circular logs ("main" and "favorites"),
//! eleven size-classed bucket files plus a direct store for large entries,
//! the composite-id encoding, the reader pipeline with its remap-and-retry
//! protocol, the scanning search engine, and the decision core of the
//! server's connection reactor.

pub mod allocator;
pub mod bucket_pool;
pub mod buckets;
pub mod database;
pub mod direct;
pub mod error;
pub mod names;
pub mod protocol;
pub mod reactor;
pub mod requests;
pub mod ring;
pub mod ring_reader;
pub mod search;
pub mod send_msg_bufs;
