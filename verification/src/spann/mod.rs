//! The SPANN disk index: posting-list layout, compression, batching and
//! candidate deduplication.
pub mod fast_dedup;
pub mod compression;
pub mod storage;
pub mod async_storage;
pub mod optimized_storage;
pub mod posting;
pub mod batch;
pub mod index;
pub mod hbc;
pub mod decode;
pub mod meta;
