//! Core engine of a chunk-addressed version control system.
//!
//! Files are split into fixed-size chunks, addressed by their content
//! digest, deduplicated, compressed and (optionally) delta-encoded on
//! disk.  Staged file manifests and commits are recorded in a metadata
//! store; checkout reassembles file bytes from chunks.  This crate holds
//! the verified model: chunking, the chunk record codec, delta coding,
//! manifest maps, change detection, canonical tree and commit hashing,
//! the in-memory chunk caches and the garbage-collection plan.

pub mod config;
pub mod errors;
pub mod strutil;
pub mod digest;
pub mod chunker;
pub mod codec;
pub mod delta;
pub mod records;
pub mod changes;
pub mod commit;
pub mod store;
pub mod database;
pub mod cli;
pub mod stats;
pub mod utils;

pub use cli::{Cli, Commands};
pub use config::CHUNK_SIZE;
pub use errors::BlazeError;
pub use records::FileRecord;
