//! Configuration constants and tuning settings.

use vstd::prelude::*;

verus! {

/// Size of chunks for file processing, in bytes (64 KiB).
pub const CHUNK_SIZE: usize = 64 * 1024;

/// Threshold above which a file is considered "large" (10 MiB).
pub const LARGE_FILE_THRESHOLD: u64 = 10 * 1024 * 1024;

/// Name of the repository directory.
pub const BLAZE_DIR: &'static str = ".blaze";

/// Name of the metadata database file.
pub const DB_FILE: &'static str = "metadata.db";

/// Name of the chunks directory.
pub const CHUNKS_DIR: &'static str = "chunks";

/// Name of the repository lock file.
pub const LOCK_FILE: &'static str = "repo.lock";

/// Default commit message when none is provided.
pub const DEFAULT_COMMIT_MESSAGE: &'static str = "Quick commit";

/// Progress refresh rate in milliseconds.
pub const PROGRESS_REFRESH_RATE: u64 = 100;

/// Database connection timeout in seconds.
pub const DB_TIMEOUT: u32 = 30;

/// Maximum size for in-memory file processing (128 MiB).
pub const MAX_MEMORY_BUFFER: usize = 128 * 1024 * 1024;

/// Compression level for chunk storage.
pub const COMPRESSION_LEVEL: u32 = 6;

/// Small file threshold for fast-path handling (10 KiB).
pub const SMALL_FILE_THRESHOLD: u64 = 10 * 1024;

/// Small repository threshold (number of files).
pub const SMALL_REPO_THRESHOLD: usize = 50;

use crate::strutil::{dec_rep, u64_to_string};

/// The text of the repository's config file for a chunk size given in
/// kibibytes.
pub open spec fn config_text_spec(chunk_size_kb: int) -> Seq<char> {
    "[core]\nchunk_size = "@ + dec_rep(chunk_size_kb * 1024) + "\n"@
}

/// Render the config file recording the configured chunk size.
pub fn make_config_text(chunk_size_kb: usize) -> (r: String)
    requires
        chunk_size_kb * 1024 <= u64::MAX,
    ensures
        r@ == config_text_spec(chunk_size_kb as int),
{
    let mut s = String::from_str("[core]\nchunk_size = ");
    proof {
        assert(chunk_size_kb * 1024 == (chunk_size_kb as u64) * 1024) by (nonlinear_arith);
    }
    let bytes = u64_to_string((chunk_size_kb as u64) * 1024);
    s.append(bytes.as_str());
    s.append("\n");
    proof {
        assert(s@ =~= config_text_spec(chunk_size_kb as int));
    }
    s
}

/// Relies on num_cpus::get: the number of available logical CPUs,
/// always at least 1.
#[verifier::external_body]
fn num_cpus_get() -> (r: usize)
    ensures
        r >= 1,
{
    num_cpus::get()
}

/// Get the maximum number of parallel threads for chunk processing.
pub fn get_max_parallel_threads() -> (r: usize)
    ensures
        r >= 1,
{
    let n = num_cpus_get();
    if n >= 1 {
        n
    } else {
        1
    }
}

/// Performance tuning configuration.
#[derive(Debug, Clone)]
pub struct PerformanceConfig {
    /// Number of worker threads for parallel processing
    pub worker_threads: usize,
    /// Size of the read buffer for file I/O
    pub read_buffer_size: usize,
    /// Size of the write buffer for file I/O
    pub write_buffer_size: usize,
    /// Enable memory mapping for large files
    pub use_memory_mapping: bool,
    /// Enable compression for chunk storage
    pub enable_compression: bool,
}

impl Default for PerformanceConfig {
    /// Defaults: twice the CPU count (at least 8) worker threads,
    /// buffers of two chunks, memory mapping and compression on.
    fn default() -> (r: Self)
        ensures
            r.worker_threads >= 8,
            r.read_buffer_size == 2 * CHUNK_SIZE,
            r.write_buffer_size == 2 * CHUNK_SIZE,
            r.use_memory_mapping,
            r.enable_compression,
    {
        let n = get_max_parallel_threads();
        let doubled = if n <= usize::MAX / 2 {
            n * 2
        } else {
            usize::MAX
        };
        let workers = if doubled < 8 {
            8
        } else {
            doubled
        };
        PerformanceConfig {
            worker_threads: workers,
            read_buffer_size: 2 * CHUNK_SIZE,
            write_buffer_size: 2 * CHUNK_SIZE,
            use_memory_mapping: true,
            enable_compression: true,
        }
    }
}

/// Database configuration.
#[derive(Debug, Clone)]
pub struct DatabaseConfig {
    /// Connection timeout in seconds
    pub timeout: u32,
    /// Enable WAL mode for better concurrent access
    pub enable_wal_mode: bool,
    /// Cache size in KB
    pub cache_size: i32,
    /// Enable foreign key constraints
    pub enable_foreign_keys: bool,
}

impl Default for DatabaseConfig {
    /// Defaults: the standard timeout, write-ahead journaling on, a
    /// generous page cache, and foreign keys off.
    fn default() -> (r: Self)
        ensures
            r.timeout == DB_TIMEOUT,
            r.enable_wal_mode,
            r.cache_size == 32768,
            !r.enable_foreign_keys,
    {
        DatabaseConfig {
            timeout: DB_TIMEOUT,
            enable_wal_mode: true,
            cache_size: 32768,
            enable_foreign_keys: false,
        }
    }
}

} // verus!
