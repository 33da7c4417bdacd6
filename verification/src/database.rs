//! The metadata store's verified model: where the database file lives,
//! the row types it holds, and its statistics.  The SQL connection
//! itself is a front-end concern.

use vstd::prelude::*;
use crate::config::{DatabaseConfig, DB_FILE};
use crate::strutil::u64_to_string;
use crate::utils::{format_size, format_size_spec};
use crate::strutil::dec_rep;

verus! {

broadcast use vstd::string::group_string_axioms;

/// Database manager: the location of the metadata store and the
/// settings its connections are opened with.
#[derive(Debug, Clone)]
pub struct Database {
    pub db_path: String,
    pub config: DatabaseConfig,
}

/// The path of the metadata database inside a repository directory.
pub open spec fn db_path_spec(blaze_dir: Seq<char>) -> Seq<char> {
    blaze_dir + "/"@ + DB_FILE@
}

impl Database {
    /// Create a new database instance with default settings.
    pub fn new(blaze_dir: &str) -> (r: Database)
        ensures
            r.db_path@ == db_path_spec(blaze_dir@),
            r.config.timeout == crate::config::DB_TIMEOUT,
            r.config.enable_wal_mode,
            r.config.cache_size == 32768,
            !r.config.enable_foreign_keys,
    {
        Database::with_config(blaze_dir, DatabaseConfig::default())
    }

    /// Create a new database instance with custom configuration.
    pub fn with_config(blaze_dir: &str, config: DatabaseConfig) -> (r: Database)
        ensures
            r.db_path@ == db_path_spec(blaze_dir@),
            r.config == config,
    {
        let mut p = blaze_dir.to_owned();
        p.append("/");
        p.append(DB_FILE);
        Database { db_path: p, config }
    }
}

/// Represents a chunk record row.
#[derive(Debug, Clone)]
pub struct ChunkRecord {
    pub hash: String,
    pub size: u64,
    pub created_at: u64,
}

/// Represents a reference (branch/tag) row.
#[derive(Debug, Clone)]
pub struct RefRecord {
    pub name: String,
    pub commit_hash: Option<String>,
}

/// Database statistics.
#[derive(Debug, Clone)]
pub struct DatabaseStats {
    pub chunk_count: usize,
    pub file_count: usize,
    pub commit_count: usize,
    pub ref_count: usize,
    pub total_chunk_size: u64,
    pub total_file_size: u64,
}

/// The one-line rendering of database statistics.
pub open spec fn stats_summary_spec(s: &DatabaseStats) -> Seq<char> {
    "Chunks: "@ + dec_rep(s.chunk_count as int) + ", Files: "@ + dec_rep(s.file_count as int)
        + ", Commits: "@ + dec_rep(s.commit_count as int) + ", Refs: "@ + dec_rep(
        s.ref_count as int) + ", Storage: "@ + format_size_spec(s.total_chunk_size as int)
        + " chunks / "@ + format_size_spec(s.total_file_size as int) + " files"@
}

impl DatabaseStats {
    /// Get a formatted summary of the statistics.
    pub fn summary(&self) -> (r: String)
        ensures
            r@ == stats_summary_spec(self),
    {
        let mut s = String::from_str("Chunks: ");
        let t = u64_to_string(self.chunk_count as u64);
        s.append(t.as_str());
        s.append(", Files: ");
        let t = u64_to_string(self.file_count as u64);
        s.append(t.as_str());
        s.append(", Commits: ");
        let t = u64_to_string(self.commit_count as u64);
        s.append(t.as_str());
        s.append(", Refs: ");
        let t = u64_to_string(self.ref_count as u64);
        s.append(t.as_str());
        s.append(", Storage: ");
        let t = format_size(self.total_chunk_size);
        s.append(t.as_str());
        s.append(" chunks / ");
        let t = format_size(self.total_file_size);
        s.append(t.as_str());
        s.append(" files");
        proof {
            assert(s@ =~= stats_summary_spec(self));
        }
        s
    }
}

} // verus!
