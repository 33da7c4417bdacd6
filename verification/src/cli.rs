//! Command-line surface types: the parsed command a front end hands to
//! the engine.  Parsing itself is the front end's concern.

use vstd::prelude::*;

verus! {

/// Options for showing untracked files.
#[derive(Clone, Debug)]
pub enum UntrackedFiles {
    /// Hide untracked files
    No,
    /// Show untracked files (default)
    Normal,
    /// Show all untracked files including those in ignored directories
    All,
}

/// Available commands.
#[derive(Clone, Debug)]
pub enum Commands {
    /// Initialize a new repository
    Init { path: String, no_ignore: bool, chunk_size: Option<usize> },
    /// Add files to the staging area
    Add { files: Vec<String>, verbose: bool, all: bool, dry_run: bool },
    /// Create a new commit with staged changes
    Commit { message: String, all: bool, verbose: bool, allow_empty: bool },
    /// Show commit history
    Log { limit: usize, oneline: bool, stat: bool, since: Option<String> },
    /// Show working tree status
    Status { short: bool, ignored: bool, untracked_files: UntrackedFiles },
    /// Checkout a specific commit or restore files
    Checkout { target: String, force: bool, new_branch: Option<String> },
    /// List, create, or delete branches
    Branch { name: Option<String>, delete: bool, force_delete: bool, all: bool },
    /// Show repository statistics and health information
    Stats { chunks: bool, files: bool, storage: bool },
    /// Verify repository integrity and fix issues
    Verify { fix: bool, chunks: bool, verbose: bool },
    /// Optimize repository storage and performance
    Optimize { gc: bool, repack: bool, dry_run: bool },
}

/// A parsed command line.
#[derive(Clone, Debug)]
pub struct Cli {
    pub command: Commands,
}

} // verus!
