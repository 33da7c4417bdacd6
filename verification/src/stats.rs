//! Aggregated statistics over processed file records.

use vstd::prelude::*;
use crate::records::FileRecord;
use crate::utils::is_binary_file_spec;

verus! {

/// File processing statistics.
#[derive(Debug, Clone)]
pub struct FileStats {
    /// Total number of files processed
    pub total_files: usize,
    /// Total number of chunks created
    pub total_chunks: usize,
    /// Total bytes processed
    pub total_bytes: u64,
    /// Number of binary files
    pub binary_files: usize,
    /// Number of executable files
    pub executable_files: usize,
    /// Largest file size encountered
    pub largest_file: u64,
}

impl Default for FileStats {
    /// Empty statistics.
    fn default() -> (r: Self)
        ensures
            r.total_files == 0 && r.total_chunks == 0 && r.total_bytes == 0 && r.binary_files == 0
                && r.executable_files == 0 && r.largest_file == 0,
    {
        FileStats {
            total_files: 0,
            total_chunks: 0,
            total_bytes: 0,
            binary_files: 0,
            executable_files: 0,
            largest_file: 0,
        }
    }
}

impl FileStats {
    /// Create new empty statistics.
    pub fn new() -> (r: Self)
        ensures
            r.total_files == 0 && r.total_chunks == 0 && r.total_bytes == 0 && r.binary_files == 0
                && r.executable_files == 0 && r.largest_file == 0,
    {
        Self::default()
    }

    /// Add statistics from a file record.
    pub fn add_file(&mut self, record: &FileRecord)
        requires
            old(self).total_files < usize::MAX,
            old(self).total_chunks + record.chunks@.len() <= usize::MAX,
            old(self).total_bytes + record.size <= u64::MAX,
            old(self).binary_files < usize::MAX,
            old(self).executable_files < usize::MAX,
        ensures
            final(self).total_files == old(self).total_files + 1,
            final(self).total_chunks == old(self).total_chunks + record.chunks@.len(),
            final(self).total_bytes == old(self).total_bytes + record.size,
            final(self).binary_files == old(self).binary_files + (if is_binary_file_spec(
                record.path@) { 1int } else { 0int }),
            final(self).executable_files == old(self).executable_files + (if record.is_executable {
                1int
            } else {
                0int
            }),
            final(self).largest_file == (if record.size > old(self).largest_file {
                record.size
            } else {
                old(self).largest_file
            }),
    {
        self.total_files = self.total_files + 1;
        self.total_chunks = self.total_chunks + record.chunks.len();
        self.total_bytes = self.total_bytes + record.size;
        if record.is_binary() {
            self.binary_files = self.binary_files + 1;
        }
        if record.is_executable {
            self.executable_files = self.executable_files + 1;
        }
        if record.size > self.largest_file {
            self.largest_file = record.size;
        }
    }
}

} // verus!
