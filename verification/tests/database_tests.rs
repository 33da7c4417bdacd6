use blaze::database::{Database, DatabaseStats};

#[test]
fn test_database_paths() {
    let db = Database::new("/repo/.blaze");
    assert_eq!(db.db_path, "/repo/.blaze/metadata.db");
    assert_eq!(db.config.timeout, 30);
    assert!(db.config.enable_wal_mode);
}

#[test]
fn test_database_stats_summary() {
    let stats = DatabaseStats {
        chunk_count: 2,
        file_count: 1,
        commit_count: 0,
        ref_count: 1,
        total_chunk_size: 300,
        total_file_size: 1024,
    };
    assert_eq!(stats.summary(),
        "Chunks: 2, Files: 1, Commits: 0, Refs: 1, Storage: 300 B chunks / 1.00 KB files");
}
