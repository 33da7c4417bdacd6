use blaze::config::{CHUNK_SIZE, LARGE_FILE_THRESHOLD, BLAZE_DIR, DB_FILE, CHUNKS_DIR, LOCK_FILE,
    PerformanceConfig, DatabaseConfig};

#[test]
fn test_lib_exports() {
    // Basic smoke test to ensure exports work
    let _config = CHUNK_SIZE;
    assert_eq!(CHUNK_SIZE, 65536);
}

#[test]
fn test_constants() {
    assert!(LARGE_FILE_THRESHOLD > CHUNK_SIZE as u64);
    assert_eq!(BLAZE_DIR, ".blaze");
    assert_eq!(DB_FILE, "metadata.db");
    assert_eq!(CHUNKS_DIR, "chunks");
    assert_eq!(LOCK_FILE, "repo.lock");
}

#[test]
fn test_performance_config_default() {
    let config = PerformanceConfig::default();
    assert!(config.worker_threads > 0);
    assert!(config.read_buffer_size > 0);
    assert!(config.write_buffer_size > 0);
}

#[test]
fn test_database_config_default() {
    let config = DatabaseConfig::default();
    assert!(config.timeout > 0);
    assert!(config.cache_size > 0);
}

#[test]
fn test_make_config_text() {
    assert_eq!(blaze::config::make_config_text(64), "[core]\nchunk_size = 65536\n");
}
