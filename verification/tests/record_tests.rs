use blaze::records::{FileRecord, ManifestMap};
use blaze::changes::{detect_changes, FileChangeType};
use blaze::stats::FileStats;
use blaze::utils::current_timestamp;

fn record(path: &str, chunk: &str, size: u64, mtime: u64) -> FileRecord {
    FileRecord {
        path: path.to_string(),
        chunks: vec![chunk.to_string()],
        size,
        mtime,
        permissions: 0o644,
        is_executable: false,
    }
}

#[test]
fn test_manifest_map_insert_get() {
    let mut map = ManifestMap::new();
    assert!(map.is_empty());
    map.insert(record("b.txt", "h2", 2, 20));
    map.insert(record("a.txt", "h1", 1, 10));
    map.insert(record("a.txt", "h3", 3, 30));
    assert_eq!(map.len(), 2);
    let a = map.get("a.txt").unwrap();
    assert_eq!(a.chunks, vec!["h3".to_string()]);
    assert_eq!(a.size, 3);
    assert!(map.get("c.txt").is_none());
}

#[test]
fn test_file_record_equality() {
    let r1 = record("x", "h", 1, 2);
    let r2 = record("x", "h", 1, 2);
    let r3 = record("x", "other", 1, 2);
    assert!(r1 == r2);
    assert!(!(r1 == r3));
}

#[test]
fn test_change_detection() {
    let record1 = FileRecord {
        path: "file1.txt".to_string(),
        chunks: vec!["hash1".to_string()],
        size: 100,
        mtime: 1000,
        permissions: 0o644,
        is_executable: false,
    };

    let record1_modified = FileRecord {
        path: "file1.txt".to_string(),
        chunks: vec!["hash1_new".to_string()],
        size: 150,
        mtime: 2000,
        permissions: 0o644,
        is_executable: false,
    };

    let record2 = FileRecord {
        path: "file2.txt".to_string(),
        chunks: vec!["hash2".to_string()],
        size: 200,
        mtime: 1000,
        permissions: 0o644,
        is_executable: false,
    };

    // Old state: file1, file2
    let mut old_records = ManifestMap::new();
    old_records.insert(record1.clone());
    old_records.insert(record2.clone());

    // New state: file1 (modified), file3 (new)
    let mut new_records = ManifestMap::new();
    new_records.insert(record1_modified.clone());
    let mut record3 = record2.clone();
    record3.path = "file3.txt".to_string();
    new_records.insert(record3);

    let changes = detect_changes(&old_records, &new_records);

    assert_eq!(changes.len(), 3);

    // Should have: Modified file1, Added file3, Deleted file2
    let change_types: Vec<_> = changes.iter().map(|c| &c.change_type).collect();
    assert!(change_types.contains(&&FileChangeType::Modified));
    assert!(change_types.contains(&&FileChangeType::Added));
    assert!(change_types.contains(&&FileChangeType::Deleted));
}

#[test]
fn test_no_changes_on_equal_maps() {
    let mut m1 = ManifestMap::new();
    m1.insert(record("a", "h1", 1, 1));
    m1.insert(record("b", "h2", 2, 2));
    let mut m2 = ManifestMap::new();
    m2.insert(record("b", "h2", 2, 2));
    m2.insert(record("a", "h1", 1, 1));
    let changes = detect_changes(&m1, &m2);
    assert!(changes.is_empty());
}

#[test]
fn test_exactly_one_modified_entry() {
    // staging one version, the working copy another: exactly one
    // working change of type Modified
    let mut staged = ManifestMap::new();
    staged.insert(record("a.txt", "h1", 3, 100));
    let mut working = ManifestMap::new();
    working.insert(record("a.txt", "h2", 4, 200));
    let changes = detect_changes(&staged, &working);
    assert_eq!(changes.len(), 1);
    assert_eq!(changes[0].change_type, FileChangeType::Modified);
    assert_eq!(changes[0].path, "a.txt");
    assert_eq!(changes[0].description(), "M a.txt");
}

#[test]
fn test_file_stats() {
    let mut stats = FileStats::new();

    let record1 = FileRecord {
        path: "test1.txt".to_string(),
        chunks: vec!["hash1".to_string()],
        size: 100,
        mtime: current_timestamp(),
        permissions: 0o644,
        is_executable: false,
    };

    let record2 = FileRecord {
        path: "test2.exe".to_string(),
        chunks: vec!["hash2".to_string()],
        size: 200,
        mtime: current_timestamp(),
        permissions: 0o755,
        is_executable: true,
    };

    stats.add_file(&record1);
    stats.add_file(&record2);

    assert_eq!(stats.total_files, 2);
    assert_eq!(stats.total_chunks, 2);
    assert_eq!(stats.total_bytes, 300);
    assert_eq!(stats.executable_files, 1);
    assert_eq!(stats.binary_files, 1); // .exe is considered binary
    assert_eq!(stats.largest_file, 200);
}

#[test]
fn test_record_helpers() {
    let r = record("dir/test.exe", "h", 5, 0);
    assert_eq!(r.chunk_count(), 1);
    assert!(r.is_binary());
    assert!(!record("a.txt", "h", 5, 0).is_binary());
}
