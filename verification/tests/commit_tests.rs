use blaze::commit::{build_commit, create_tree_hash, commit_digest, resolve_commit_prefix};
use blaze::records::{FileRecord, ManifestMap};
use blaze::errors::BlazeError;

fn record(path: &str, chunk: &str) -> FileRecord {
    FileRecord {
        path: path.to_string(),
        chunks: vec![chunk.to_string()],
        size: 1,
        mtime: 0,
        permissions: 0o644,
        is_executable: false,
    }
}

#[test]
fn test_empty_commit_refused() {
    let staged = ManifestMap::new();
    let result = build_commit(staged, None, "msg", 100, false);
    match result {
        Err(BlazeError::Repository(_)) => {},
        _ => panic!("Expected a repository error"),
    }
    let staged = ManifestMap::new();
    assert!(build_commit(staged, None, "msg", 100, true).is_ok());
}

#[test]
fn test_commit_fields() {
    let mut staged = ManifestMap::new();
    staged.insert(record("a.txt", "h1"));
    let commit = build_commit(staged, None, "  hello  ", 42, false).unwrap();
    assert_eq!(commit.message, "hello");
    assert_eq!(commit.timestamp, 42);
    assert!(commit.parent.is_none());
    assert_eq!(commit.hash.len(), 64);
    assert_eq!(commit.tree_hash.len(), 64);
}

#[test]
fn test_tree_digest_insert_order_invariant() {
    // equal manifest maps yield equal tree digests, however they grew
    let mut m1 = ManifestMap::new();
    m1.insert(record("a", "h1"));
    m1.insert(record("b", "h2"));
    let mut m2 = ManifestMap::new();
    m2.insert(record("b", "h2"));
    m2.insert(record("a", "h1"));
    assert_eq!(create_tree_hash(&m1), create_tree_hash(&m2));

    let mut m3 = ManifestMap::new();
    m3.insert(record("a", "h1"));
    m3.insert(record("b", "other"));
    assert_ne!(create_tree_hash(&m1), create_tree_hash(&m3));
}

#[test]
fn test_commit_digest_function_of_fields() {
    // rehashing the same canonical fields reproduces the digest
    let d1 = commit_digest(&None, "message", 7, 3, "tree");
    let d2 = commit_digest(&None, "  message  ", 7, 3, "tree");
    assert_eq!(d1, d2);
    let d3 = commit_digest(&Some("p".to_string()), "message", 7, 3, "tree");
    assert_ne!(d1, d3);
    let d4 = commit_digest(&None, "message", 8, 3, "tree");
    assert_ne!(d1, d4);
}

#[test]
fn test_rehash_reproduces_commit_digest() {
    let mut staged = ManifestMap::new();
    staged.insert(record("a.txt", "h1"));
    let commit = build_commit(staged, Some("parenthash".to_string()), " x ", 9, false).unwrap();
    let rehashed = commit_digest(&commit.parent, &commit.message, commit.timestamp,
        commit.files.len(), &commit.tree_hash);
    assert_eq!(rehashed, commit.hash);
}

#[test]
fn test_resolve_commit_prefix() {
    let commits = vec![
        ("abc111".to_string(), 10u64),
        ("abd222".to_string(), 30u64),
        ("abc333".to_string(), 20u64),
    ];
    let best = resolve_commit_prefix(&commits, "abc").unwrap();
    assert_eq!(best, 2);
    assert_eq!(resolve_commit_prefix(&commits, "ab").unwrap(), 1);
    assert!(resolve_commit_prefix(&commits, "zz").is_none());
}
