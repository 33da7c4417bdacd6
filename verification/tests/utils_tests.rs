use blaze::utils::{format_size, format_duration, is_binary_file, normalize_path,
    should_ignore_path, simple_glob_match, bytes_to_hex, hex_to_bytes, truncate_string,
    elapsed_phrase, filter_ignore_lines};

#[test]
fn test_format_size() {
    assert_eq!(format_size(512), "512 B");
    assert_eq!(format_size(1024), "1.00 KB");
    assert_eq!(format_size(1536), "1.50 KB");
    assert_eq!(format_size(1024 * 1024), "1.00 MB");
    assert_eq!(format_size(1024 * 1024 * 1024), "1.00 GB");
}

#[test]
fn test_format_duration() {
    assert_eq!(format_duration(30), "30s");
    assert_eq!(format_duration(90), "1m 30s");
    assert_eq!(format_duration(3661), "1h 1m");
}

#[test]
fn test_is_binary_file() {
    assert!(is_binary_file("test.exe"));
    assert!(is_binary_file("image.jpg"));
    assert!(!is_binary_file("script.sh"));
    assert!(!is_binary_file("readme.txt"));
}

#[test]
fn test_normalize_path() {
    assert_eq!(normalize_path("./foo/bar"), "foo/bar");
    assert_eq!(normalize_path("foo\\bar"), "foo/bar");
    assert_eq!(normalize_path("foo//bar"), "foo/bar");
}

#[test]
fn test_should_ignore_path() {
    let patterns = &[".git/", "*.tmp", "node_modules/"];

    assert!(should_ignore_path(".git/config", patterns));
    assert!(should_ignore_path("test.tmp", patterns));
    assert!(should_ignore_path("node_modules/package", patterns));
    assert!(!should_ignore_path("src/main.rs", patterns));
}

#[test]
fn test_simple_glob_match() {
    assert!(simple_glob_match("*.txt", "readme.txt"));
    assert!(simple_glob_match("test*", "test123"));
    assert!(simple_glob_match("*test*", "mytest123"));
    assert!(!simple_glob_match("*.txt", "readme.md"));
}

#[test]
fn test_bytes_to_hex() {
    assert_eq!(bytes_to_hex(&[0x00, 0xff, 0x42]), "00ff42");
    assert_eq!(bytes_to_hex(&[]), "");
}

#[test]
fn test_hex_to_bytes() {
    assert_eq!(hex_to_bytes("00ff42").unwrap(), vec![0x00, 0xff, 0x42]);
    assert_eq!(hex_to_bytes("").unwrap(), Vec::<u8>::new());
    assert!(hex_to_bytes("0").is_err()); // Odd length
    assert!(hex_to_bytes("gg").is_err()); // Invalid hex
}

#[test]
fn test_truncate_string() {
    assert_eq!(truncate_string("hello", 10), "hello");
    assert_eq!(truncate_string("hello world", 8), "hello...");
    assert_eq!(truncate_string("hi", 2), "hi");
    assert_eq!(truncate_string("test", 3), "...");
}

#[test]
fn test_hex_round_trip() {
    let data: Vec<u8> = (0u16..=255).map(|b| b as u8).collect();
    let hex = bytes_to_hex(&data);
    assert_eq!(hex.len(), 512);
    assert_eq!(hex_to_bytes(&hex).unwrap(), data);
    // uppercase digits parse to the same bytes
    assert_eq!(hex_to_bytes("00FF42").unwrap(), vec![0x00, 0xff, 0x42]);
}

#[test]
fn test_elapsed_phrase() {
    assert_eq!(elapsed_phrase(1000, 990), "just now");
    assert_eq!(elapsed_phrase(1000, 940), "1 minute ago");
    assert_eq!(elapsed_phrase(1000, 700), "5 minutes ago");
    assert_eq!(elapsed_phrase(10000, 10), "2 hours ago");
    assert_eq!(elapsed_phrase(200000, 10000), "2 days ago");
    assert_eq!(elapsed_phrase(10, 1000), "in the future");
}

#[test]
fn test_glob_multiple_stars() {
    assert!(simple_glob_match("a*b*c", "aXXbYYc"));
    assert!(!simple_glob_match("a*b*c", "aXXcYYb"));
    assert!(simple_glob_match("*", "anything"));
    assert!(simple_glob_match("", ""));
    assert!(!simple_glob_match("", "x"));
    assert!(simple_glob_match("exact", "exact"));
    assert!(!simple_glob_match("exact", "exactly"));
}

#[test]
fn test_filter_ignore_lines() {
    let lines = vec![
        "# comment".to_string(),
        "".to_string(),
        "  *.tmp  ".to_string(),
        "target/".to_string(),
        "   ".to_string(),
    ];
    assert_eq!(filter_ignore_lines(&lines), vec!["*.tmp".to_string(), "target/".to_string()]);
}
