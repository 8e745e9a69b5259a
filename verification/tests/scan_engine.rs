use foldercheck::config::ScanConfig;
use foldercheck::engine::{scan, scan_objects, S3ObjectInfo, ScanEntry};
use foldercheck::rules::IgnorePatterns;

fn bytes(s: &str) -> Vec<u8> {
    s.as_bytes().to_vec()
}

fn entry(path: &str, size_bytes: u64, is_directory: bool) -> ScanEntry {
    ScanEntry { path: bytes(path), size_bytes, is_directory }
}

fn config(threshold_bytes: u64) -> ScanConfig {
    ScanConfig { root: bytes("root"), prefix: None, threshold_bytes }
}

fn object(key: Option<&str>, size: Option<u64>) -> S3ObjectInfo {
    S3ObjectInfo { key: key.map(bytes), size }
}

#[test]
fn test_scenario_local_tree() {
    let entries = vec![
        entry("a", 0, true),
        entry("a/file1.txt", 5, false),
        entry("a/file2.log", 500, false),
        entry("b", 0, true),
        entry("b/big.bin", 10000, false),
    ];
    let rules = IgnorePatterns::new(vec![], vec![bytes("log")]);
    let out = scan(&entries, &rules, &config(100));
    assert_eq!(out.len(), 1);
    assert_eq!(out[0].path, bytes("b/big.bin"));
    assert_eq!(out[0].size_bytes, 10000);
    assert!(!out[0].is_directory);
}

#[test]
fn test_scenario_object_store() {
    let objects = vec![
        object(Some("logs/a.txt"), Some(50)),
        object(Some("data/b.bin"), Some(2000)),
        object(None, Some(10)),
    ];
    let rules = IgnorePatterns::empty();
    let out = scan_objects(&objects, &rules, &config(100));
    assert_eq!(out.len(), 1);
    assert_eq!(out[0].path, bytes("/data/b.bin"));
    assert_eq!(out[0].size_bytes, 2000);
}

#[test]
fn test_threshold_boundary() {
    let entries = vec![
        entry("exact.bin", 100, false),
        entry("under.bin", 99, false),
        entry("over.bin", 101, false),
    ];
    let rules = IgnorePatterns::empty();
    let out = scan(&entries, &rules, &config(100));
    let paths: Vec<Vec<u8>> = out.iter().map(|e| e.path.clone()).collect();
    assert_eq!(paths, vec![bytes("exact.bin"), bytes("over.bin")]);
}

#[test]
fn test_directory_pruning() {
    // The directory `cache.log` is ignored by extension; its child matches
    // no rule and is big enough, yet must not be reported.
    let entries = vec![
        entry("cache.log", 0, true),
        entry("cache.log/huge.bin", 10000, false),
        entry("kept/huge.bin", 10000, false),
    ];
    let rules = IgnorePatterns::new(vec![], vec![bytes("log")]);
    let out = scan(&entries, &rules, &config(100));
    assert_eq!(out.len(), 1);
    assert_eq!(out[0].path, bytes("kept/huge.bin"));
}

#[test]
fn test_segment_pruning() {
    let entries = vec![
        entry("a/target", 0, true),
        entry("a/target/release/app", 5000, false),
        entry("a/src/app", 5000, false),
    ];
    let rules = IgnorePatterns::new(vec![bytes("target")], vec![]);
    let out = scan(&entries, &rules, &config(100));
    assert_eq!(out.len(), 1);
    assert_eq!(out[0].path, bytes("a/src/app"));
}

#[test]
fn test_directories_never_reported() {
    let entries = vec![entry("big_dir", 100000, true), entry("big_dir/file", 100000, false)];
    let rules = IgnorePatterns::empty();
    let out = scan(&entries, &rules, &config(1));
    assert_eq!(out.len(), 1);
    assert_eq!(out[0].path, bytes("big_dir/file"));
}

#[test]
fn test_scan_idempotent() {
    let entries = vec![
        entry("a", 0, true),
        entry("a/one.txt", 400, false),
        entry("a/two.log", 400, false),
        entry("three.bin", 3, false),
    ];
    let rules = IgnorePatterns::new(vec![], vec![bytes("log")]);
    let cfg = config(10);
    let first = scan(&entries, &rules, &cfg);
    let second = scan(&entries, &rules, &cfg);
    assert_eq!(first.len(), second.len());
    for (a, b) in first.iter().zip(second.iter()) {
        assert_eq!(a.path, b.path);
        assert_eq!(a.size_bytes, b.size_bytes);
        assert_eq!(a.is_directory, b.is_directory);
    }
}

#[test]
fn test_object_missing_size_is_zero() {
    let objects = vec![object(Some("no-size.bin"), None)];
    let rules = IgnorePatterns::empty();
    assert_eq!(scan_objects(&objects, &rules, &config(1)).len(), 0);
}

#[test]
fn test_object_keys_formatted_with_leading_slash() {
    let objects = vec![
        object(Some("plain/key.bin"), Some(500)),
        object(Some("//doubled/key.bin"), Some(500)),
    ];
    let rules = IgnorePatterns::empty();
    let out = scan_objects(&objects, &rules, &config(100));
    assert_eq!(out.len(), 2);
    assert_eq!(out[0].path, bytes("/plain/key.bin"));
    assert_eq!(out[1].path, bytes("/doubled/key.bin"));
}

#[test]
fn test_object_ignored_by_rules() {
    let objects = vec![
        object(Some("logs/app.log"), Some(9000)),
        object(Some("tmp/scratch.bin"), Some(9000)),
        object(Some("data/kept.bin"), Some(9000)),
    ];
    let rules = IgnorePatterns::new(vec![bytes("tmp")], vec![bytes("log")]);
    let out = scan_objects(&objects, &rules, &config(100));
    assert_eq!(out.len(), 1);
    assert_eq!(out[0].path, bytes("/data/kept.bin"));
}
