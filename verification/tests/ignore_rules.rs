use foldercheck::matcher::should_ignore;
use foldercheck::rules::{load_ignore_patterns, IgnorePatterns};

fn bytes(s: &str) -> Vec<u8> {
    s.as_bytes().to_vec()
}

#[test]
fn test_should_ignore() {
    let ignore_patterns = IgnorePatterns::new(
        vec![bytes("target")],
        vec![bytes(".txt"), bytes(".log")],
    );

    assert!(should_ignore(&bytes("target/debug/build"), &ignore_patterns));
    assert!(should_ignore(&bytes("src/file.txt"), &ignore_patterns));
    assert!(!should_ignore(&bytes("src/main.rs"), &ignore_patterns));
}

#[test]
fn test_load_ignore_patterns() {
    let content = bytes("target\n*.log\n");
    let patterns = load_ignore_patterns(&content);
    assert!(!patterns.paths.is_empty());
    assert!(!patterns.extensions.is_empty());
    assert_eq!(patterns.paths.len() + patterns.extensions.len(), 2);
}

#[test]
fn test_rule_file_round_trip() {
    let content = bytes("# comment\n\nnode_modules\n*.log\n");
    let patterns = load_ignore_patterns(&content);
    assert_eq!(patterns.paths, vec![bytes("node_modules")]);
    assert_eq!(patterns.extensions, vec![bytes("log")]);
    // The single path pattern matches `node_modules` as a path segment.
    assert!(should_ignore(&bytes("node_modules/left-pad/index.js"), &patterns));
    assert!(should_ignore(&bytes("a/node_modules/b"), &patterns));
    assert!(!should_ignore(&bytes("node_modulesx/file.rs"), &patterns));
    // The single extension matches case-insensitively.
    assert!(should_ignore(&bytes("build/output.log"), &patterns));
}

#[test]
fn test_segment_bounded_matching() {
    let patterns = IgnorePatterns::new(vec![bytes("build")], vec![]);
    assert!(should_ignore(&bytes("/build/"), &patterns));
    assert!(should_ignore(&bytes("a/build/b"), &patterns));
    assert!(!should_ignore(&bytes("buildable/x"), &patterns));
    // No slash on the right of the segment: no match.
    assert!(!should_ignore(&bytes("a/build"), &patterns));
    // Backslash separators are normalized before matching.
    assert!(should_ignore(&bytes("a\\build\\b"), &patterns));
}

#[test]
fn test_extension_case_insensitive() {
    let patterns = IgnorePatterns::new(vec![], vec![bytes("LOG")]);
    assert!(should_ignore(&bytes("a/b.log"), &patterns));
    assert!(should_ignore(&bytes("a/b.LoG"), &patterns));
    assert!(!should_ignore(&bytes("a/b.logs"), &patterns));
}

#[test]
fn test_extension_dot_stripped() {
    let with_dot = load_ignore_patterns(&bytes("*.tmp\n"));
    let without_dot = load_ignore_patterns(&bytes("*tmp\n"));
    assert_eq!(with_dot.extensions, vec![bytes("tmp")]);
    assert_eq!(without_dot.extensions, vec![bytes("tmp")]);
    assert!(should_ignore(&bytes("x/y.tmp"), &with_dot));
    assert!(should_ignore(&bytes("x/y.tmp"), &without_dot));
}

#[test]
fn test_hidden_name_has_no_extension() {
    let patterns = IgnorePatterns::new(vec![], vec![bytes("profile")]);
    // `.profile` is a hidden name, not a file with extension `profile`.
    assert!(!should_ignore(&bytes("home/.profile"), &patterns));
    // A later dot does give an extension.
    assert!(should_ignore(&bytes("home/.backup.profile"), &patterns));
    // Only the final segment's dots count.
    assert!(!should_ignore(&bytes("a.profile/readme"), &patterns));
}

#[test]
fn test_rule_file_lines_trimmed() {
    let content = bytes("  spaced_segment  \r\n\t*.BAK\r\n   # indented comment\n");
    let patterns = load_ignore_patterns(&content);
    assert_eq!(patterns.paths, vec![bytes("spaced_segment")]);
    assert_eq!(patterns.extensions, vec![bytes("bak")]);
}

#[test]
fn test_empty_rule_set_ignores_nothing() {
    let patterns = IgnorePatterns::empty();
    assert!(!should_ignore(&bytes("anything/at.all"), &patterns));
    let parsed = load_ignore_patterns(&bytes("# only a comment\n\n"));
    assert!(parsed.paths.is_empty());
    assert!(parsed.extensions.is_empty());
}
