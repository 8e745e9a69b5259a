use foldercheck::config::{arg_check, parse_source_kind, ConfigError, SourceKind};

fn bytes(s: &str) -> Vec<u8> {
    s.as_bytes().to_vec()
}

#[test]
fn test_arg_check_accepts_valid_input() {
    assert_eq!(arg_check(SourceKind::Local, true, 10), Ok(()));
    assert_eq!(arg_check(SourceKind::ObjectStore, false, 1), Ok(()));
}

#[test]
fn test_arg_check_rejects_zero_threshold() {
    assert_eq!(arg_check(SourceKind::Local, true, 0), Err(ConfigError::ZeroThreshold));
    // The threshold is examined before the root.
    assert_eq!(arg_check(SourceKind::Local, false, 0), Err(ConfigError::ZeroThreshold));
}

#[test]
fn test_arg_check_rejects_missing_local_root() {
    assert_eq!(arg_check(SourceKind::Local, false, 10), Err(ConfigError::LocalRootMissing));
}

#[test]
fn test_parse_source_kind() {
    assert_eq!(parse_source_kind(&bytes("local")), Ok(SourceKind::Local));
    assert_eq!(parse_source_kind(&bytes("s3")), Ok(SourceKind::ObjectStore));
    assert_eq!(parse_source_kind(&bytes("gcs")), Err(ConfigError::UnknownSourceKind));
    assert_eq!(parse_source_kind(&bytes("")), Err(ConfigError::UnknownSourceKind));
}
