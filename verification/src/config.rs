//! Scan configuration and its validation.
//!
//! The caller resolves command-line input into a source kind, a root, an
//! optional prefix and a threshold; the checks here decide whether that
//! input may start a scan.  Whether the local root exists on disk is a fact
//! only the caller can observe, so it is handed in as a boolean.

use vstd::prelude::*;

verus! {

/// The two storage backends a scan can run over.
#[derive(Clone, Copy, Debug, PartialEq, Eq, Structural)]
pub enum SourceKind {
    /// A directory tree on the local filesystem.
    Local,
    /// A bucket (optionally narrowed to a prefix) in an object store.
    ObjectStore,
}

/// Why a configuration is rejected before any traversal starts.
#[derive(Clone, Copy, Debug, PartialEq, Eq, Structural)]
pub enum ConfigError {
    /// The size threshold is zero; it must be greater than zero.
    ZeroThreshold,
    /// The source is local but the root is not an existing directory.
    LocalRootMissing,
    /// The source kind is neither `local` nor `s3`.
    UnknownSourceKind,
}

/// One scan's immutable configuration.
pub struct ScanConfig {
    /// Directory path or bucket name, as UTF-8 bytes.
    pub root: Vec<u8>,
    /// Key prefix, object-store sources only.
    pub prefix: Option<Vec<u8>>,
    /// Minimum size, in bytes, for an entry to be reported.
    pub threshold_bytes: u64,
}

impl ScanConfig {
    /// A configuration is well formed when its threshold is positive.
    pub open spec fn wf(&self) -> bool {
        self.threshold_bytes >= 1
    }
}

/// The bytes of the word `local`.
pub open spec fn local_kind_bytes() -> Seq<u8> {
    seq![108u8, 111u8, 99u8, 97u8, 108u8]
}

/// The bytes of the word `s3`.
pub open spec fn s3_kind_bytes() -> Seq<u8> {
    seq![115u8, 51u8]
}

/// What `parse_source_kind` returns for each input.
pub open spec fn parse_source_kind_spec(s: Seq<u8>) -> Result<SourceKind, ConfigError> {
    if s == local_kind_bytes() {
        Ok(SourceKind::Local)
    } else if s == s3_kind_bytes() {
        Ok(SourceKind::ObjectStore)
    } else {
        Err(ConfigError::UnknownSourceKind)
    }
}

/// Resolves the source-kind word: `local` or `s3`, anything else rejected.
pub fn parse_source_kind(s: &Vec<u8>) -> (r: Result<SourceKind, ConfigError>)
    ensures
        r == parse_source_kind_spec(s@),
{
    // `local`
    if s.len() == 5 && s[0] == 108 && s[1] == 111 && s[2] == 99 && s[3] == 97 && s[4] == 108 {
        proof {
            assert(s@ =~= local_kind_bytes());
        }
        return Ok(SourceKind::Local);
    }
    // `s3`
    if s.len() == 2 && s[0] == 115 && s[1] == 51 {
        proof {
            assert(s@ =~= s3_kind_bytes());
        }
        return Ok(SourceKind::ObjectStore);
    }
    proof {
        if s@ == local_kind_bytes() {
            assert(s@.len() == 5 && s@[0] == 108 && s@[1] == 111 && s@[2] == 99 && s@[3] == 97
                && s@[4] == 108);
        }
        if s@ == s3_kind_bytes() {
            assert(s@.len() == 2 && s@[0] == 115 && s@[1] == 51);
        }
    }
    Err(ConfigError::UnknownSourceKind)
}

/// What `arg_check` returns for each input.  The threshold is examined
/// first, then the local root's existence.
pub open spec fn arg_check_spec(source: SourceKind, root_is_dir: bool, threshold_bytes: u64)
    -> Result<(), ConfigError> {
    if threshold_bytes == 0 {
        Err(ConfigError::ZeroThreshold)
    } else if source is Local && !root_is_dir {
        Err(ConfigError::LocalRootMissing)
    } else {
        Ok(())
    }
}

/// Validates resolved invocation input before any traversal starts: the
/// threshold must be positive, and a local root must be an existing
/// directory (`root_is_dir` reports what the caller observed on disk).
pub fn arg_check(source: SourceKind, root_is_dir: bool, threshold_bytes: u64) -> (r: Result<
    (),
    ConfigError,
>)
    ensures
        r == arg_check_spec(source, root_is_dir, threshold_bytes),
{
    if threshold_bytes == 0 {
        return Err(ConfigError::ZeroThreshold);
    }
    if matches!(source, SourceKind::Local) && !root_is_dir {
        return Err(ConfigError::LocalRootMissing);
    }
    Ok(())
}

} // verus!
