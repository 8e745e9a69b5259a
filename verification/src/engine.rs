//! The scan engine: filters a storage source's entries down to the ones
//! worth reporting.
//!
//! A storage source enumerates `(path, size, is-directory)` entries under a
//! root; the caller performs the I/O and hands the entries in, paths
//! storage-relative with forward-slash separators.  The engine reports a
//! file exactly when neither it nor any of its ancestor directories is
//! ignored and its size meets the threshold.  Directories are never
//! reported, and an ignored directory contributes no descendant at all.

use vstd::prelude::*;

use crate::bytes::{copy_bytes, prefix_bytes, BACKSLASH, SLASH};
use crate::config::ScanConfig;
use crate::matcher::{should_ignore, should_ignore_spec};
use crate::rules::{IgnorePatterns, RulesModel};

verus! {

/// One entry of a storage source: a file or directory under the root.
pub struct ScanEntry {
    /// Storage-relative path, forward-slash separators.
    pub path: Vec<u8>,
    /// Size in bytes; zero for directories.
    pub size_bytes: u64,
    /// Whether the entry is a directory.
    pub is_directory: bool,
}

/// The mathematical content of a [`ScanEntry`].
pub struct EntryModel {
    pub path: Seq<u8>,
    pub size_bytes: u64,
    pub is_directory: bool,
}

impl View for ScanEntry {
    type V = EntryModel;

    open spec fn view(&self) -> EntryModel {
        EntryModel { path: self.path@, size_bytes: self.size_bytes, is_directory: self.is_directory }
    }
}

/// The models of a sequence of entries.
pub open spec fn entry_views(s: Seq<ScanEntry>) -> Seq<EntryModel> {
    s.map_values(|e: ScanEntry| e@)
}

/// `j` cuts `p` at a separator or at its end, so `p.take(j)` is `p` itself
/// or one of its ancestor directories.
pub open spec fn is_cut(p: Seq<u8>, j: int) -> bool {
    0 <= j <= p.len() && (j == p.len() || p[j] == SLASH || p[j] == BACKSLASH)
}

/// The path, or one of its ancestor directories, is ignored.  An entry
/// below an ignored directory is excluded even when the entry itself
/// matches no rule: the traversal prunes the whole subtree.
pub open spec fn excluded(p: Seq<u8>, rules: RulesModel) -> bool {
    exists|j: int| is_cut(p, j) && should_ignore_spec(#[trigger] p.take(j), rules)
}

/// A file is reported exactly when it is no directory, neither it nor an
/// ancestor is ignored, and its size meets the threshold.
pub open spec fn qualifies(e: EntryModel, rules: RulesModel, threshold_bytes: u64) -> bool {
    &&& !e.is_directory
    &&& !excluded(e.path, rules)
    &&& e.size_bytes >= threshold_bytes
}

/// The subsequence of entries a scan reports, in input order.
pub open spec fn scan_spec(s: Seq<EntryModel>, rules: RulesModel, threshold_bytes: u64)
    -> Seq<EntryModel>
    decreases s.len(),
{
    if s.len() == 0 {
        Seq::empty()
    } else {
        let rest = scan_spec(s.drop_last(), rules, threshold_bytes);
        if qualifies(s.last(), rules, threshold_bytes) {
            rest.push(s.last())
        } else {
            rest
        }
    }
}

/// Decides `excluded`: tries the path itself and every ancestor prefix.
pub fn is_excluded(p: &Vec<u8>, rules: &IgnorePatterns) -> (r: bool)
    ensures
        r == excluded(p@, rules@),
{
    let mut j: usize = 0;
    while j < p.len()
        invariant
            j <= p@.len(),
            forall|k: int| 0 <= k < j && is_cut(p@, k) ==> !should_ignore_spec(
                #[trigger] p@.take(k), rules@),
        decreases p@.len() - j,
    {
        if p[j] == SLASH || p[j] == BACKSLASH {
            let pre = prefix_bytes(p, j);
            if should_ignore(&pre, rules) {
                proof {
                    assert(is_cut(p@, j as int) && should_ignore_spec(p@.take(j as int), rules@));
                }
                return true;
            }
        }
        j += 1;
    }
    let r = should_ignore(p, rules);
    proof {
        assert(p@.take(p@.len() as int) =~= p@);
        if r {
            assert(is_cut(p@, p@.len() as int) && should_ignore_spec(
                p@.take(p@.len() as int), rules@));
        } else {
            assert forall|k: int| is_cut(p@, k) implies !should_ignore_spec(
                #[trigger] p@.take(k), rules@) by {
                if k == p@.len() {
                    assert(p@.take(k) == p@);
                }
            }
        }
    }
    r
}

/// Runs one scan over an already enumerated storage source.
///
/// The result holds exactly the qualifying file entries, in input order:
/// no directories, nothing at or below an ignored directory, nothing under
/// the size threshold.
pub fn scan(entries: &Vec<ScanEntry>, rules: &IgnorePatterns, config: &ScanConfig) -> (out: Vec<
    ScanEntry,
>)
    requires
        config.wf(),
    ensures
        entry_views(out@) == scan_spec(entry_views(entries@), rules@, config.threshold_bytes),
{
    let ghost all = entry_views(entries@);
    let mut out: Vec<ScanEntry> = Vec::new();
    proof {
        assert(all.take(0) =~= Seq::<EntryModel>::empty());
        assert(entry_views(out@) =~= Seq::<EntryModel>::empty());
    }
    let mut i: usize = 0;
    while i < entries.len()
        invariant
            i <= entries@.len(),
            all == entry_views(entries@),
            entry_views(out@) == scan_spec(all.take(i as int), rules@, config.threshold_bytes),
        decreases entries@.len() - i,
    {
        proof {
            assert(all.take(i + 1).drop_last() =~= all.take(i as int));
            assert(all.take(i + 1).last() == entries@[i as int]@);
        }
        let e = &entries[i];
        let keep = if e.is_directory {
            false
        } else if is_excluded(&e.path, rules) {
            false
        } else {
            e.size_bytes >= config.threshold_bytes
        };
        if keep {
            let ghost prev = entry_views(out@);
            out.push(ScanEntry {
                path: copy_bytes(&e.path),
                size_bytes: e.size_bytes,
                is_directory: e.is_directory,
            });
            proof {
                assert(entry_views(out@) =~= prev.push(entries@[i as int]@));
            }
        }
        i += 1;
    }
    proof {
        assert(all.take(entries@.len() as int) =~= all);
    }
    out
}

/// One raw object-store listing result: key and size, either possibly
/// absent in what the service returned.
pub struct S3ObjectInfo {
    /// Object key, absent when the listing returned none.
    pub key: Option<Vec<u8>>,
    /// Object size in bytes, absent treated as zero.
    pub size: Option<u64>,
}

/// The mathematical content of an [`S3ObjectInfo`].
pub struct S3ObjectModel {
    pub key: Option<Seq<u8>>,
    pub size: Option<u64>,
}

impl View for S3ObjectInfo {
    type V = S3ObjectModel;

    open spec fn view(&self) -> S3ObjectModel {
        S3ObjectModel {
            key: match self.key {
                Some(ref k) => Some(k@),
                None => None,
            },
            size: self.size,
        }
    }
}

/// The models of a sequence of listed objects.
pub open spec fn object_views(s: Seq<S3ObjectInfo>) -> Seq<S3ObjectModel> {
    s.map_values(|o: S3ObjectInfo| o@)
}

/// `k` without its leading slashes.
pub open spec fn strip_leading_slashes(k: Seq<u8>) -> Seq<u8>
    decreases k.len(),
{
    if k.len() > 0 && k[0] == SLASH {
        strip_leading_slashes(k.skip(1))
    } else {
        k
    }
}

/// An object key as reported: rooted with exactly one leading slash.
pub open spec fn formatted_key(k: Seq<u8>) -> Seq<u8> {
    seq![SLASH] + strip_leading_slashes(k)
}

/// What one listed object contributes to the report: nothing when the key
/// is absent, the key is ignored, or the size (absent meaning zero) is
/// under the threshold; otherwise a file entry under the formatted key.
pub open spec fn object_result(o: S3ObjectModel, rules: RulesModel, threshold_bytes: u64)
    -> Option<EntryModel> {
    match o.key {
        None => None,
        Some(k) => {
            let size = match o.size {
                Some(s) => s,
                None => 0u64,
            };
            if should_ignore_spec(k, rules) {
                None
            } else if size < threshold_bytes {
                None
            } else {
                Some(EntryModel { path: formatted_key(k), size_bytes: size, is_directory: false })
            }
        },
    }
}

/// `strip_leading_slashes` is exactly the suffix from the first non-slash.
proof fn lemma_strip_leading_slashes(k: Seq<u8>, a: int)
    requires
        0 <= a <= k.len(),
        forall|t: int| 0 <= t < a ==> k[t] == SLASH,
        a < k.len() ==> k[a] != SLASH,
    ensures
        strip_leading_slashes(k) == k.skip(a),
    decreases k.len(),
{
    if a == 0 {
        assert(k.skip(0) =~= k);
    } else {
        let tail = k.skip(1);
        assert(forall|t: int| 0 <= t < a - 1 ==> tail[t] == k[t + 1] && tail[t] == SLASH);
        lemma_strip_leading_slashes(tail, a - 1);
        assert(tail.skip(a - 1) =~= k.skip(a));
    }
}

/// An object key as reported: rooted with exactly one leading slash.
pub fn format_s3_key(k: &Vec<u8>) -> (r: Vec<u8>)
    ensures
        r@ == formatted_key(k@),
{
    let mut a: usize = 0;
    while a < k.len() && k[a] == SLASH
        invariant
            a <= k@.len(),
            forall|t: int| 0 <= t < a ==> k@[t] == SLASH,
        decreases k@.len() - a,
    {
        a += 1;
    }
    proof {
        lemma_strip_leading_slashes(k@, a as int);
    }
    let mut out: Vec<u8> = Vec::new();
    out.push(SLASH);
    let mut i: usize = a;
    while i < k.len()
        invariant
            a <= i <= k@.len(),
            out@.len() == 1 + i - a,
            out@[0] == SLASH,
            forall|t: int| 0 <= t < i - a ==> #[trigger] out@[1 + t] == k@[a + t],
        decreases k@.len() - i,
    {
        out.push(k[i]);
        i += 1;
    }
    proof {
        assert forall|m: int| 0 <= m < out@.len() implies out@[m] == formatted_key(k@)[m] by {
            if m >= 1 {
                assert(out@[1 + (m - 1)] == k@[a + (m - 1)]);
            }
        }
        assert(out@ =~= formatted_key(k@));
    }
    out
}

/// Decides what one listed object contributes: skips a key-less result,
/// treats a missing size as zero, applies the ignore rules to the raw key
/// and the threshold to the size, and reports under the formatted key.
pub fn process_s3_object(object: &S3ObjectInfo, rules: &IgnorePatterns, config: &ScanConfig)
    -> (r: Option<ScanEntry>)
    requires
        config.wf(),
    ensures
        match r {
            Some(e) => object_result(object@, rules@, config.threshold_bytes) == Some(e@),
            None => object_result(object@, rules@, config.threshold_bytes) is None,
        },
{
    let key = match &object.key {
        Some(k) => k,
        None => {
            return None;
        },
    };
    if should_ignore(key, rules) {
        return None;
    }
    let size = match object.size {
        Some(s) => s,
        None => 0,
    };
    if size < config.threshold_bytes {
        return None;
    }
    Some(ScanEntry { path: format_s3_key(key), size_bytes: size, is_directory: false })
}

/// The entries an object-store scan reports, in listing order.
pub open spec fn scan_objects_spec(
    objects: Seq<S3ObjectModel>,
    rules: RulesModel,
    threshold_bytes: u64,
) -> Seq<EntryModel>
    decreases objects.len(),
{
    if objects.len() == 0 {
        Seq::empty()
    } else {
        let rest = scan_objects_spec(objects.drop_last(), rules, threshold_bytes);
        match object_result(objects.last(), rules, threshold_bytes) {
            Some(e) => rest.push(e),
            None => rest,
        }
    }
}

/// Runs one scan over a flattened object-store listing.
pub fn scan_objects(objects: &Vec<S3ObjectInfo>, rules: &IgnorePatterns, config: &ScanConfig)
    -> (out: Vec<ScanEntry>)
    requires
        config.wf(),
    ensures
        entry_views(out@) == scan_objects_spec(
            object_views(objects@), rules@, config.threshold_bytes),
{
    let ghost all = object_views(objects@);
    let mut out: Vec<ScanEntry> = Vec::new();
    proof {
        assert(all.take(0) =~= Seq::<S3ObjectModel>::empty());
        assert(entry_views(out@) =~= Seq::<EntryModel>::empty());
    }
    let mut i: usize = 0;
    while i < objects.len()
        invariant
            i <= objects@.len(),
            all == object_views(objects@),
            config.wf(),
            entry_views(out@) == scan_objects_spec(
                all.take(i as int), rules@, config.threshold_bytes),
        decreases objects@.len() - i,
    {
        proof {
            assert(all.take(i + 1).drop_last() =~= all.take(i as int));
            assert(all.take(i + 1).last() == objects@[i as int]@);
        }
        match process_s3_object(&objects[i], rules, config) {
            Some(e) => {
                let ghost prev = entry_views(out@);
                let ghost ev = e@;
                out.push(e);
                proof {
                    assert(entry_views(out@) =~= prev.push(ev));
                }
            },
            None => {},
        }
        i += 1;
    }
    proof {
        assert(all.take(objects@.len() as int) =~= all);
    }
    out
}

/// Threshold boundary for an object-store listing: a keyed object that no
/// rule ignores is reported exactly when its size (absent meaning zero)
/// meets the threshold.
pub proof fn lemma_object_threshold_boundary(
    o: S3ObjectModel,
    rules: RulesModel,
    threshold_bytes: u64,
)
    requires
        o.key is Some,
        !should_ignore_spec(o.key->Some_0, rules),
    ensures
        object_result(o, rules, threshold_bytes) is Some <==> (match o.size {
            Some(s) => s,
            None => 0u64,
        }) >= threshold_bytes,
{
}

/// Idempotence over an unchanged listing: an object-store scan is a pure
/// function of the listed objects, the rules and the threshold.
pub proof fn lemma_scan_objects_idempotent(
    s1: Seq<S3ObjectModel>,
    s2: Seq<S3ObjectModel>,
    rules: RulesModel,
    threshold_bytes: u64,
)
    requires
        s1 == s2,
    ensures
        scan_objects_spec(s1, rules, threshold_bytes) == scan_objects_spec(
            s2, rules, threshold_bytes),
{
}

/// Every reported entry qualifies and came from the input.
pub proof fn lemma_scan_sound(s: Seq<EntryModel>, rules: RulesModel, threshold_bytes: u64)
    ensures
        forall|e: EntryModel| #[trigger] scan_spec(s, rules, threshold_bytes).contains(e)
            ==> qualifies(e, rules, threshold_bytes) && s.contains(e),
    decreases s.len(),
{
    if s.len() > 0 {
        lemma_scan_sound(s.drop_last(), rules, threshold_bytes);
        assert forall|e: EntryModel| #[trigger] scan_spec(s, rules, threshold_bytes).contains(e)
            implies qualifies(e, rules, threshold_bytes) && s.contains(e) by {
            let rest = scan_spec(s.drop_last(), rules, threshold_bytes);
            if qualifies(s.last(), rules, threshold_bytes) {
                if e == s.last() {
                    assert(s[s.len() - 1] == e);
                } else {
                    let k = choose|k: int|
                        0 <= k < rest.push(s.last()).len() && rest.push(s.last())[k] == e;
                    assert(rest[k] == e);
                    assert(rest.contains(e));
                }
            }
            if rest.contains(e) {
                assert(s.contains(e)) by {
                    let k = choose|k: int| 0 <= k < s.drop_last().len() && s.drop_last()[k] == e;
                    assert(s[k] == e);
                }
            }
        }
    }
}

/// Every qualifying input entry is reported.
pub proof fn lemma_scan_complete(
    s: Seq<EntryModel>,
    rules: RulesModel,
    threshold_bytes: u64,
    e: EntryModel,
)
    requires
        s.contains(e),
        qualifies(e, rules, threshold_bytes),
    ensures
        scan_spec(s, rules, threshold_bytes).contains(e),
    decreases s.len(),
{
    let i = choose|i: int| 0 <= i < s.len() && s[i] == e;
    let rest = scan_spec(s.drop_last(), rules, threshold_bytes);
    if i == s.len() - 1 {
        assert(s.last() == e);
        assert(rest.push(e)[rest.len() as int] == e);
    } else {
        assert(s.drop_last()[i] == e);
        assert(s.drop_last().contains(e));
        lemma_scan_complete(s.drop_last(), rules, threshold_bytes, e);
        let k = choose|k: int| 0 <= k < rest.len() && rest[k] == e;
        if qualifies(s.last(), rules, threshold_bytes) {
            assert(rest.push(s.last())[k] == e);
        }
    }
}

/// Directory pruning: an entry whose path is an ignored directory `d`, or
/// lies below it, is never reported — even when the entry itself matches no
/// rule.
pub proof fn lemma_directory_pruning(
    s: Seq<EntryModel>,
    rules: RulesModel,
    threshold_bytes: u64,
    d: Seq<u8>,
    e: EntryModel,
)
    requires
        should_ignore_spec(d, rules),
        scan_spec(s, rules, threshold_bytes).contains(e),
    ensures
        e.path != d,
        !(e.path.len() > d.len() && e.path.take(d.len() as int) == d && e.path[d.len() as int]
            == SLASH),
{
    lemma_scan_sound(s, rules, threshold_bytes);
    assert(qualifies(e, rules, threshold_bytes));
    if e.path == d {
        assert(e.path.take(e.path.len() as int) =~= e.path);
        assert(is_cut(e.path, e.path.len() as int) && should_ignore_spec(
            e.path.take(e.path.len() as int), rules));
        assert(excluded(e.path, rules));
    }
    if e.path.len() > d.len() && e.path.take(d.len() as int) == d && e.path[d.len() as int]
        == SLASH {
        assert(is_cut(e.path, d.len() as int) && should_ignore_spec(
            e.path.take(d.len() as int), rules));
        assert(excluded(e.path, rules));
    }
}

/// Threshold boundary: among entries that are files and not excluded, a
/// size of exactly the threshold is reported and one byte less is not.
pub proof fn lemma_threshold_boundary(
    s: Seq<EntryModel>,
    rules: RulesModel,
    threshold_bytes: u64,
    e: EntryModel,
)
    requires
        s.contains(e),
        !e.is_directory,
        !excluded(e.path, rules),
    ensures
        e.size_bytes >= threshold_bytes <==> scan_spec(s, rules, threshold_bytes).contains(e),
{
    if e.size_bytes >= threshold_bytes {
        lemma_scan_complete(s, rules, threshold_bytes, e);
    }
    if scan_spec(s, rules, threshold_bytes).contains(e) {
        lemma_scan_sound(s, rules, threshold_bytes);
    }
}

/// Idempotence: a scan is a pure function of the enumerated entries, the
/// rules and the threshold, so two runs over an unchanged tree with the
/// same configuration report the same entries, in the same order.
pub proof fn lemma_scan_idempotent(
    s1: Seq<EntryModel>,
    s2: Seq<EntryModel>,
    rules: RulesModel,
    threshold_bytes: u64,
)
    requires
        s1 == s2,
    ensures
        scan_spec(s1, rules, threshold_bytes) == scan_spec(s2, rules, threshold_bytes),
{
}

} // verus!
