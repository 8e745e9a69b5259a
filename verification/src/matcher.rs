//! The ignore matcher: decides whether a path is excluded by a rule set.
//!
//! A path is first normalized to forward slashes.  It is ignored when some
//! registered segment appears in it bounded by start-of-path or a slash on
//! the left and a slash on the right (`build` matches `/build/` and
//! `a/build/b`, not `buildable/`), or when the lower-cased extension of its
//! final segment is a registered extension.  Matching is case-sensitive for
//! segments and case-insensitive for extensions.

use vstd::prelude::*;

use crate::bytes::{bytes_equal, lower, lower_bytes, subrange_bytes, BACKSLASH, DOT, SLASH};
use crate::rules::{IgnorePatterns, RulesModel};

verus! {

/// `p` with every backslash replaced by a forward slash.
pub open spec fn normalize(p: Seq<u8>) -> Seq<u8> {
    p.map_values(|b: u8| if b == BACKSLASH { SLASH } else { b })
}

/// Segment `seg` appears in `p` at position `i`, bounded by start-of-path or
/// a slash on the left and a slash on the right.
pub open spec fn seg_match_at(p: Seq<u8>, seg: Seq<u8>, i: int) -> bool {
    &&& 0 <= i
    &&& i + seg.len() < p.len()
    &&& (i == 0 || p[i - 1] == SLASH)
    &&& p.subrange(i, i + seg.len()) == seg
    &&& p[i + seg.len()] == SLASH
}

/// Segment `seg` appears somewhere in `p`, segment-bounded.
pub open spec fn seg_matches(p: Seq<u8>, seg: Seq<u8>) -> bool {
    exists|i: int| seg_match_at(p, seg, i)
}

/// Index of the first byte of the final path segment: just after the last
/// slash, or 0 if there is no slash.
pub open spec fn seg_start(p: Seq<u8>) -> int
    decreases p.len(),
{
    if p.len() == 0 {
        0
    } else if p[p.len() - 1] == SLASH {
        p.len() as int
    } else {
        seg_start(p.drop_last())
    }
}

/// Index of the last dot of `s`, or `-1` if there is none.
pub open spec fn last_dot(s: Seq<u8>) -> int
    decreases s.len(),
{
    if s.len() == 0 {
        -1
    } else if s[s.len() - 1] == DOT {
        s.len() - 1
    } else {
        last_dot(s.drop_last())
    }
}

/// The extension of `p`'s final segment: the text after the segment's last
/// dot.  Absent when the segment has no dot, or when its only dot is the
/// leading one (a hidden name such as `.profile` has no extension).
pub open spec fn ext_of(p: Seq<u8>) -> Option<Seq<u8>> {
    let seg = p.subrange(seg_start(p), p.len() as int);
    let d = last_dot(seg);
    if d < 0 {
        None
    } else if d == 0 && seg[0] == DOT {
        None
    } else {
        Some(seg.subrange(d + 1, seg.len() as int))
    }
}

/// The whole matcher: some segment pattern matches the normalized path, or
/// the lower-cased extension of its final segment is registered.
pub open spec fn should_ignore_spec(p: Seq<u8>, rules: RulesModel) -> bool {
    let n = normalize(p);
    ||| exists|k: int| 0 <= k < rules.paths.len() && seg_matches(n, #[trigger] rules.paths[k])
    ||| (ext_of(n) is Some && rules.extensions.contains(lower(ext_of(n)->Some_0)))
}

/// `seg_start` is exactly the position after the last slash.
pub proof fn lemma_seg_start(p: Seq<u8>)
    ensures
        0 <= seg_start(p) <= p.len(),
        forall|k: int| seg_start(p) <= k < p.len() ==> p[k] != SLASH,
        seg_start(p) > 0 ==> p[seg_start(p) - 1] == SLASH,
    decreases p.len(),
{
    if p.len() == 0 {
    } else if p[p.len() - 1] == SLASH {
    } else {
        let d = p.drop_last();
        lemma_seg_start(d);
        assert forall|k: int| seg_start(p) <= k < p.len() implies p[k] != SLASH by {
            if k < p.len() - 1 {
                assert(p[k] == d[k]);
            }
        }
    }
}

/// Any position with no slash at or after it, and a slash (or the path's
/// start) just before it, is `seg_start`.
proof fn lemma_seg_start_unique(p: Seq<u8>, s: int)
    requires
        0 <= s <= p.len(),
        forall|k: int| s <= k < p.len() ==> p[k] != SLASH,
        s > 0 ==> p[s - 1] == SLASH,
    ensures
        seg_start(p) == s,
{
    lemma_seg_start(p);
    if s < seg_start(p) {
        assert(p[seg_start(p) - 1] == SLASH);
    } else if s > seg_start(p) {
        assert(p[s - 1] == SLASH);
    }
}

/// `last_dot` is exactly the position of the last dot.
pub proof fn lemma_last_dot(s: Seq<u8>)
    ensures
        -1 <= last_dot(s) < s.len(),
        last_dot(s) >= 0 ==> s[last_dot(s)] == DOT,
        forall|k: int| last_dot(s) < k < s.len() ==> s[k] != DOT,
    decreases s.len(),
{
    if s.len() == 0 {
    } else if s[s.len() - 1] == DOT {
    } else {
        let d = s.drop_last();
        lemma_last_dot(d);
        assert forall|k: int| last_dot(s) < k < s.len() implies s[k] != DOT by {
            if k < s.len() - 1 {
                assert(s[k] == d[k]);
            }
        }
    }
}

/// Any dot position with no dot after it is `last_dot`; no dot at all means
/// `last_dot` is `-1`.
proof fn lemma_last_dot_unique(s: Seq<u8>, d: int)
    requires
        -1 <= d < s.len(),
        d >= 0 ==> s[d] == DOT,
        forall|k: int| d < k < s.len() ==> s[k] != DOT,
    ensures
        last_dot(s) == d,
{
    lemma_last_dot(s);
    if d < last_dot(s) {
        assert(s[last_dot(s)] != DOT);
    } else if d > last_dot(s) {
        assert(s[d] != DOT);
    }
}

/// Normalizes a path's separators to forward slashes.
pub fn normalize_path(p: &Vec<u8>) -> (r: Vec<u8>)
    ensures
        r@ == normalize(p@),
{
    let mut out: Vec<u8> = Vec::new();
    let mut i: usize = 0;
    while i < p.len()
        invariant
            i <= p@.len(),
            out@.len() == i,
            forall|k: int| 0 <= k < i ==> out@[k] == normalize(p@)[k],
        decreases p@.len() - i,
    {
        if p[i] == BACKSLASH {
            out.push(SLASH);
        } else {
            out.push(p[i]);
        }
        i += 1;
    }
    proof {
        assert(out@ =~= normalize(p@));
    }
    out
}

/// Decides `seg_match_at` for one position.
fn seg_match_here(p: &Vec<u8>, seg: &Vec<u8>, i: usize) -> (r: bool)
    requires
        i < p@.len(),
    ensures
        r == seg_match_at(p@, seg@, i as int),
{
    if i > 0 && p[i - 1] != SLASH {
        return false;
    }
    let m = seg.len();
    if p.len() - i <= m {
        return false;
    }
    let mut k: usize = 0;
    while k < m
        invariant
            k <= m,
            m == seg@.len(),
            i + m < p@.len(),
            p@.len() <= usize::MAX,
            forall|t: int| 0 <= t < k ==> p@[i + t] == seg@[t],
        decreases m - k,
    {
        if p[i + k] != seg[k] {
            proof {
                assert(p@.subrange(i as int, i + m)[k as int] != seg@[k as int]);
            }
            return false;
        }
        k += 1;
    }
    if p[i + m] != SLASH {
        return false;
    }
    proof {
        assert(p@.subrange(i as int, i + m) =~= seg@);
    }
    true
}

/// Decides `seg_matches`: scans every position of `p`.
fn seg_matches_path(p: &Vec<u8>, seg: &Vec<u8>) -> (r: bool)
    ensures
        r == seg_matches(p@, seg@),
{
    let mut i: usize = 0;
    while i < p.len()
        invariant
            i <= p@.len(),
            forall|j: int| 0 <= j < i ==> !seg_match_at(p@, seg@, j),
        decreases p@.len() - i,
    {
        if seg_match_here(p, seg, i) {
            return true;
        }
        i += 1;
    }
    proof {
        assert forall|j: int| !seg_match_at(p@, seg@, j) by {
            if 0 <= j < p@.len() {
            }
        }
    }
    false
}

/// The lower-cased extension of `p`'s final segment, if there is one.
pub fn extension_lowered(p: &Vec<u8>) -> (r: Option<Vec<u8>>)
    ensures
        r is Some <==> ext_of(p@) is Some,
        r is Some ==> r->Some_0@ == lower(ext_of(p@)->Some_0),
{
    let mut s: usize = p.len();
    while s > 0 && p[s - 1] != SLASH
        invariant
            s <= p@.len(),
            forall|k: int| s <= k < p@.len() ==> p@[k] != SLASH,
        decreases s,
    {
        s -= 1;
    }
    proof {
        lemma_seg_start_unique(p@, s as int);
    }
    let ghost seg = p@.subrange(s as int, p@.len() as int);
    let mut t: usize = p.len();
    while t > s && p[t - 1] != DOT
        invariant
            s <= t <= p@.len(),
            forall|k: int| t <= k < p@.len() ==> p@[k] != DOT,
        decreases t,
    {
        t -= 1;
    }
    proof {
        assert(forall|k: int| 0 <= k < seg.len() ==> seg[k] == p@[s + k]);
    }
    if t == s {
        proof {
            lemma_last_dot_unique(seg, -1);
        }
        return None;
    }
    proof {
        lemma_last_dot_unique(seg, t - 1 - s);
    }
    if t - 1 == s && p[s] == DOT {
        return None;
    }
    let ext = subrange_bytes(p, t, p.len());
    proof {
        assert(ext@ =~= seg.subrange(t - s, seg.len() as int));
    }
    Some(lower_bytes(&ext))
}

/// Decides membership of a byte sequence in a list of byte sequences.
fn contains_bytes(list: &Vec<Vec<u8>>, x: &Vec<u8>) -> (r: bool)
    ensures
        r == list@.map_values(|v: Vec<u8>| v@).contains(x@),
{
    let ghost views = list@.map_values(|v: Vec<u8>| v@);
    let mut i: usize = 0;
    while i < list.len()
        invariant
            i <= list@.len(),
            views == list@.map_values(|v: Vec<u8>| v@),
            forall|k: int| 0 <= k < i ==> views[k] != x@,
        decreases list@.len() - i,
    {
        if bytes_equal(&list[i], x) {
            proof {
                assert(views[i as int] == x@);
            }
            return true;
        }
        i += 1;
    }
    false
}

/// The ignore matcher.  True exactly when some registered segment matches
/// the normalized path, or the path's lower-cased extension is registered.
pub fn should_ignore(path: &Vec<u8>, rules: &IgnorePatterns) -> (r: bool)
    ensures
        r == should_ignore_spec(path@, rules@),
{
    let n = normalize_path(path);
    let mut k: usize = 0;
    while k < rules.paths.len()
        invariant
            k <= rules.paths@.len(),
            n@ == normalize(path@),
            forall|j: int| 0 <= j < k ==> !seg_matches(n@, #[trigger] rules@.paths[j]),
        decreases rules.paths@.len() - k,
    {
        if seg_matches_path(&n, &rules.paths[k]) {
            proof {
                assert(seg_matches(n@, rules@.paths[k as int]));
            }
            return true;
        }
        k += 1;
    }
    match extension_lowered(&n) {
        Some(e) => {
            let r = contains_bytes(&rules.extensions, &e);
            proof {
                assert(e@ == lower(ext_of(normalize(path@))->Some_0));
            }
            r
        },
        None => false,
    }
}

} // verus!
