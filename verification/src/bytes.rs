//! Byte-level helpers shared by the rule parser, the matcher and the engine.
//!
//! Paths and rule lines are UTF-8 byte sequences; every byte the logic ever
//! inspects is ASCII, so working bytewise is exact.

use vstd::prelude::*;

verus! {

/// `/`, the path separator every backend is normalized to.
pub const SLASH: u8 = 47;

/// `\`, the separator normalization replaces.
pub const BACKSLASH: u8 = 92;

/// `.`, which introduces a file extension.
pub const DOT: u8 = 46;

/// `*`, which introduces an extension rule line.
pub const STAR: u8 = 42;

/// `#`, which introduces a comment line.
pub const HASH: u8 = 35;

/// Line feed, the line terminator of a rule file.
pub const NL: u8 = 10;

/// ASCII whitespace: space, tab, line feed, vertical tab, form feed, carriage return.
pub open spec fn is_space(b: u8) -> bool {
    b == 32 || (9 <= b && b <= 13)
}

/// ASCII lower-casing of one byte.
pub open spec fn to_lower(b: u8) -> u8 {
    if 65 <= b && b <= 90 {
        (b + 32) as u8
    } else {
        b
    }
}

/// ASCII lower-casing of a whole byte sequence.
pub open spec fn lower(s: Seq<u8>) -> Seq<u8> {
    s.map_values(|b: u8| to_lower(b))
}

/// Decides `is_space`.
pub fn is_space_byte(b: u8) -> (r: bool)
    ensures
        r == is_space(b),
{
    b == 32 || (9 <= b && b <= 13)
}

/// Lower-cases one byte.
pub fn to_lower_byte(b: u8) -> (r: u8)
    ensures
        r == to_lower(b),
{
    if 65 <= b && b <= 90 {
        b + 32
    } else {
        b
    }
}

/// Lower-cases a whole byte vector.
pub fn lower_bytes(s: &Vec<u8>) -> (r: Vec<u8>)
    ensures
        r@ == lower(s@),
{
    let mut out: Vec<u8> = Vec::new();
    let mut i: usize = 0;
    while i < s.len()
        invariant
            i <= s@.len(),
            out@.len() == i,
            forall|k: int| 0 <= k < i ==> out@[k] == to_lower(s@[k]),
        decreases s@.len() - i,
    {
        out.push(to_lower_byte(s[i]));
        i += 1;
    }
    proof {
        assert(out@ =~= lower(s@));
    }
    out
}

/// Copy of the byte range `[from, to)`.
pub fn subrange_bytes(s: &Vec<u8>, from: usize, to: usize) -> (r: Vec<u8>)
    requires
        from <= to <= s@.len(),
    ensures
        r@ == s@.subrange(from as int, to as int),
{
    let mut out: Vec<u8> = Vec::new();
    let mut i: usize = from;
    while i < to
        invariant
            from <= i <= to <= s@.len(),
            out@.len() == i - from,
            forall|k: int| 0 <= k < out@.len() ==> out@[k] == s@[from + k],
        decreases to - i,
    {
        out.push(s[i]);
        i += 1;
    }
    proof {
        assert(out@ =~= s@.subrange(from as int, to as int));
    }
    out
}

/// Copy of the first `n` bytes.
pub fn prefix_bytes(s: &Vec<u8>, n: usize) -> (r: Vec<u8>)
    requires
        n <= s@.len(),
    ensures
        r@ == s@.take(n as int),
{
    let out = subrange_bytes(s, 0, n);
    proof {
        assert(out@ =~= s@.take(n as int));
    }
    out
}

/// Copy of the whole vector.
pub fn copy_bytes(s: &Vec<u8>) -> (r: Vec<u8>)
    ensures
        r@ == s@,
{
    let out = subrange_bytes(s, 0, s.len());
    proof {
        assert(out@ =~= s@);
    }
    out
}

/// Decides equality of two byte vectors.
pub fn bytes_equal(a: &Vec<u8>, b: &Vec<u8>) -> (r: bool)
    ensures
        r == (a@ == b@),
{
    if a.len() != b.len() {
        return false;
    }
    let mut i: usize = 0;
    while i < a.len()
        invariant
            i <= a@.len(),
            a@.len() == b@.len(),
            forall|k: int| 0 <= k < i ==> a@[k] == b@[k],
        decreases a@.len() - i,
    {
        if a[i] != b[i] {
            return false;
        }
        i += 1;
    }
    proof {
        assert(a@ =~= b@);
    }
    true
}

} // verus!
