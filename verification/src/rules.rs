//! Ignore rules: the rule set type and the line-oriented rule-file parser.
//!
//! A rule file holds one rule per line.  Blank lines and lines starting with
//! `#` are skipped.  A line starting with `*` registers the remainder as an
//! extension exclusion, stored lower-cased with a leading dot stripped.  Any
//! other line is a literal path segment to exclude.  Opening and reading the
//! file is the caller's business; the parser here works on the file's bytes,
//! so a failed read simply means the caller passes nothing and scans with an
//! empty rule set.

use vstd::prelude::*;

use crate::bytes::{is_space, is_space_byte, lower, lower_bytes, subrange_bytes, DOT, HASH, NL,
    STAR};

verus! {

/// Path-pattern and extension exclusion rules, immutable once loaded.
pub struct IgnorePatterns {
    /// Literal path segments to exclude, in order of appearance.
    pub paths: Vec<Vec<u8>>,
    /// Excluded extensions, lower-cased, leading dot stripped.
    pub extensions: Vec<Vec<u8>>,
}

/// The mathematical content of an [`IgnorePatterns`] value.
pub struct RulesModel {
    pub paths: Seq<Seq<u8>>,
    pub extensions: Seq<Seq<u8>>,
}

impl View for IgnorePatterns {
    type V = RulesModel;

    open spec fn view(&self) -> RulesModel {
        RulesModel {
            paths: self.paths@.map_values(|p: Vec<u8>| p@),
            extensions: self.extensions@.map_values(|e: Vec<u8>| e@),
        }
    }
}

/// The rule set with no rules at all.
pub open spec fn empty_rules() -> RulesModel {
    RulesModel { paths: Seq::empty(), extensions: Seq::empty() }
}

/// Index of the first line feed of `s`, or `-1` if there is none.
pub open spec fn first_nl(s: Seq<u8>) -> int
    decreases s.len(),
{
    if s.len() == 0 {
        -1
    } else if s[0] == NL {
        0
    } else {
        let r = first_nl(s.skip(1));
        if r < 0 {
            -1
        } else {
            r + 1
        }
    }
}

/// `s` split at line feeds.  Splitting never drops bytes: a trailing line
/// feed yields a trailing empty line, which the parser then skips.
pub open spec fn split_lines(s: Seq<u8>) -> Seq<Seq<u8>>
    decreases s.len(),
{
    let j = first_nl(s);
    if j < 0 || j >= s.len() {
        seq![s]
    } else {
        seq![s.take(j)] + split_lines(s.skip(j + 1))
    }
}

/// `s` without leading ASCII whitespace.
pub open spec fn trim_front(s: Seq<u8>) -> Seq<u8>
    decreases s.len(),
{
    if s.len() > 0 && is_space(s[0]) {
        trim_front(s.skip(1))
    } else {
        s
    }
}

/// `s` without trailing ASCII whitespace.
pub open spec fn trim_back(s: Seq<u8>) -> Seq<u8>
    decreases s.len(),
{
    if s.len() > 0 && is_space(s[s.len() - 1]) {
        trim_back(s.drop_last())
    } else {
        s
    }
}

/// `s` without surrounding ASCII whitespace.
pub open spec fn trim(s: Seq<u8>) -> Seq<u8> {
    trim_back(trim_front(s))
}

/// An extension as registered: lower-cased, one leading dot stripped.
pub open spec fn registered_extension(e: Seq<u8>) -> Seq<u8> {
    let low = lower(e);
    if low.len() > 0 && low[0] == DOT {
        low.skip(1)
    } else {
        low
    }
}

/// One raw line folded into the rules gathered so far.
pub open spec fn apply_line(r: RulesModel, line: Seq<u8>) -> RulesModel {
    let t = trim(line);
    if t.len() == 0 || t[0] == HASH {
        r
    } else if t[0] == STAR {
        RulesModel { paths: r.paths, extensions: r.extensions.push(registered_extension(t.skip(1))) }
    } else {
        RulesModel { paths: r.paths.push(t), extensions: r.extensions }
    }
}

/// The rules registered by a sequence of raw lines, in order.
pub open spec fn parse_rules(lines: Seq<Seq<u8>>) -> RulesModel
    decreases lines.len(),
{
    if lines.len() == 0 {
        empty_rules()
    } else {
        apply_line(parse_rules(lines.drop_last()), lines.last())
    }
}

/// The rules registered by a whole rule file.
pub open spec fn rules_of(content: Seq<u8>) -> RulesModel {
    parse_rules(split_lines(content))
}

/// `first_nl` is exactly the first line-feed position.
proof fn lemma_first_nl_unique(s: Seq<u8>, j: int)
    requires
        0 <= j <= s.len(),
        forall|k: int| 0 <= k < j ==> s[k] != NL,
        j < s.len() ==> s[j] == NL,
    ensures
        j == s.len() ==> first_nl(s) == -1,
        j < s.len() ==> first_nl(s) == j,
    decreases s.len(),
{
    if s.len() == 0 {
    } else if s[0] == NL {
        assert(j == 0);
    } else {
        let tail = s.skip(1);
        assert(forall|k: int| 0 <= k < j - 1 ==> tail[k] == s[k + 1] && tail[k] != NL);
        assert(j >= 1);
        lemma_first_nl_unique(tail, j - 1);
    }
}

/// `trim_front` is exactly the suffix from the first non-space byte.
proof fn lemma_trim_front(s: Seq<u8>, a: int)
    requires
        0 <= a <= s.len(),
        forall|k: int| 0 <= k < a ==> is_space(s[k]),
        a < s.len() ==> !is_space(s[a]),
    ensures
        trim_front(s) == s.skip(a),
    decreases s.len(),
{
    if a == 0 {
        assert(s.skip(0) =~= s);
    } else {
        let tail = s.skip(1);
        assert(forall|k: int| 0 <= k < a - 1 ==> tail[k] == s[k + 1] && is_space(tail[k]));
        lemma_trim_front(tail, a - 1);
        assert(tail.skip(a - 1) =~= s.skip(a));
    }
}

/// `trim_back` is exactly the prefix up to the last non-space byte.
proof fn lemma_trim_back(s: Seq<u8>, b: int)
    requires
        0 <= b <= s.len(),
        forall|k: int| b <= k < s.len() ==> is_space(s[k]),
        b > 0 ==> !is_space(s[b - 1]),
    ensures
        trim_back(s) == s.take(b),
    decreases s.len(),
{
    if b == s.len() {
        if s.len() > 0 && is_space(s[s.len() - 1]) {
            assert(false);
        }
        assert(s.take(b) =~= s);
    } else {
        assert(is_space(s[s.len() - 1]));
        let head = s.drop_last();
        assert(forall|k: int| b <= k < head.len() ==> head[k] == s[k] && is_space(head[k]));
        lemma_trim_back(head, b);
        assert(head.take(b) =~= s.take(b));
    }
}

/// Copy of `s` without surrounding ASCII whitespace.
pub fn trim_bytes(s: &Vec<u8>) -> (r: Vec<u8>)
    ensures
        r@ == trim(s@),
{
    let mut a: usize = 0;
    while a < s.len() && is_space_byte(s[a])
        invariant
            a <= s@.len(),
            forall|k: int| 0 <= k < a ==> is_space(s@[k]),
        decreases s@.len() - a,
    {
        a += 1;
    }
    let mut b: usize = s.len();
    while b > a && is_space_byte(s[b - 1])
        invariant
            a <= b <= s@.len(),
            forall|k: int| b <= k < s@.len() ==> is_space(s@[k]),
        decreases b,
    {
        b -= 1;
    }
    proof {
        lemma_trim_front(s@, a as int);
        let f = s@.skip(a as int);
        assert(forall|k: int| b - a <= k < f.len() ==> f[k] == s@[k + a] && is_space(f[k]));
        lemma_trim_back(f, b - a);
        assert(f.take(b - a) =~= s@.subrange(a as int, b as int));
    }
    subrange_bytes(s, a, b)
}

impl IgnorePatterns {
    /// The rule set with no rules at all.
    pub fn empty() -> (r: IgnorePatterns)
        ensures
            r@ == empty_rules(),
    {
        let r = IgnorePatterns { paths: Vec::new(), extensions: Vec::new() };
        proof {
            assert(r@.paths =~= empty_rules().paths);
            assert(r@.extensions =~= empty_rules().extensions);
        }
        r
    }

    /// Registers the given path segments and extensions, normalizing each
    /// extension as a rule file would: lower-cased, one leading dot stripped.
    pub fn new(paths: Vec<Vec<u8>>, extensions: Vec<Vec<u8>>) -> (r: IgnorePatterns)
        ensures
            r@.paths == paths@.map_values(|p: Vec<u8>| p@),
            r@.extensions == extensions@.map_values(|e: Vec<u8>| registered_extension(e@)),
    {
        let mut regs: Vec<Vec<u8>> = Vec::new();
        let mut i: usize = 0;
        while i < extensions.len()
            invariant
                i <= extensions@.len(),
                regs@.len() == i,
                forall|k: int| 0 <= k < i ==> regs@[k]@ == registered_extension(extensions@[k]@),
            decreases extensions@.len() - i,
        {
            regs.push(register_extension(&extensions[i]));
            i += 1;
        }
        let r = IgnorePatterns { paths, extensions: regs };
        proof {
            assert(r@.extensions =~= extensions@.map_values(|e: Vec<u8>| registered_extension(e@)));
        }
        r
    }
}

/// An extension as registered: lower-cased, one leading dot stripped.
pub fn register_extension(e: &Vec<u8>) -> (r: Vec<u8>)
    ensures
        r@ == registered_extension(e@),
{
    let low = lower_bytes(e);
    if low.len() > 0 && low[0] == DOT {
        let r = subrange_bytes(&low, 1, low.len());
        proof {
            assert(r@ =~= lower(e@).skip(1));
        }
        r
    } else {
        low
    }
}

/// Parses a whole rule file.
///
/// `content` is the file's bytes; reading the file is the caller's business.
/// Every non-blank, non-comment line registers exactly one rule, in order.
pub fn load_ignore_patterns(content: &Vec<u8>) -> (r: IgnorePatterns)
    ensures
        r@ == rules_of(content@),
{
    let lines = split_lines_exec(content);
    let mut r = IgnorePatterns::empty();
    let ghost line_views = lines@.map_values(|l: Vec<u8>| l@);
    proof {
        assert(line_views.take(0) =~= Seq::<Seq<u8>>::empty());
    }
    let mut i: usize = 0;
    while i < lines.len()
        invariant
            i <= lines@.len(),
            line_views == lines@.map_values(|l: Vec<u8>| l@),
            r@ == parse_rules(line_views.take(i as int)),
        decreases lines@.len() - i,
    {
        proof {
            assert(line_views.take(i + 1).drop_last() =~= line_views.take(i as int));
            assert(line_views.take(i + 1).last() == lines@[i as int]@);
        }
        let t = trim_bytes(&lines[i]);
        if t.len() == 0 || t[0] == HASH {
        } else if t[0] == STAR {
            let rest = subrange_bytes(&t, 1, t.len());
            proof {
                assert(rest@ =~= trim(lines@[i as int]@).skip(1));
            }
            let ext = register_extension(&rest);
            let ghost prev = r@;
            r.extensions.push(ext);
            proof {
                assert(r@.paths =~= prev.paths);
                assert(r@.extensions =~= prev.extensions.push(
                    registered_extension(trim(lines@[i as int]@).skip(1))));
            }
        } else {
            let ghost prev = r@;
            r.paths.push(t);
            proof {
                assert(r@.extensions =~= prev.extensions);
                assert(r@.paths =~= prev.paths.push(trim(lines@[i as int]@)));
            }
        }
        i += 1;
    }
    proof {
        assert(line_views.take(lines@.len() as int) =~= line_views);
    }
    r
}

/// Splits the file's bytes at line feeds.
fn split_lines_exec(content: &Vec<u8>) -> (lines: Vec<Vec<u8>>)
    ensures
        lines@.map_values(|l: Vec<u8>| l@) == split_lines(content@),
{
    let mut lines: Vec<Vec<u8>> = Vec::new();
    let mut pos: usize = 0;
    proof {
        assert(content@.skip(0) =~= content@);
        assert(lines@.map_values(|l: Vec<u8>| l@) + split_lines(content@) =~= split_lines(
            content@));
    }
    loop
        invariant_except_break
            pos <= content@.len(),
            lines@.map_values(|l: Vec<u8>| l@) + split_lines(content@.skip(pos as int))
                == split_lines(content@),
        ensures
            lines@.map_values(|l: Vec<u8>| l@) == split_lines(content@),
        decreases content@.len() - pos,
    {
        let mut j: usize = pos;
        while j < content.len() && content[j] != NL
            invariant
                pos <= j <= content@.len(),
                forall|k: int| pos <= k < j ==> content@[k] != NL,
            decreases content@.len() - j,
        {
            j += 1;
        }
        let line = subrange_bytes(content, pos, j);
        let ghost prev_lines = lines@.map_values(|l: Vec<u8>| l@);
        let ghost tail = content@.skip(pos as int);
        proof {
            assert(forall|k: int| 0 <= k < j - pos ==> tail[k] == content@[k + pos] && tail[k]
                != NL);
            assert(j < content@.len() ==> tail[j - pos] == NL);
            lemma_first_nl_unique(tail, j - pos);
            assert(tail.take(j - pos) =~= content@.subrange(pos as int, j as int));
        }
        lines.push(line);
        proof {
            assert(lines@.map_values(|l: Vec<u8>| l@) =~= prev_lines.push(
                content@.subrange(pos as int, j as int)));
        }
        if j == content.len() {
            proof {
                assert(first_nl(tail) == -1);
                assert(split_lines(tail) =~= seq![tail]);
                assert(tail =~= content@.subrange(pos as int, j as int));
                assert(lines@.map_values(|l: Vec<u8>| l@) =~= prev_lines + seq![tail]);
            }
            break;
        }
        proof {
            assert(first_nl(tail) == j - pos);
            assert(split_lines(tail) == seq![tail.take(j - pos)] + split_lines(
                tail.skip(j - pos + 1)));
            assert(tail.skip(j - pos + 1) =~= content@.skip(j + 1));
            assert(prev_lines + split_lines(tail) =~= lines@.map_values(|l: Vec<u8>| l@)
                + split_lines(content@.skip(j + 1)));
        }
        pos = j + 1;
    }
    lines
}

} // verus!
