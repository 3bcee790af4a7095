//! Path filtering and ignore/manifest pattern parsing.
//!
//! A path passes a filter list when any filter equals it, equals its base
//! name, prefixes it, or glob-matches either; pattern files are parsed by
//! trimming lines and dropping blanks and comments.

use vstd::prelude::*;
use vstd::string::StrSliceExecFns;
use crate::text::{
    first_non_space_idx, first_where, has_prefix, has_prefix_at, is_space, is_space_char,
    lemma_first_where, lines_spec, split_lines, str_eq,
};

verus! {

/// Whether the glob pattern `pat` matches `path`, under default match
/// options; false for an unparsable pattern.  A function of the two texts
/// alone.
pub uninterp spec fn glob_matches(pat: Seq<char>, path: Seq<char>) -> bool;

/// Relies on `glob::Pattern::new` and `glob::Pattern::matches`: whether a
/// shell-style pattern matches a path is a pure function of pattern and
/// path text, and an unparsable pattern matches nothing.
#[verifier::external_body]
fn glob_match(pattern: &str, path: &str) -> (r: bool)
    ensures
        r == glob_matches(pattern@, path@),
{
    match glob::Pattern::new(pattern) {
        Ok(p) => p.matches(path),
        Err(_) => false,
    }
}

/// A path or filter with one leading `./` removed.
pub open spec fn strip_dot_slash(s: Seq<char>) -> Seq<char> {
    if has_prefix(s, seq!['.', '/']) {
        s.skip(2)
    } else {
        s
    }
}

/// `s` with one leading `./` removed.
pub fn strip_dot_slash_str<'a>(s: &'a str) -> (r: &'a str)
    ensures
        r@ == strip_dot_slash(s@),
{
    proof {
        reveal_strlit("./");
        assert(("./")@ =~= seq!['.', '/']);
    }
    if has_prefix_at(s, 0, "./") {
        let n = s.unicode_len();
        let r = s.substring_char(2, n);
        proof {
            assert(s@.subrange(2, n as int) =~= s@.skip(2));
        }
        r
    } else {
        s
    }
}

/// The slash-separated segments of a path, with no segment after a trailing
/// slash.
pub open spec fn segs(s: Seq<char>) -> Seq<Seq<char>>
    decreases s.len(),
{
    if s.len() == 0 {
        Seq::empty()
    } else {
        let i = first_where(s, |c: char| c == '/');
        if 0 <= i && i < s.len() {
            seq![s.take(i)] + segs(s.skip(i + 1))
        } else {
            seq![s]
        }
    }
}

/// A path segment that names something: non-empty and not the current
/// directory.
pub open spec fn good_seg(t: Seq<char>) -> bool {
    t.len() > 0 && t != seq!['.']
}

/// The naming segments of a path, in order.
pub open spec fn good_segs(ss: Seq<Seq<char>>) -> Seq<Seq<char>>
    decreases ss.len(),
{
    if ss.len() == 0 {
        Seq::empty()
    } else {
        let rest = good_segs(ss.drop_last());
        if good_seg(ss.last()) {
            rest.push(ss.last())
        } else {
            rest
        }
    }
}

/// The base name of a path: its last naming segment, or empty when there is
/// none or it is the parent directory.
pub open spec fn basename_spec(s: Seq<char>) -> Seq<char> {
    let gs = good_segs(segs(s));
    if gs.len() == 0 {
        Seq::empty()
    } else if gs.last() == seq!['.', '.'] {
        Seq::empty()
    } else {
        gs.last()
    }
}

/// When `ss[i]` is the last naming segment, it is the last element of
/// `good_segs`.
proof fn lemma_good_segs_last(ss: Seq<Seq<char>>, i: int)
    requires
        0 <= i < ss.len(),
        good_seg(ss[i]),
        forall|j: int| i < j < ss.len() ==> !good_seg(#[trigger] ss[j]),
    ensures
        good_segs(ss).len() >= 1,
        good_segs(ss).last() == ss[i],
    decreases ss.len(),
{
    assert(forall|j: int| 0 <= j < ss.len() - 1 ==> ss.drop_last()[j] == #[trigger] ss[j]);
    if i == ss.len() - 1 {
        assert(ss.last() == ss[i]);
    } else {
        assert(ss.last() == ss[ss.len() - 1]);
        lemma_good_segs_last(ss.drop_last(), i);
    }
}

/// With no naming segment, `good_segs` is empty.
proof fn lemma_good_segs_empty(ss: Seq<Seq<char>>)
    requires
        forall|j: int| 0 <= j < ss.len() ==> !good_seg(#[trigger] ss[j]),
    ensures
        good_segs(ss).len() == 0,
    decreases ss.len(),
{
    if ss.len() > 0 {
        assert(forall|j: int| 0 <= j < ss.len() - 1 ==> ss.drop_last()[j] == #[trigger] ss[j]);
        assert(ss.last() == ss[ss.len() - 1]);
        lemma_good_segs_empty(ss.drop_last());
    }
}

/// Split `s` into slash-separated segments, exactly as [`segs`] lists them.
pub fn split_segs<'a>(s: &'a str) -> (r: Vec<&'a str>)
    ensures
        r@.map_values(|l: &str| l@) == segs(s@),
{
    let ghost f = |l: &str| l@;
    let ghost sl = |c: char| c == '/';
    let n = s.unicode_len();
    let mut r: Vec<&'a str> = Vec::new();
    let mut start: usize = 0;
    let mut i: usize = 0;
    proof {
        assert(s@.skip(0) =~= s@);
    }
    while i < n
        invariant
            0 <= start <= i <= n,
            n == s@.len(),
            f == (|l: &str| l@),
            sl == (|c: char| c == '/'),
            forall|k: int| start <= k < i ==> s@[k] != '/',
            segs(s@) == r@.map_values(f) + segs(s@.skip(start as int)),
        decreases n - i,
    {
        if s.get_char(i) == '/' {
            let line = s.substring_char(start, i);
            proof {
                let t = s@.skip(start as int);
                assert forall|k: int| 0 <= k < i - start implies !sl(t[k]) by {
                    assert(t[k] == s@[start + k]);
                }
                assert(t[i - start] == s@[i as int]);
                crate::text::lemma_first_where_unique(t, sl, i - start);
                assert(t.take(i - start) =~= s@.subrange(start as int, i as int));
                assert(t.take(i - start) =~= line@);
                assert(t.skip(i - start + 1) =~= s@.skip(i + 1));
                assert(segs(t) == seq![t.take(i - start)] + segs(t.skip(i - start + 1)));
                assert(r@.push(line).map_values(f) =~= r@.map_values(f).push(line@));
                assert(r@.map_values(f) + (seq![line@] + segs(s@.skip(i + 1))) =~= r@.map_values(
                    f,
                ).push(line@) + segs(s@.skip(i + 1)));
            }
            r.push(line);
            start = i + 1;
        }
        i += 1;
    }
    if start < n {
        let line = s.substring_char(start, n);
        proof {
            let t = s@.skip(start as int);
            assert forall|k: int| 0 <= k < t.len() implies !sl(t[k]) by {
                assert(t[k] == s@[start + k]);
            }
            crate::text::lemma_first_where_unique(t, sl, t.len() as int);
            assert(t =~= line@);
            assert(segs(t) == seq![t]);
            assert(r@.push(line).map_values(f) =~= r@.map_values(f).push(line@));
            assert(r@.map_values(f).push(line@) =~= r@.map_values(f) + seq![line@]);
        }
        r.push(line);
    } else {
        proof {
            assert(s@.skip(start as int) =~= Seq::<char>::empty());
            assert(r@.map_values(f) + segs(s@.skip(start as int)) =~= r@.map_values(f));
        }
    }
    r
}

/// Whether a segment names something, per [`good_seg`].
fn is_good_seg(t: &str) -> (r: bool)
    ensures
        r == good_seg(t@),
{
    let n = t.unicode_len();
    if n == 0 {
        return false;
    }
    if n == 1 && t.get_char(0) == '.' {
        proof {
            assert(t@ =~= seq!['.']);
        }
        return false;
    }
    proof {
        if t@ == seq!['.'] {
            assert(t@.len() == 1 && t@[0] == '.');
        }
    }
    true
}

/// The base name of a path, per [`basename_spec`]: the final path
/// component, or empty for a path ending in the parent or current
/// directory, or in nothing at all.
pub fn basename<'a>(s: &'a str) -> (r: &'a str)
    ensures
        r@ == basename_spec(s@),
{
    let parts = split_segs(s);
    let ghost ssv = parts@.map_values(|l: &str| l@);
    let n = parts.len();
    let mut k = n;
    while k > 0
        invariant
            0 <= k <= n,
            n == parts@.len(),
            ssv == parts@.map_values(|l: &str| l@),
            ssv == segs(s@),
            forall|j: int| k <= j < n ==> !good_seg(#[trigger] ssv[j]),
        decreases k,
    {
        k -= 1;
        let part = parts[k];
        proof {
            assert(ssv[k as int] == part@);
        }
        if is_good_seg(part) {
            proof {
                lemma_good_segs_last(ssv, k as int);
                reveal_strlit("..");
                assert(("..")@ =~= seq!['.', '.']);
            }
            if str_eq(part, "..") {
                proof {
                    reveal_strlit("");
                    assert(("")@ =~= Seq::<char>::empty());
                }
                return "";
            }
            return part;
        }
    }
    proof {
        lemma_good_segs_empty(ssv);
        reveal_strlit("");
        assert(("")@ =~= Seq::<char>::empty());
    }
    ""
}

/// Whether one filter accepts the normalized path `npath` with base name
/// `base`: it equals either, prefixes the path, or glob-matches either.
pub open spec fn matches_one(f: Seq<char>, npath: Seq<char>, base: Seq<char>) -> bool {
    let nf = strip_dot_slash(f);
    npath == nf || base == nf || has_prefix(npath, nf) || glob_matches(nf, npath) || glob_matches(
        nf,
        base,
    )
}

/// Whether `path` passes the filter list: with no filters the default, else
/// acceptance by any filter, the path and each filter normalized by
/// [`strip_dot_slash`] and the path's base name also tried.
pub open spec fn matches_filters_spec(
    path: Seq<char>,
    filters: Seq<Seq<char>>,
    default: bool,
) -> bool {
    if filters.len() == 0 {
        default
    } else {
        exists|i: int|
            0 <= i < filters.len() && matches_one(
                #[trigger] filters[i],
                strip_dot_slash(path),
                basename_spec(strip_dot_slash(path)),
            )
    }
}

/// Whether `path` passes the filter list, per [`matches_filters_spec`].
#[verifier::loop_isolation(false)]
pub fn matches_filters(path: &str, filters: &[String], default: bool) -> (r: bool)
    ensures
        r == matches_filters_spec(path@, filters@.map_values(|f: String| f@), default),
{
    let ghost fvs = filters@.map_values(|f: String| f@);
    if filters.len() == 0 {
        return default;
    }
    let np = strip_dot_slash_str(path);
    let base = basename(np);
    let n = filters.len();
    let mut i: usize = 0;
    while i < n
        invariant
            0 <= i <= n,
            forall|j: int|
                0 <= j < i ==> !matches_one(
                    #[trigger] fvs[j],
                    strip_dot_slash(path@),
                    basename_spec(strip_dot_slash(path@)),
                ),
        decreases n - i,
    {
        let f = &filters[i];
        proof {
            assert(fvs[i as int] == f@);
        }
        let nf = strip_dot_slash_str(f.as_str());
        let hit = str_eq(np, nf) || str_eq(base, nf) || has_prefix_at(np, 0, nf) || glob_match(
            nf,
            np,
        ) || glob_match(nf, base);
        if hit {
            proof {
                assert(np@.skip(0) =~= np@);
                assert(matches_one(fvs[i as int], strip_dot_slash(path@), basename_spec(
                    strip_dot_slash(path@),
                )));
            }
            return true;
        }
        proof {
            assert(np@.skip(0) =~= np@);
        }
        i += 1;
    }
    false
}

/// The end of `s` before trailing whitespace: the index just past its last
/// non-whitespace character, or zero if it is all whitespace.
pub open spec fn trim_end_at(s: Seq<char>) -> int
    decreases s.len(),
{
    if s.len() == 0 {
        0
    } else if is_space_char(s.last()) {
        trim_end_at(s.drop_last())
    } else {
        s.len() as int
    }
}

/// Any end index with only whitespace after it and non-whitespace just
/// before it is `trim_end_at`.
proof fn lemma_trim_end_unique(s: Seq<char>, b: int)
    requires
        0 <= b <= s.len(),
        forall|j: int| b <= j < s.len() ==> is_space_char(#[trigger] s[j]),
        b > 0 ==> !is_space_char(s[b - 1]),
    ensures
        b == trim_end_at(s),
    decreases s.len(),
{
    if s.len() > 0 {
        assert(s.last() == s[s.len() - 1]);
        if is_space_char(s.last()) {
            assert(forall|j: int| 0 <= j < s.len() - 1 ==> s.drop_last()[j] == #[trigger] s[j]);
            assert(b < s.len());
            lemma_trim_end_unique(s.drop_last(), b);
        }
    }
}

/// `s` with leading and trailing whitespace removed.
pub open spec fn trim_spec(s: Seq<char>) -> Seq<char> {
    let a = first_where(s, |c: char| !is_space_char(c));
    let b = trim_end_at(s);
    if 0 <= a && a < b && b <= s.len() {
        s.subrange(a, b)
    } else {
        Seq::empty()
    }
}

/// `s` with leading and trailing whitespace removed.
pub fn trimmed<'a>(s: &'a str) -> (r: &'a str)
    ensures
        r@ == trim_spec(s@),
{
    let a = first_non_space_idx(s);
    let n = s.unicode_len();
    proof {
        lemma_first_where(s@, |c: char| !is_space_char(c));
    }
    let mut b = n;
    while b > 0 && is_space(s.get_char(b - 1))
        invariant
            0 <= b <= n,
            n == s@.len(),
            forall|j: int| b <= j < n ==> is_space_char(#[trigger] s@[j]),
        decreases b,
    {
        b -= 1;
    }
    proof {
        lemma_trim_end_unique(s@, b as int);
    }
    if a < b {
        s.substring_char(a, b)
    } else {
        proof {
            reveal_strlit("");
            assert(("")@ =~= Seq::<char>::empty());
        }
        ""
    }
}

/// Whether a trimmed line is kept as a pattern: non-empty and not a
/// comment.
pub open spec fn keep_pattern(t: Seq<char>) -> bool {
    t.len() > 0 && t[0] != '#'
}

/// The patterns among the first `k` lines, trimmed, in order.
pub open spec fn patterns_upto(lines: Seq<Seq<char>>, k: int) -> Seq<Seq<char>>
    decreases k,
{
    if k <= 0 {
        Seq::empty()
    } else {
        let prev = patterns_upto(lines, k - 1);
        let t = trim_spec(lines[k - 1]);
        if keep_pattern(t) {
            prev.push(t)
        } else {
            prev
        }
    }
}

/// The patterns of a pattern text: its lines, trimmed, with blank lines and
/// `#` comments dropped.
pub open spec fn parse_patterns_spec(content: Seq<char>) -> Seq<Seq<char>> {
    patterns_upto(lines_spec(content), lines_spec(content).len() as int)
}

/// Parse a pattern text: every line trimmed, blank lines and `#` comments
/// dropped, the rest kept in order.
#[verifier::loop_isolation(false)]
pub fn parse_patterns(content: &str) -> (r: Vec<String>)
    ensures
        r@.map_values(|p: String| p@) == parse_patterns_spec(content@),
{
    let ghost lv = lines_spec(content@);
    let lines = split_lines(content);
    let n = lines.len();
    let mut r: Vec<String> = Vec::new();
    proof {
        assert(r@.map_values(|p: String| p@) =~= patterns_upto(lv, 0));
    }
    let mut k: usize = 0;
    while k < n
        invariant
            0 <= k <= n,
            r@.map_values(|p: String| p@) == patterns_upto(lv, k as int),
        decreases n - k,
    {
        let t = trimmed(lines[k]);
        proof {
            assert(lines@[k as int]@ == lv[k as int]);
        }
        let tl = t.unicode_len();
        if tl > 0 && t.get_char(0) != '#' {
            let owned = t.to_owned();
            proof {
                assert(r@.push(owned).map_values(|p: String| p@) =~= r@.map_values(
                    |p: String| p@,
                ).push(trim_spec(lv[k as int])));
            }
            r.push(owned);
        }
        k += 1;
    }
    r
}

} // verus!
