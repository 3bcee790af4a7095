//! Character and line-level text helpers: whitespace, prefixes, line
//! splitting and joining, and lexicographic order on strings.
//!
//! Everything the engine states about file contents is phrased over these
//! spec functions.

use vstd::prelude::*;
use vstd::string::StrSliceExecFns;

verus! {

/// The characters with the Unicode `White_Space` property, the set that
/// leading-whitespace trimming removes.
pub open spec fn is_space_char(c: char) -> bool {
    let u = c as int;
    (9 <= u && u <= 13) || u == 32 || u == 0x85 || u == 0xA0 || u == 0x1680 || (0x2000 <= u && u
        <= 0x200A) || u == 0x2028 || u == 0x2029 || u == 0x202F || u == 0x205F || u == 0x3000
}

/// Whether `c` is whitespace, per [`is_space_char`].
pub fn is_space(c: char) -> (r: bool)
    ensures
        r == is_space_char(c),
{
    (c >= '\u{0009}' && c <= '\u{000D}') || c == ' ' || c == '\u{0085}' || c == '\u{00A0}'
        || c == '\u{1680}' || (c >= '\u{2000}' && c <= '\u{200A}') || c == '\u{2028}'
        || c == '\u{2029}' || c == '\u{202F}' || c == '\u{205F}' || c == '\u{3000}'
}

/// Index of the first character of `s` satisfying `p`, or `s.len()` if none
/// does.
pub open spec fn first_where(s: Seq<char>, p: spec_fn(char) -> bool) -> int
    decreases s.len(),
{
    if s.len() == 0 {
        0
    } else if p(s[0]) {
        0
    } else {
        1 + first_where(s.drop_first(), p)
    }
}

/// `first_where` returns the unique index with nothing satisfying `p` before
/// it and, if it is not the length, `p` holding at it.
pub proof fn lemma_first_where(s: Seq<char>, p: spec_fn(char) -> bool)
    ensures
        0 <= first_where(s, p) <= s.len(),
        forall|k: int| 0 <= k < first_where(s, p) ==> !p(s[k]),
        first_where(s, p) < s.len() ==> p(s[first_where(s, p)]),
    decreases s.len(),
{
    if s.len() > 0 && !p(s[0]) {
        lemma_first_where(s.drop_first(), p);
        assert(forall|k: int| 0 <= k < s.len() - 1 ==> s.drop_first()[k] == s[k + 1]);
        assert(forall|k: int| 0 <= k < first_where(s, p) ==> !p(s[k])) by {
            assert forall|k: int| 0 <= k < first_where(s, p) implies !p(s[k]) by {
                if k > 0 {
                    assert(s[k] == s.drop_first()[k - 1]);
                }
            }
        }
        if first_where(s, p) < s.len() {
            assert(s[first_where(s, p)] == s.drop_first()[first_where(s.drop_first(), p)]);
        }
    }
}

/// Any index with the two properties of [`lemma_first_where`] is
/// `first_where` itself.
pub proof fn lemma_first_where_unique(s: Seq<char>, p: spec_fn(char) -> bool, i: int)
    requires
        0 <= i <= s.len(),
        forall|k: int| 0 <= k < i ==> !p(s[k]),
        i < s.len() ==> p(s[i]),
    ensures
        i == first_where(s, p),
    decreases s.len(),
{
    if s.len() > 0 && !p(s[0]) {
        assert(i > 0 || i == s.len());
        if i == 0 {
            // then s.len() > 0 and p(s[0]), contradicting !p(s[0])
            assert(false);
        } else {
            assert(forall|k: int| 0 <= k < i - 1 ==> s.drop_first()[k] == s[k + 1] && !p(
                s[k + 1],
            ));
            lemma_first_where_unique(s.drop_first(), p, i - 1);
        }
    }
}

/// Whether `p` occurs in `s` at offset `at`.
pub open spec fn has_prefix_from(s: Seq<char>, at: int, p: Seq<char>) -> bool {
    0 <= at && at + p.len() <= s.len() && forall|k: int| 0 <= k < p.len() ==> s[at + k] == p[k]
}

/// Whether `p` occurs at the start of `s`.
pub open spec fn has_prefix(s: Seq<char>, p: Seq<char>) -> bool {
    has_prefix_from(s, 0, p)
}

/// `s` without a single trailing carriage return, if it has one.
pub open spec fn strip_cr(s: Seq<char>) -> Seq<char> {
    if s.len() > 0 && s.last() == '\r' {
        s.drop_last()
    } else {
        s
    }
}

/// The lines of a text, as `str::lines` yields them: split at `'\n'`, each
/// newline-terminated line stripped of one trailing `'\r'`, with no empty
/// line after a final newline and no lines at all for the empty text.  A
/// final line that no newline terminates keeps a trailing `'\r'`.
pub open spec fn lines_spec(s: Seq<char>) -> Seq<Seq<char>>
    decreases s.len(),
{
    if s.len() == 0 {
        Seq::empty()
    } else {
        let i = first_where(s, |c: char| c == '\n');
        if 0 <= i && i < s.len() {
            seq![strip_cr(s.take(i))] + lines_spec(s.skip(i + 1))
        } else {
            seq![s]
        }
    }
}

/// The given lines joined by a single `'\n'` between consecutive lines.
pub open spec fn joined_view(ls: Seq<Seq<char>>) -> Seq<char>
    decreases ls.len(),
{
    if ls.len() == 0 {
        Seq::empty()
    } else if ls.len() == 1 {
        ls[0]
    } else {
        joined_view(ls.drop_last()) + seq!['\n'] + ls.last()
    }
}

/// Strict lexicographic order on character sequences, by code point, the
/// order in which `str` comparison sorts strings.
pub open spec fn lex_lt(a: Seq<char>, b: Seq<char>) -> bool
    decreases a.len(),
{
    if b.len() == 0 {
        false
    } else if a.len() == 0 {
        true
    } else if a[0] != b[0] {
        (a[0] as int) < (b[0] as int)
    } else {
        lex_lt(a.drop_first(), b.drop_first())
    }
}

/// Non-strict lexicographic order.
pub open spec fn lex_le(a: Seq<char>, b: Seq<char>) -> bool {
    lex_lt(a, b) || a == b
}

/// Exactly one of `lex_lt(a, b)`, `a == b` and `lex_lt(b, a)` holds.
pub proof fn lemma_lex_trichotomy(a: Seq<char>, b: Seq<char>)
    ensures
        lex_lt(a, b) || lex_lt(b, a) || a == b,
        lex_lt(a, b) ==> !lex_lt(b, a) && a != b,
        lex_lt(b, a) ==> !lex_lt(a, b) && a != b,
    decreases a.len(),
{
    if a.len() == 0 && b.len() == 0 {
        assert(a =~= b);
    } else if a.len() > 0 && b.len() > 0 {
        if a[0] == b[0] {
            lemma_lex_trichotomy(a.drop_first(), b.drop_first());
            assert(forall|k: int| 0 <= k < a.len() - 1 ==> a.drop_first()[k] == a[k + 1]);
            assert(forall|k: int| 0 <= k < b.len() - 1 ==> b.drop_first()[k] == b[k + 1]);
            if a.drop_first() == b.drop_first() {
                assert forall|k: int| 0 <= k < a.len() implies a[k] == b[k] by {
                    if k > 0 {
                        assert(a[k] == a.drop_first()[k - 1]);
                        assert(b[k] == b.drop_first()[k - 1]);
                    }
                }
                assert(a =~= b);
            }
            if a == b {
                assert(a.drop_first() =~= b.drop_first());
            }
        } else {
            assert(a[0] as int != b[0] as int);
        }
    }
}

/// Lexicographic order is transitive.
pub proof fn lemma_lex_lt_trans(a: Seq<char>, b: Seq<char>, c: Seq<char>)
    requires
        lex_lt(a, b),
        lex_lt(b, c),
    ensures
        lex_lt(a, c),
    decreases a.len(),
{
    if a.len() > 0 && b.len() > 0 && c.len() > 0 {
        if a[0] == b[0] && b[0] == c[0] {
            lemma_lex_lt_trans(a.drop_first(), b.drop_first(), c.drop_first());
        }
    }
}

/// Dropping an equal prefix of both sides leaves the order unchanged.
pub proof fn lemma_lex_lt_skip(a: Seq<char>, b: Seq<char>, i: int)
    requires
        0 <= i <= a.len(),
        i <= b.len(),
        forall|k: int| 0 <= k < i ==> a[k] == b[k],
    ensures
        lex_lt(a, b) == lex_lt(a.skip(i), b.skip(i)),
    decreases i,
{
    if i == 0 {
        assert(a.skip(0) =~= a);
        assert(b.skip(0) =~= b);
    } else {
        assert(a.len() > 0 && b.len() > 0 && a[0] == b[0]);
        assert(forall|k: int|
            0 <= k < i - 1 ==> a.drop_first()[k] == a[k + 1] && b.drop_first()[k] == b[k + 1]);
        lemma_lex_lt_skip(a.drop_first(), b.drop_first(), i - 1);
        assert(a.drop_first().skip(i - 1) =~= a.skip(i));
        assert(b.drop_first().skip(i - 1) =~= b.skip(i));
    }
}

/// Whether two strings hold the same characters.
pub fn str_eq(a: &str, b: &str) -> (r: bool)
    ensures
        r == (a@ == b@),
{
    let la = a.unicode_len();
    let lb = b.unicode_len();
    if la != lb {
        return false;
    }
    let mut i: usize = 0;
    while i < la
        invariant
            0 <= i <= la,
            la == a@.len(),
            lb == b@.len(),
            la == lb,
            forall|k: int| 0 <= k < i ==> a@[k] == b@[k],
        decreases la - i,
    {
        if a.get_char(i) != b.get_char(i) {
            return false;
        }
        i += 1;
    }
    proof {
        assert(a@ =~= b@);
    }
    true
}

/// Whether `a` sorts strictly before `b` in lexicographic order.
pub fn str_lt(a: &str, b: &str) -> (r: bool)
    ensures
        r == lex_lt(a@, b@),
{
    let la = a.unicode_len();
    let lb = b.unicode_len();
    let min: usize = if la < lb {
        la
    } else {
        lb
    };
    let mut i: usize = 0;
    while i < min
        invariant
            0 <= i <= min,
            la == a@.len(),
            lb == b@.len(),
            min == if la < lb {
                la
            } else {
                lb
            },
            forall|k: int| 0 <= k < i ==> a@[k] == b@[k],
        decreases min - i,
    {
        let ca = a.get_char(i);
        let cb = b.get_char(i);
        if ca != cb {
            proof {
                lemma_lex_lt_skip(a@, b@, i as int);
            }
            return ca < cb;
        }
        i += 1;
    }
    proof {
        lemma_lex_lt_skip(a@, b@, min as int);
    }
    la < lb
}

/// The index just past leading whitespace: the first non-whitespace
/// character of `s`, or its length if `s` is all whitespace.
pub fn first_non_space_idx(s: &str) -> (i: usize)
    ensures
        i as int == first_where(s@, |c: char| !is_space_char(c)),
{
    let n = s.unicode_len();
    let mut i: usize = 0;
    while i < n && is_space(s.get_char(i))
        invariant
            0 <= i <= n,
            n == s@.len(),
            forall|k: int| 0 <= k < i ==> is_space_char(s@[k]),
        decreases n - i,
    {
        i += 1;
    }
    proof {
        lemma_first_where_unique(s@, |c: char| !is_space_char(c), i as int);
    }
    i
}

/// Whether `p` occurs in `s` at character offset `at`.
pub fn has_prefix_at(s: &str, at: usize, p: &str) -> (r: bool)
    requires
        at <= s@.len(),
    ensures
        r == has_prefix_from(s@, at as int, p@),
{
    let n = s.unicode_len();
    let lp = p.unicode_len();
    if lp > n - at {
        return false;
    }
    let mut k: usize = 0;
    while k < lp
        invariant
            0 <= k <= lp,
            n == s@.len(),
            lp == p@.len(),
            at + lp <= n,
            forall|j: int| 0 <= j < k ==> s@[at + j] == p@[j],
        decreases lp - k,
    {
        if s.get_char(at + k) != p.get_char(k) {
            return false;
        }
        k += 1;
    }
    true
}

/// The lines of `content`, as borrowed substrings, exactly as
/// [`lines_spec`] lists them.
pub fn split_lines<'a>(content: &'a str) -> (r: Vec<&'a str>)
    ensures
        r@.map_values(|l: &str| l@) == lines_spec(content@),
{
    let ghost f = |l: &str| l@;
    let ghost nl = |c: char| c == '\n';
    let n = content.unicode_len();
    let mut r: Vec<&'a str> = Vec::new();
    let mut start: usize = 0;
    let mut i: usize = 0;
    proof {
        assert(content@.skip(0) =~= content@);
    }
    while i < n
        invariant
            0 <= start <= i <= n,
            n == content@.len(),
            f == (|l: &str| l@),
            nl == (|c: char| c == '\n'),
            forall|k: int| start <= k < i ==> content@[k] != '\n',
            lines_spec(content@) == r@.map_values(f) + lines_spec(content@.skip(start as int)),
        decreases n - i,
    {
        if content.get_char(i) == '\n' {
            let end = if i > start && content.get_char(i - 1) == '\r' {
                i - 1
            } else {
                i
            };
            let line = content.substring_char(start, end);
            proof {
                let t = content@.skip(start as int);
                assert forall|k: int| 0 <= k < i - start implies !nl(t[k]) by {
                    assert(t[k] == content@[start + k]);
                }
                assert(t[i - start] == content@[i as int]);
                lemma_first_where_unique(t, nl, i - start);
                assert(t.take(i - start) =~= content@.subrange(start as int, i as int));
                assert(strip_cr(t.take(i - start)) =~= line@);
                assert(t.skip(i - start + 1) =~= content@.skip(i + 1));
                assert(lines_spec(t) == seq![strip_cr(t.take(i - start))] + lines_spec(
                    t.skip(i - start + 1),
                ));
                assert(r@.push(line).map_values(f) =~= r@.map_values(f).push(line@));
                assert(r@.map_values(f) + (seq![line@] + lines_spec(content@.skip(i + 1)))
                    =~= r@.map_values(f).push(line@) + lines_spec(content@.skip(i + 1)));
            }
            r.push(line);
            start = i + 1;
        }
        i += 1;
    }
    if start < n {
        let line = content.substring_char(start, n);
        proof {
            let t = content@.skip(start as int);
            assert forall|k: int| 0 <= k < t.len() implies !nl(t[k]) by {
                assert(t[k] == content@[start + k]);
            }
            lemma_first_where_unique(t, nl, t.len() as int);
            assert(t =~= line@);
            assert(lines_spec(t) == seq![t]);
            assert(r@.push(line).map_values(f) =~= r@.map_values(f).push(line@));
            assert(r@.map_values(f).push(line@) =~= r@.map_values(f) + seq![line@]);
        }
        r.push(line);
    } else {
        proof {
            assert(content@.skip(start as int) =~= Seq::<char>::empty());
            assert(r@.map_values(f) + lines_spec(content@.skip(start as int)) =~= r@.map_values(
                f,
            ));
        }
    }
    r
}

/// The given lines joined by a single newline between consecutive lines.
pub fn join_with_newlines(lines: &[&str]) -> (r: String)
    ensures
        r@ == joined_view(lines@.map_values(|l: &str| l@)),
{
    let ghost f = |l: &str| l@;
    let ghost views = lines@.map_values(f);
    let n = lines.len();
    let mut r = String::new();
    let mut k: usize = 0;
    proof {
        assert(views.take(0) =~= Seq::<Seq<char>>::empty());
    }
    while k < n
        invariant
            0 <= k <= n,
            n == lines@.len(),
            f == (|l: &str| l@),
            views == lines@.map_values(f),
            r@ == joined_view(views.take(k as int)),
        decreases n - k,
    {
        if k > 0 {
            r.append("\n");
            proof {
                reveal_strlit("\n");
                assert(("\n")@ =~= seq!['\n']);
            }
        }
        r.append(lines[k]);
        proof {
            let tk1 = views.take(k + 1);
            assert(tk1.drop_last() =~= views.take(k as int));
            assert(tk1.last() == lines@[k as int]@);
            if k == 0 {
                assert(r@ =~= joined_view(tk1));
            } else {
                assert(joined_view(tk1) == joined_view(views.take(k as int)) + seq!['\n']
                    + views[k as int]);
                assert(r@ =~= joined_view(tk1));
            }
        }
        k += 1;
    }
    proof {
        assert(views.take(n as int) =~= views);
    }
    r
}

/// Whether `p` occurs at the end of `s`.
pub open spec fn has_suffix(s: Seq<char>, p: Seq<char>) -> bool {
    p.len() <= s.len() && s.skip(s.len() - p.len()) == p
}

/// Whether `s` ends with `p`.
pub fn str_ends_with(s: &str, p: &str) -> (r: bool)
    ensures
        r == has_suffix(s@, p@),
{
    let n = s.unicode_len();
    let lp = p.unicode_len();
    if lp > n {
        return false;
    }
    let at = n - lp;
    let r = has_prefix_at(s, at, p);
    proof {
        let t = s@.skip(at as int);
        if r {
            assert forall|k: int| 0 <= k < t.len() implies t[k] == p@[k] by {
                assert(t[k] == s@[at + k]);
            }
            assert(t =~= p@);
        } else {
            if has_suffix(s@, p@) {
                assert forall|k: int| 0 <= k < p@.len() implies s@[at + k] == p@[k] by {
                    assert(t[k] == s@[at + k]);
                }
            }
        }
    }
    r
}

} // verus!
