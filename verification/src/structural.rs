//! Structural boundaries and boundary-aware block extension.
//!
//! A boundary line marks the likely start or end of a logical unit (a blank
//! line, or one opening a class, function or decorator).  Block extension
//! grows a matched pair of lines forward and backward while the lines stay
//! equal, and never absorbs a boundary line.

use vstd::prelude::*;
use vstd::string::StrSliceExecFns;
use crate::text::{
    first_where, first_non_space_idx, has_prefix_at, has_prefix_from, is_space_char,
    lemma_first_where, str_eq,
};

verus! {

/// Whether a line is a structural boundary: after leading whitespace it is
/// empty, or starts a class, function definition or decorator.
pub open spec fn is_boundary_spec(s: Seq<char>) -> bool {
    let i = first_where(s, |c: char| !is_space_char(c));
    i >= s.len() || has_prefix_from(s, i, seq!['c', 'l', 'a', 's', 's', ' ']) || has_prefix_from(
        s,
        i,
        seq!['d', 'e', 'f', ' '],
    ) || s[i] == '@'
}

/// Whether `line` is a structural boundary, per [`is_boundary_spec`].
pub fn is_boundary(line: &str) -> (r: bool)
    ensures
        r == is_boundary_spec(line@),
{
    let i = first_non_space_idx(line);
    let n = line.unicode_len();
    proof {
        lemma_first_where(line@, |c: char| !is_space_char(c));
    }
    if i >= n {
        return true;
    }
    proof {
        reveal_strlit("class ");
        reveal_strlit("def ");
        assert(("class ")@ =~= seq!['c', 'l', 'a', 's', 's', ' ']);
        assert(("def ")@ =~= seq!['d', 'e', 'f', ' ']);
    }
    has_prefix_at(line, i, "class ") || has_prefix_at(line, i, "def ") || line.get_char(i) == '@'
}

/// The character sequences of a slice of line strings.
pub open spec fn line_views(ls: Seq<&str>) -> Seq<Seq<char>> {
    ls.map_values(|l: &str| l@)
}

/// Whether extension may step onto line `f` of `fls` paired with line `t` of
/// `tls`: both in bounds, equal, and neither a boundary.
pub open spec fn can_extend(fls: Seq<Seq<char>>, tls: Seq<Seq<char>>, f: int, t: int) -> bool {
    0 <= f < fls.len() && 0 <= t < tls.len() && fls[f] == tls[t] && !is_boundary_spec(fls[f])
        && !is_boundary_spec(tls[t])
}

/// The forward extension limit: the first pair index at or after `(f, t)`
/// that extension cannot step onto.
pub open spec fn ext_fwd(fls: Seq<Seq<char>>, tls: Seq<Seq<char>>, f: int, t: int) -> int
    decreases fls.len() - f,
{
    if can_extend(fls, tls, f, t) {
        ext_fwd(fls, tls, f + 1, t + 1)
    } else {
        f
    }
}

/// The backward extension limit: the lowest start reachable from `(f, t)`
/// stepping backward over extendable pairs.
pub open spec fn ext_bwd(fls: Seq<Seq<char>>, tls: Seq<Seq<char>>, f: int, t: int) -> int
    decreases f,
{
    if f > 0 && t > 0 && can_extend(fls, tls, f - 1, t - 1) {
        ext_bwd(fls, tls, f - 1, t - 1)
    } else {
        f
    }
}

/// The `(f1, f2, t1, t2)` ranges that block extension returns for the seed
/// pair `(i, j)`.
pub open spec fn extend_spec(fls: Seq<Seq<char>>, tls: Seq<Seq<char>>, i: int, j: int) -> (
    int,
    int,
    int,
    int,
) {
    let f2 = ext_fwd(fls, tls, i, j);
    let f1 = ext_bwd(fls, tls, i, j);
    (f1, f2, j - (i - f1), j + (f2 - i))
}

/// Grow the seed pair `(from_start, to_start)` of equal-hash lines forward
/// and backward while the paired lines are equal and no boundary is crossed,
/// and return the half-open ranges `[f1, f2)` and `[t1, t2)`.
///
/// The returned ranges cover only pairs of genuinely equal, non-boundary
/// lines; the seed itself is excluded when it is a boundary or when the two
/// seed lines differ.
pub fn extend_structural_block(
    from_lines: &[&str],
    to_lines: &[&str],
    from_start: usize,
    to_start: usize,
) -> (r: (usize, usize, usize, usize))
    requires
        from_start < from_lines@.len(),
        to_start < to_lines@.len(),
    ensures
        (r.0 as int, r.1 as int, r.2 as int, r.3 as int) == extend_spec(
            line_views(from_lines@),
            line_views(to_lines@),
            from_start as int,
            to_start as int,
        ),
        r.0 <= from_start && from_start <= r.1 && r.1 <= from_lines@.len(),
        r.2 <= to_start && to_start <= r.3 && r.3 <= to_lines@.len(),
        r.1 - r.0 == r.3 - r.2 && from_start - r.0 == to_start - r.2,
        forall|k: int|
            r.0 <= k < r.1 ==> #[trigger] can_extend(
                line_views(from_lines@),
                line_views(to_lines@),
                k,
                k - r.0 + r.2,
            ),
{
    let ghost fls = line_views(from_lines@);
    let ghost tls = line_views(to_lines@);
    proof {
        assert(forall|k: int| 0 <= k < from_lines@.len() ==> fls[k] == from_lines@[k]@);
        assert(forall|k: int| 0 <= k < to_lines@.len() ==> tls[k] == to_lines@[k]@);
    }
    let mut f1 = from_start;
    let mut t1 = to_start;
    let mut f2 = from_start;
    let mut t2 = to_start;

    // Extend forward while in bounds, equal and boundary-free.
    while f2 < from_lines.len() && t2 < to_lines.len() && str_eq(from_lines[f2], to_lines[t2])
        && !is_boundary(from_lines[f2]) && !is_boundary(to_lines[t2])
        invariant
            fls == line_views(from_lines@),
            tls == line_views(to_lines@),
            from_start <= f2 <= from_lines@.len(),
            to_start <= t2 <= to_lines@.len(),
            f2 - from_start == t2 - to_start,
            ext_fwd(fls, tls, f2 as int, t2 as int) == ext_fwd(
                fls,
                tls,
                from_start as int,
                to_start as int,
            ),
            forall|k: int|
                from_start <= k < f2 ==> #[trigger] can_extend(
                    fls,
                    tls,
                    k,
                    k - from_start + to_start,
                ),
        decreases from_lines@.len() - f2,
    {
        proof {
            assert(can_extend(fls, tls, f2 as int, t2 as int));
        }
        f2 += 1;
        t2 += 1;
    }
    proof {
        assert(!can_extend(fls, tls, f2 as int, t2 as int));
        assert(ext_fwd(fls, tls, f2 as int, t2 as int) == f2 as int);
    }

    // Extend backward while in bounds, equal and boundary-free.
    while f1 > 0 && t1 > 0 && str_eq(from_lines[f1 - 1], to_lines[t1 - 1]) && !is_boundary(
        from_lines[f1 - 1],
    ) && !is_boundary(to_lines[t1 - 1])
        invariant
            fls == line_views(from_lines@),
            tls == line_views(to_lines@),
            0 <= f1 <= from_start,
            0 <= t1 <= to_start,
            from_start < from_lines@.len(),
            to_start < to_lines@.len(),
            from_start - f1 == to_start - t1,
            ext_bwd(fls, tls, f1 as int, t1 as int) == ext_bwd(
                fls,
                tls,
                from_start as int,
                to_start as int,
            ),
            forall|k: int|
                f1 <= k < from_start ==> #[trigger] can_extend(fls, tls, k, k - f1 + t1),
        decreases f1,
    {
        proof {
            assert(can_extend(fls, tls, f1 - 1, t1 - 1));
            assert forall|k: int| f1 - 1 <= k < from_start implies #[trigger] can_extend(
                fls,
                tls,
                k,
                k - (f1 - 1) + (t1 - 1),
            ) by {
                assert(k - (f1 - 1) + (t1 - 1) == k - f1 + t1);
                if k >= f1 {
                    assert(can_extend(fls, tls, k, k - f1 + t1));
                } else {
                    assert(k == f1 - 1 && k - f1 + t1 == t1 - 1);
                }
            }
        }
        f1 -= 1;
        t1 -= 1;
    }
    proof {
        assert(!(f1 > 0 && t1 > 0 && can_extend(fls, tls, f1 - 1, t1 - 1)));
        assert(ext_bwd(fls, tls, f1 as int, t1 as int) == f1 as int);
        assert forall|k: int| f1 <= k < f2 implies #[trigger] can_extend(
            fls,
            tls,
            k,
            k - f1 + t1,
        ) by {
            if k >= from_start {
                assert(can_extend(fls, tls, k, k - from_start + to_start));
            }
            assert(k - f1 + t1 == k - from_start + to_start);
        }
    }
    (f1, f2, t1, t2)
}

} // verus!
