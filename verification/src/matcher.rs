//! The single-threshold block matcher and the multi-pass orchestrator.
//!
//! A matcher pass builds an inverted line index over the "to" files, scans
//! the "from" files line by line, extends every fresh hash hit into a
//! boundary-respecting block, and records blocks of at least the pass's
//! minimum length, marking their lines visited on both sides.

use vstd::prelude::*;
use vstd::string::StrSliceExecFns;
use crate::block_hash::{hash64_of, hash_line};
use crate::structural::{
    can_extend, extend_spec, extend_structural_block, line_views,
};
use crate::text::{lines_spec, split_lines, str_eq};
use crate::types::{BlockMatch, BlockMatchView};

verus! {

/// The `(path, content)` character sequences of a slice of files.
pub open spec fn files_view(fs: Seq<(String, String)>) -> Seq<(Seq<char>, Seq<char>)> {
    fs.map_values(|p: (String, String)| (p.0@, p.1@))
}

/// The line-occurrence list of one file: every line of file `fi`, paired
/// with its content hash, in ascending line order.
pub open spec fn file_occs(fi: int, lines: Seq<Seq<char>>) -> Seq<(int, int, u64)> {
    Seq::new(lines.len(), |j: int| (fi, j, hash64_of(lines[j])))
}

/// All line occurrences of a file set, files in input order and lines in
/// ascending order: the scan order of index construction.
pub open spec fn occ_seq(to: Seq<(Seq<char>, Seq<char>)>) -> Seq<(int, int, u64)>
    decreases to.len(),
{
    if to.len() == 0 {
        Seq::empty()
    } else {
        occ_seq(to.drop_last()) + file_occs(to.len() - 1, lines_spec(to.last().1))
    }
}

/// The occurrences among `occs` whose hash is `h`, in order.
pub open spec fn cand_of(occs: Seq<(int, int, u64)>, h: u64) -> Seq<(int, int)>
    decreases occs.len(),
{
    if occs.len() == 0 {
        Seq::empty()
    } else {
        let rest = cand_of(occs.drop_last(), h);
        if occs.last().2 == h {
            rest.push((occs.last().0, occs.last().1))
        } else {
            rest
        }
    }
}

/// The candidate occurrences of hash `h` in the `to` file set, in scan
/// order.
pub open spec fn candidates(to: Seq<(Seq<char>, Seq<char>)>, h: u64) -> Seq<(int, int)> {
    cand_of(occ_seq(to), h)
}

/// Every occurrence names an in-bounds file and line and carries that line's
/// hash.
pub open spec fn occ_wf(to: Seq<(Seq<char>, Seq<char>)>, o: (int, int, u64)) -> bool {
    0 <= o.0 < to.len() && 0 <= o.1 < lines_spec(to[o.0].1).len() && o.2 == hash64_of(
        lines_spec(to[o.0].1)[o.1],
    )
}

/// All elements of `occ_seq(to)` are well-formed occurrences.
pub proof fn lemma_occ_seq_wf(to: Seq<(Seq<char>, Seq<char>)>)
    ensures
        forall|k: int| 0 <= k < occ_seq(to).len() ==> occ_wf(to, #[trigger] occ_seq(to)[k]),
    decreases to.len(),
{
    if to.len() > 0 {
        lemma_occ_seq_wf(to.drop_last());
        let pre = occ_seq(to.drop_last());
        let fo = file_occs(to.len() - 1, lines_spec(to.last().1));
        assert forall|k: int| 0 <= k < occ_seq(to).len() implies occ_wf(
            to,
            #[trigger] occ_seq(to)[k],
        ) by {
            if k < pre.len() {
                assert(occ_seq(to)[k] == pre[k]);
                assert(occ_wf(to.drop_last(), pre[k]));
                let fi = pre[k].0;
                assert(to.drop_last()[fi] == to[fi]);
            } else {
                assert(occ_seq(to)[k] == fo[k - pre.len()]);
                assert(to.last() == to[to.len() - 1]);
            }
        }
    }
}

/// All candidates drawn from well-formed occurrences are in bounds and have
/// the looked-up hash.
pub proof fn lemma_cand_of_wf(occs: Seq<(int, int, u64)>, h: u64, to: Seq<(Seq<char>, Seq<char>)>)
    requires
        forall|k: int| 0 <= k < occs.len() ==> occ_wf(to, #[trigger] occs[k]),
    ensures
        forall|k: int|
            0 <= k < cand_of(occs, h).len() ==> occ_wf(
                to,
                (#[trigger] cand_of(occs, h)[k].0, cand_of(occs, h)[k].1, h),
            ),
    decreases occs.len(),
{
    if occs.len() > 0 {
        assert(forall|k: int|
            0 <= k < occs.len() - 1 ==> occs.drop_last()[k] == #[trigger] occs[k]);
        lemma_cand_of_wf(occs.drop_last(), h, to);
        let rest = cand_of(occs.drop_last(), h);
        if occs.last().2 == h {
            assert(occs.last() == occs[occs.len() - 1]);
            assert(forall|k: int|
                0 <= k < rest.len() ==> #[trigger] cand_of(occs, h)[k] == rest[k]);
            assert(cand_of(occs, h)[rest.len() as int] == (occs.last().0, occs.last().1));
        }
    }
}

/// The inverted line index of a matcher pass: every `(file, line, hash)`
/// occurrence of the "to" set, in scan order.
pub struct LineIndex {
    pub occs: Vec<(usize, usize, u64)>,
}

impl LineIndex {
    /// The occurrence list as mathematical values.
    pub open spec fn occs_view(&self) -> Seq<(int, int, u64)> {
        self.occs@.map_values(|o: (usize, usize, u64)| (o.0 as int, o.1 as int, o.2))
    }

    /// The candidate occurrences for hash `h`, in scan order.
    pub fn lookup(&self, h: u64) -> (r: Vec<(usize, usize)>)
        ensures
            r@.map_values(|c: (usize, usize)| (c.0 as int, c.1 as int)) == cand_of(
                self.occs_view(),
                h,
            ),
    {
        let ghost cv = |c: (usize, usize)| (c.0 as int, c.1 as int);
        let mut r: Vec<(usize, usize)> = Vec::new();
        let n = self.occs.len();
        proof {
            assert(self.occs_view().take(0) =~= Seq::<(int, int, u64)>::empty());
            assert(r@.map_values(cv) =~= cand_of(self.occs_view().take(0), h));
        }
        let mut k: usize = 0;
        while k < n
            invariant
                0 <= k <= n,
                n == self.occs@.len(),
                cv == (|c: (usize, usize)| (c.0 as int, c.1 as int)),
                r@.map_values(cv) == cand_of(self.occs_view().take(k as int), h),
            decreases n - k,
        {
            let o = self.occs[k];
            proof {
                let tk1 = self.occs_view().take(k + 1);
                assert(tk1.drop_last() =~= self.occs_view().take(k as int));
                assert(tk1.last() == self.occs_view()[k as int]);
                assert(self.occs_view()[k as int] == (o.0 as int, o.1 as int, o.2));
                if o.2 == h {
                    assert(r@.push((o.0, o.1)).map_values(cv) =~= r@.map_values(cv).push(
                        (o.0 as int, o.1 as int),
                    ));
                }
            }
            if o.2 == h {
                r.push((o.0, o.1));
            }
            k += 1;
        }
        proof {
            assert(self.occs_view().take(n as int) =~= self.occs_view());
        }
        r
    }
}

/// Build the inverted line index over the `to` file set, scanning files in
/// input order and lines in ascending order.
pub fn build_index(files: &[(String, String)]) -> (ix: LineIndex)
    ensures
        ix.occs_view() == occ_seq(files_view(files@)),
{
    let ghost t = files_view(files@);
    let ghost ov = |o: (usize, usize, u64)| (o.0 as int, o.1 as int, o.2);
    let mut occs: Vec<(usize, usize, u64)> = Vec::new();
    let n = files.len();
    proof {
        assert(t.take(0) =~= Seq::<(Seq<char>, Seq<char>)>::empty());
        assert(occs@.map_values(ov) =~= occ_seq(t.take(0)));
    }
    let mut fi: usize = 0;
    while fi < n
        invariant
            0 <= fi <= n,
            n == files@.len(),
            t == files_view(files@),
            ov == (|o: (usize, usize, u64)| (o.0 as int, o.1 as int, o.2)),
            occs@.map_values(ov) == occ_seq(t.take(fi as int)),
        decreases n - fi,
    {
        let pair = &files[fi];
        let lines = split_lines(pair.1.as_str());
        let ghost lv = lines_spec(t[fi as int].1);
        proof {
            assert(t[fi as int] == (files@[fi as int].0@, files@[fi as int].1@));
            assert(lines@.map_values(|l: &str| l@) == lv);
        }
        let m = lines.len();
        let mut j: usize = 0;
        proof {
            assert(file_occs(fi as int, lv).take(0) =~= Seq::<(int, int, u64)>::empty());
            assert(occs@.map_values(ov) + file_occs(fi as int, lv).take(0) =~= occ_seq(
                t.take(fi as int),
            ));
        }
        while j < m
            invariant
                0 <= j <= m,
                m == lv.len(),
                fi < n,
                n == files@.len(),
                t == files_view(files@),
                ov == (|o: (usize, usize, u64)| (o.0 as int, o.1 as int, o.2)),
                lines@.map_values(|l: &str| l@) == lv,
                m == lines@.len(),
                occs@.map_values(ov) == occ_seq(t.take(fi as int)) + file_occs(
                    fi as int,
                    lv,
                ).take(j as int),
            decreases m - j,
        {
            let h = hash_line(lines[j]);
            proof {
                assert(lines@[j as int]@ == lv[j as int]);
                assert(h == hash64_of(lv[j as int]));
                assert(occs@.push((fi, j, h)).map_values(ov) =~= occs@.map_values(ov).push(
                    (fi as int, j as int, h),
                ));
                assert(file_occs(fi as int, lv).take(j + 1) =~= file_occs(fi as int, lv).take(
                    j as int,
                ).push((fi as int, j as int, h)));
            }
            occs.push((fi, j, h));
            j += 1;
        }
        proof {
            let tk1 = t.take(fi + 1);
            assert(tk1.drop_last() =~= t.take(fi as int));
            assert(tk1.last() == t[fi as int]);
            assert(file_occs(fi as int, lv).take(m as int) =~= file_occs(fi as int, lv));
            assert(occ_seq(tk1) == occ_seq(t.take(fi as int)) + file_occs(
                tk1.len() - 1,
                lines_spec(tk1.last().1),
            ));
        }
        fi += 1;
    }
    proof {
        assert(t.take(n as int) =~= t);
    }
    LineIndex { occs }
}

/// The per-pass matcher state: recorded matches and the visited line sets of
/// both sides, each line keyed by `(file path, line index)`.
#[verifier::ext_equal]
pub ghost struct MatcherState {
    pub matches: Seq<BlockMatchView>,
    pub vf: Seq<(Seq<char>, int)>,
    pub vt: Seq<(Seq<char>, int)>,
}

/// Whether the visited set `v` holds the line `(name, line)`.
pub open spec fn occ_in(v: Seq<(Seq<char>, int)>, name: Seq<char>, line: int) -> bool {
    exists|k: int| 0 <= k < v.len() && v[k] == (name, line)
}

/// The visited entries for lines `[a, b)` of the file named `name`.
pub open spec fn mark_range(name: Seq<char>, a: int, b: int) -> Seq<(Seq<char>, int)> {
    if a <= b {
        Seq::new((b - a) as nat, |k: int| (name, a + k))
    } else {
        Seq::empty()
    }
}

/// The first index of a file named `name` in `fs`, or `fs.len()` if none.
pub open spec fn first_named(fs: Seq<(Seq<char>, Seq<char>)>, name: Seq<char>) -> int
    decreases fs.len(),
{
    if fs.len() == 0 {
        0
    } else if fs[0].0 == name {
        0
    } else {
        1 + first_named(fs.drop_first(), name)
    }
}

/// `first_named` is in range, nothing before it bears `name`, and it bears
/// `name` when it is not the length.
pub proof fn lemma_first_named(fs: Seq<(Seq<char>, Seq<char>)>, name: Seq<char>)
    ensures
        0 <= first_named(fs, name) <= fs.len(),
        forall|k: int| 0 <= k < first_named(fs, name) ==> (#[trigger] fs[k]).0 != name,
        first_named(fs, name) < fs.len() ==> fs[first_named(fs, name)].0 == name,
    decreases fs.len(),
{
    if fs.len() > 0 && fs[0].0 != name {
        lemma_first_named(fs.drop_first(), name);
        assert(forall|k: int| 0 <= k < fs.len() - 1 ==> fs.drop_first()[k] == #[trigger] fs[k + 1]);
        assert forall|k: int| 0 <= k < first_named(fs, name) implies (#[trigger] fs[k]).0
            != name by {
            if k > 0 {
                assert(fs[k] == fs.drop_first()[k - 1]);
            }
        }
        if first_named(fs, name) < fs.len() {
            assert(fs[first_named(fs, name)] == fs.drop_first()[first_named(
                fs.drop_first(),
                name,
            )]);
        }
    }
}

/// Every line index that a candidate can carry fits the line count of the
/// first file bearing the candidate's path, so that a block extension seeded
/// from any candidate stays in bounds.  It holds in particular whenever the
/// `to` paths are pairwise distinct, the ordinary case for a file walk.
pub open spec fn to_names_ok(to: Seq<(Seq<char>, Seq<char>)>) -> bool {
    forall|fi: int|
        0 <= fi < to.len() ==> lines_spec((#[trigger] to[fi]).1).len() <= lines_spec(
            to[first_named(to, to[fi].0)].1,
        ).len()
}

/// Pairwise distinct paths satisfy [`to_names_ok`].
pub proof fn lemma_distinct_names_ok(to: Seq<(Seq<char>, Seq<char>)>)
    requires
        forall|a: int, b: int|
            0 <= a < b < to.len() ==> (#[trigger] to[a]).0 != (#[trigger] to[b]).0,
    ensures
        to_names_ok(to),
{
    assert forall|fi: int| 0 <= fi < to.len() implies lines_spec((#[trigger] to[fi]).1).len()
        <= lines_spec(to[first_named(to, to[fi].0)].1).len() by {
        lemma_first_named(to, to[fi].0);
        let r = first_named(to, to[fi].0);
        assert(r <= fi);
        if r < fi {
            assert(to[r].0 != to[fi].0);
            assert(false);
        }
    }
}

/// One candidate step of the matcher: skip a visited target line, otherwise
/// extend from the seed pair and, if the block reaches `min_len`, record it
/// and mark both ranges visited.
pub open spec fn step_candidate(
    st: MatcherState,
    fv: Seq<(Seq<char>, Seq<char>)>,
    tv: Seq<(Seq<char>, Seq<char>)>,
    min_len: int,
    fi: int,
    i: int,
    c: (int, int),
) -> MatcherState {
    let cname = tv[c.0].0;
    if occ_in(st.vt, cname, c.1) {
        st
    } else {
        let rfi = first_named(tv, cname);
        let e = extend_spec(lines_spec(fv[fi].1), lines_spec(tv[rfi].1), i, c.1);
        if e.1 - e.0 >= min_len {
            MatcherState {
                matches: st.matches.push(
                    BlockMatchView {
                        from_file: fv[fi].0,
                        from_range: (e.0, e.1),
                        to_file: cname,
                        to_range: (e.2, e.3),
                    },
                ),
                vf: st.vf + mark_range(fv[fi].0, e.0, e.1),
                vt: st.vt + mark_range(cname, e.2, e.3),
            }
        } else {
            st
        }
    }
}

/// The state after the first `k` candidates of `cs` are processed.
pub open spec fn step_cands_upto(
    st: MatcherState,
    fv: Seq<(Seq<char>, Seq<char>)>,
    tv: Seq<(Seq<char>, Seq<char>)>,
    min_len: int,
    fi: int,
    i: int,
    cs: Seq<(int, int)>,
    k: int,
) -> MatcherState
    decreases k,
{
    if k <= 0 {
        st
    } else {
        step_candidate(
            step_cands_upto(st, fv, tv, min_len, fi, i, cs, k - 1),
            fv,
            tv,
            min_len,
            fi,
            i,
            cs[k - 1],
        )
    }
}

/// One line step of the matcher: skip a visited source line, otherwise run
/// every candidate its hash finds in the index.
pub open spec fn step_line(
    st: MatcherState,
    fv: Seq<(Seq<char>, Seq<char>)>,
    tv: Seq<(Seq<char>, Seq<char>)>,
    min_len: int,
    fi: int,
    i: int,
) -> MatcherState {
    if occ_in(st.vf, fv[fi].0, i) {
        st
    } else {
        let cs = candidates(tv, hash64_of(lines_spec(fv[fi].1)[i]));
        step_cands_upto(st, fv, tv, min_len, fi, i, cs, cs.len() as int)
    }
}

/// The state after the first `i` lines of file `fi` are processed.
pub open spec fn step_lines_upto(
    st: MatcherState,
    fv: Seq<(Seq<char>, Seq<char>)>,
    tv: Seq<(Seq<char>, Seq<char>)>,
    min_len: int,
    fi: int,
    i: int,
) -> MatcherState
    decreases i,
{
    if i <= 0 {
        st
    } else {
        step_line(step_lines_upto(st, fv, tv, min_len, fi, i - 1), fv, tv, min_len, fi, i - 1)
    }
}

/// The state after the first `k` "from" files are processed in full.
pub open spec fn step_files_upto(
    st: MatcherState,
    fv: Seq<(Seq<char>, Seq<char>)>,
    tv: Seq<(Seq<char>, Seq<char>)>,
    min_len: int,
    k: int,
) -> MatcherState
    decreases k,
{
    if k <= 0 {
        st
    } else {
        step_lines_upto(
            step_files_upto(st, fv, tv, min_len, k - 1),
            fv,
            tv,
            min_len,
            k - 1,
            lines_spec(fv[k - 1].1).len() as int,
        )
    }
}

/// The empty matcher state.
pub open spec fn empty_state() -> MatcherState {
    MatcherState { matches: Seq::empty(), vf: Seq::empty(), vt: Seq::empty() }
}

/// The full list of matches of one single-threshold pass: files in input
/// order, lines ascending, candidates in index scan order.
pub open spec fn matcher_spec(
    fv: Seq<(Seq<char>, Seq<char>)>,
    tv: Seq<(Seq<char>, Seq<char>)>,
    min_len: int,
) -> Seq<BlockMatchView> {
    step_files_upto(empty_state(), fv, tv, min_len, fv.len() as int).matches
}

/// A span witness for a recorded match: in-bounds files of the right names
/// whose line ranges are pairwise equal, boundary-free lines.
pub open spec fn matched_span(
    m: BlockMatchView,
    fv: Seq<(Seq<char>, Seq<char>)>,
    tv: Seq<(Seq<char>, Seq<char>)>,
    fi: int,
    ti: int,
) -> bool {
    &&& 0 <= fi < fv.len() && 0 <= ti < tv.len()
    &&& fv[fi].0 == m.from_file && tv[ti].0 == m.to_file
    &&& m.from_range.1 <= lines_spec(fv[fi].1).len()
    &&& m.to_range.1 <= lines_spec(tv[ti].1).len()
    &&& forall|l: int|
        0 <= l < m.from_range.1 - m.from_range.0 ==> {
            &&& #[trigger] lines_spec(fv[fi].1)[m.from_range.0 + l] == lines_spec(
                tv[ti].1,
            )[m.to_range.0 + l]
            &&& !crate::structural::is_boundary_spec(lines_spec(fv[fi].1)[m.from_range.0 + l])
            &&& !crate::structural::is_boundary_spec(lines_spec(tv[ti].1)[m.to_range.0 + l])
        }
}

/// What every recorded match satisfies: equal-length ranges of at least
/// `min_len` lines, and a witness pair of files holding identical,
/// boundary-free spans under those ranges.
pub open spec fn match_ok(
    m: BlockMatchView,
    fv: Seq<(Seq<char>, Seq<char>)>,
    tv: Seq<(Seq<char>, Seq<char>)>,
    min_len: int,
) -> bool {
    &&& m.from_range.1 - m.from_range.0 == m.to_range.1 - m.to_range.0
    &&& m.from_range.1 - m.from_range.0 >= min_len
    &&& 0 <= m.from_range.0 <= m.from_range.1
    &&& 0 <= m.to_range.0 <= m.to_range.1
    &&& exists|fi: int, ti: int| matched_span(m, fv, tv, fi, ti)
}

/// The visited entries of a pass as mathematical values.
pub open spec fn occ_views(v: Seq<(String, usize)>) -> Seq<(Seq<char>, int)> {
    v.map_values(|p: (String, usize)| (p.0@, p.1 as int))
}

/// The exec-side matcher state as a [`MatcherState`].
pub open spec fn mstate(
    ms: Seq<BlockMatch>,
    vfs: Seq<(String, usize)>,
    vts: Seq<(String, usize)>,
) -> MatcherState {
    MatcherState {
        matches: ms.map_values(|m: BlockMatch| m@),
        vf: occ_views(vfs),
        vt: occ_views(vts),
    }
}

/// Pushing one visited entry appends its view.
proof fn lemma_occ_views_push(v: Seq<(String, usize)>, p: (String, usize))
    ensures
        occ_views(v.push(p)) =~= occ_views(v).push((p.0@, p.1 as int)),
{
    assert forall|k: int| 0 <= k < v.len() + 1 implies occ_views(v.push(p))[k] == occ_views(
        v,
    ).push((p.0@, p.1 as int))[k] by {
        if k < v.len() {
            assert(v.push(p)[k] == v[k]);
        } else {
            assert(v.push(p)[k] == p);
        }
    }
}

/// Whether the visited set `v` holds `(name, line)`.
fn contains_occ(v: &Vec<(String, usize)>, name: &str, line: usize) -> (r: bool)
    ensures
        r == occ_in(occ_views(v@), name@, line as int),
{
    let n = v.len();
    let mut k: usize = 0;
    while k < n
        invariant
            0 <= k <= n,
            n == v@.len(),
            forall|j: int| 0 <= j < k ==> #[trigger] occ_views(v@)[j] != (name@, line as int),
        decreases n - k,
    {
        let p = &v[k];
        let hit = p.1 == line && str_eq(p.0.as_str(), name);
        proof {
            assert(occ_views(v@)[k as int] == (v@[k as int].0@, v@[k as int].1 as int));
        }
        if hit {
            proof {
                assert(occ_views(v@)[k as int] == (name@, line as int));
            }
            return true;
        }
        k += 1;
    }
    proof {
        assert(!occ_in(occ_views(v@), name@, line as int));
    }
    false
}

/// The first index of the file named `name` in `files`.
fn find_first_named(files: &[(String, String)], name: &str) -> (r: usize)
    requires
        exists|fi: int|
            0 <= fi < files@.len() && (#[trigger] files_view(files@)[fi]).0 == name@,
    ensures
        r as int == first_named(files_view(files@), name@),
        r < files@.len(),
{
    let ghost fv = files_view(files@);
    proof {
        lemma_first_named(fv, name@);
        assert(forall|k: int| 0 <= k < files@.len() ==> #[trigger] fv[k] == (files@[k].0@, files@[k].1@));
    }
    let n = files.len();
    let mut k: usize = 0;
    while k < n
        invariant
            0 <= k <= n,
            n == files@.len(),
            fv == files_view(files@),
            forall|j: int| 0 <= j < k ==> (#[trigger] fv[j]).0 != name@,
            first_named(fv, name@) < fv.len(),
            forall|j: int| 0 <= j < files@.len() ==> #[trigger] fv[j] == (files@[j].0@, files@[j].1@),
        decreases n - k,
    {
        if str_eq(files[k].0.as_str(), name) {
            proof {
                lemma_first_named(fv, name@);
                assert(fv[k as int].0 == name@);
                assert(first_named(fv, name@) <= k);
            }
            return k;
        }
        k += 1;
    }
    proof {
        assert(fv[first_named(fv, name@)].0 == name@);
        assert(false);
    }
    0
}

/// Find all block matches between the file sets at one minimum block size.
///
/// Builds a line index over `to_files`, scans `from_files` in file order and
/// ascending line order, extends every fresh hash hit with
/// [`extend_structural_block`], and records blocks of at least
/// `min_block_size` lines, marking both ranges visited so their lines are
/// not reused within this pass.  The result is exactly [`matcher_spec`], and
/// every recorded match satisfies [`match_ok`]: equal-length, in-bounds,
/// boundary-free ranges of identical lines.
#[verifier::loop_isolation(false)]
pub fn find_block_matches(
    from_files: &[(String, String)],
    to_files: &[(String, String)],
    min_block_size: usize,
) -> (r: Vec<BlockMatch>)
    requires
        to_names_ok(files_view(to_files@)),
    ensures
        r@.map_values(|m: BlockMatch| m@) == matcher_spec(
            files_view(from_files@),
            files_view(to_files@),
            min_block_size as int,
        ),
        forall|k: int|
            0 <= k < r@.len() ==> match_ok(
                (#[trigger] r@[k])@,
                files_view(from_files@),
                files_view(to_files@),
                min_block_size as int,
            ),
{
    let ghost fv = files_view(from_files@);
    let ghost tv = files_view(to_files@);
    let ghost mlen = min_block_size as int;
    proof {
        assert(forall|k: int|
            0 <= k < from_files@.len() ==> #[trigger] fv[k] == (
                from_files@[k].0@,
                from_files@[k].1@,
            ));
        assert(forall|k: int|
            0 <= k < to_files@.len() ==> #[trigger] tv[k] == (to_files@[k].0@, to_files@[k].1@));
        lemma_occ_seq_wf(tv);
    }

    // Split every "to" file into lines once.
    let mut to_lines_all: Vec<Vec<&str>> = Vec::new();
    let tn = to_files.len();
    let mut ti: usize = 0;
    while ti < tn
        invariant
            0 <= ti <= tn,
            to_lines_all@.len() == ti,
            forall|j: int|
                0 <= j < ti ==> (#[trigger] to_lines_all@[j])@.map_values(|l: &str| l@)
                    == lines_spec(tv[j].1),
        decreases tn - ti,
    {
        let tpair = &to_files[ti];
        let ls = split_lines(tpair.1.as_str());
        to_lines_all.push(ls);
        ti += 1;
    }

    let ix = build_index(to_files);
    let mut matches_v: Vec<BlockMatch> = Vec::new();
    let mut vf: Vec<(String, usize)> = Vec::new();
    let mut vt: Vec<(String, usize)> = Vec::new();
    proof {
        assert(matches_v@.map_values(|m: BlockMatch| m@) =~= Seq::<BlockMatchView>::empty());
        assert(occ_views(vf@) =~= Seq::<(Seq<char>, int)>::empty());
        assert(occ_views(vt@) =~= Seq::<(Seq<char>, int)>::empty());
        assert(mstate(matches_v@, vf@, vt@) == empty_state());
    }

    let nf = from_files.len();
    let mut fi: usize = 0;
    while fi < nf
        invariant
            0 <= fi <= nf,
            mstate(matches_v@, vf@, vt@) == step_files_upto(empty_state(), fv, tv, mlen, fi as int),
            forall|q: int|
                0 <= q < matches_v@.len() ==> match_ok((#[trigger] matches_v@[q])@, fv, tv, mlen),
        decreases nf - fi,
    {
        let fpair = &from_files[fi];
        let from_lines = split_lines(fpair.1.as_str());
        let ghost flv = lines_spec(fv[fi as int].1);
        proof {
            assert(from_lines@.map_values(|l: &str| l@) == flv);
            assert(fpair.0@ == fv[fi as int].0);
        }
        let m = from_lines.len();
        let ghost st_file = step_files_upto(empty_state(), fv, tv, mlen, fi as int);
        let mut i: usize = 0;
        proof {
            assert(step_lines_upto(st_file, fv, tv, mlen, fi as int, 0) == st_file);
        }
        while i < m
            invariant
                0 <= i <= m,
                mstate(matches_v@, vf@, vt@) == step_lines_upto(
                    st_file,
                    fv,
                    tv,
                    mlen,
                    fi as int,
                    i as int,
                ),
                forall|q: int|
                    0 <= q < matches_v@.len() ==> match_ok(
                        (#[trigger] matches_v@[q])@,
                        fv,
                        tv,
                        mlen,
                    ),
            decreases m - i,
        {
            let ghost st_line = step_lines_upto(st_file, fv, tv, mlen, fi as int, i as int);
            let visited = contains_occ(&vf, fpair.0.as_str(), i);
            if !visited {
                let h = hash_line(from_lines[i]);
                proof {
                    assert(from_lines@[i as int]@ == flv[i as int]);
                }
                let cands = ix.lookup(h);
                let ghost cs = candidates(tv, hash64_of(flv[i as int]));
                proof {
                    assert(cands@.map_values(|c: (usize, usize)| (c.0 as int, c.1 as int)) == cs);
                    lemma_cand_of_wf(occ_seq(tv), h, tv);
                    assert(step_cands_upto(st_line, fv, tv, mlen, fi as int, i as int, cs, 0)
                        == st_line);
                }
                let cn = cands.len();
                let mut cc: usize = 0;
                while cc < cn
                    invariant
                        0 <= cc <= cn,
                        mstate(matches_v@, vf@, vt@) == step_cands_upto(
                            st_line,
                            fv,
                            tv,
                            mlen,
                            fi as int,
                            i as int,
                            cs,
                            cc as int,
                        ),
                        forall|q: int|
                            0 <= q < matches_v@.len() ==> match_ok(
                                (#[trigger] matches_v@[q])@,
                                fv,
                                tv,
                                mlen,
                            ),
                    decreases cn - cc,
                {
                    let ghost st_c = step_cands_upto(
                        st_line,
                        fv,
                        tv,
                        mlen,
                        fi as int,
                        i as int,
                        cs,
                        cc as int,
                    );
                    let cand = cands[cc];
                    let cfi = cand.0;
                    let cj = cand.1;
                    proof {
                        assert(cs[cc as int] == (cfi as int, cj as int));
                        assert(occ_wf(tv, (cs[cc as int].0, cs[cc as int].1, h)));
                    }
                    let cname = &to_files[cfi].0;
                    proof {
                        assert(cname@ == tv[cfi as int].0);
                    }
                    let tvis = contains_occ(&vt, cname.as_str(), cj);
                    if !tvis {
                        let rfi = find_first_named(to_files, cname.as_str());
                        proof {
                            assert(lines_spec(tv[cfi as int].1).len() <= lines_spec(
                                tv[first_named(tv, tv[cfi as int].0)].1,
                            ).len());
                            lemma_first_named(tv, tv[cfi as int].0);
                            assert(tv[rfi as int].0 == tv[cfi as int].0);
                        }
                        let to_lines = &to_lines_all[rfi];
                        proof {
                            assert(to_lines@.map_values(|l: &str| l@) == lines_spec(
                                tv[rfi as int].1,
                            ));
                        }
                        let er = extend_structural_block(
                            from_lines.as_slice(),
                            to_lines.as_slice(),
                            i,
                            cj,
                        );
                        let (e_f1, e_f2, e_t1, e_t2) = er;
                        let ghost e = extend_spec(
                            lines_spec(fv[fi as int].1),
                            lines_spec(tv[rfi as int].1),
                            i as int,
                            cj as int,
                        );
                        proof {
                            assert(line_views(from_lines@) =~= lines_spec(fv[fi as int].1));
                            assert(line_views(to_lines@) =~= lines_spec(tv[rfi as int].1));
                            assert((e_f1 as int, e_f2 as int, e_t1 as int, e_t2 as int) == e);
                        }
                        if e_f2 - e_f1 >= min_block_size {
                            let ghost vf_pre = vf@;
                            let mut kk: usize = e_f1;
                            proof {
                                assert(occ_views(vf@) + mark_range(
                                    fv[fi as int].0,
                                    e_f1 as int,
                                    e_f1 as int,
                                ) =~= occ_views(vf@));
                            }
                            while kk < e_f2
                                invariant
                                    e_f1 <= kk <= e_f2,
                                    occ_views(vf@) == occ_views(vf_pre) + mark_range(
                                        fv[fi as int].0,
                                        e_f1 as int,
                                        kk as int,
                                    ),
                                decreases e_f2 - kk,
                            {
                                let p = (fpair.0.clone(), kk);
                                proof {
                                    lemma_occ_views_push(vf@, p);
                                    assert(mark_range(fv[fi as int].0, e_f1 as int, kk + 1)
                                        =~= mark_range(
                                        fv[fi as int].0,
                                        e_f1 as int,
                                        kk as int,
                                    ).push((fv[fi as int].0, kk as int)));
                                    assert(occ_views(vf_pre) + mark_range(
                                        fv[fi as int].0,
                                        e_f1 as int,
                                        kk as int,
                                    ).push((fv[fi as int].0, kk as int)) =~= (occ_views(vf_pre)
                                        + mark_range(
                                        fv[fi as int].0,
                                        e_f1 as int,
                                        kk as int,
                                    )).push((fv[fi as int].0, kk as int)));
                                }
                                vf.push(p);
                                kk += 1;
                            }
                            let ghost vt_pre = vt@;
                            let mut kk2: usize = e_t1;
                            proof {
                                assert(occ_views(vt@) + mark_range(
                                    tv[cfi as int].0,
                                    e_t1 as int,
                                    e_t1 as int,
                                ) =~= occ_views(vt@));
                            }
                            while kk2 < e_t2
                                invariant
                                    e_t1 <= kk2 <= e_t2,
                                    occ_views(vt@) == occ_views(vt_pre) + mark_range(
                                        tv[cfi as int].0,
                                        e_t1 as int,
                                        kk2 as int,
                                    ),
                                decreases e_t2 - kk2,
                            {
                                let p = (cname.clone(), kk2);
                                proof {
                                    lemma_occ_views_push(vt@, p);
                                    assert(mark_range(tv[cfi as int].0, e_t1 as int, kk2 + 1)
                                        =~= mark_range(
                                        tv[cfi as int].0,
                                        e_t1 as int,
                                        kk2 as int,
                                    ).push((tv[cfi as int].0, kk2 as int)));
                                    assert(occ_views(vt_pre) + mark_range(
                                        tv[cfi as int].0,
                                        e_t1 as int,
                                        kk2 as int,
                                    ).push((tv[cfi as int].0, kk2 as int)) =~= (occ_views(vt_pre)
                                        + mark_range(
                                        tv[cfi as int].0,
                                        e_t1 as int,
                                        kk2 as int,
                                    )).push((tv[cfi as int].0, kk2 as int)));
                                }
                                vt.push(p);
                                kk2 += 1;
                            }
                            let bm = BlockMatch {
                                from_file: fpair.0.clone(),
                                from_range: (e_f1, e_f2),
                                to_file: cname.clone(),
                                to_range: (e_t1, e_t2),
                            };
                            proof {
                                assert(bm@ == BlockMatchView {
                                    from_file: fv[fi as int].0,
                                    from_range: (e.0, e.1),
                                    to_file: tv[cfi as int].0,
                                    to_range: (e.2, e.3),
                                });
                                assert(matches_v@.push(bm).map_values(|q: BlockMatch| q@)
                                    =~= matches_v@.map_values(|q: BlockMatch| q@).push(bm@));
                                // the new match is sound: witness files (fi, rfi)
                                assert forall|l: int| 0 <= l < e.1 - e.0 implies {
                                    &&& #[trigger] lines_spec(fv[fi as int].1)[e.0 + l]
                                        == lines_spec(tv[rfi as int].1)[e.2 + l]
                                    &&& !crate::structural::is_boundary_spec(
                                        lines_spec(fv[fi as int].1)[e.0 + l],
                                    )
                                    &&& !crate::structural::is_boundary_spec(
                                        lines_spec(tv[rfi as int].1)[e.2 + l],
                                    )
                                } by {
                                    assert(can_extend(
                                        line_views(from_lines@),
                                        line_views(to_lines@),
                                        e.0 + l,
                                        e.0 + l - e_f1 + e_t1,
                                    ));
                                }
                                assert(matched_span(bm@, fv, tv, fi as int, rfi as int));
                                assert(match_ok(bm@, fv, tv, mlen));
                            }
                            matches_v.push(bm);
                            proof {
                                assert(mstate(matches_v@, vf@, vt@) == step_candidate(
                                    st_c,
                                    fv,
                                    tv,
                                    mlen,
                                    fi as int,
                                    i as int,
                                    cs[cc as int],
                                ));
                            }
                        } else {
                            proof {
                                assert(mstate(matches_v@, vf@, vt@) == step_candidate(
                                    st_c,
                                    fv,
                                    tv,
                                    mlen,
                                    fi as int,
                                    i as int,
                                    cs[cc as int],
                                ));
                            }
                        }
                    } else {
                        proof {
                            assert(occ_in(st_c.vt, tv[cfi as int].0, cj as int));
                            assert(mstate(matches_v@, vf@, vt@) == step_candidate(
                                st_c,
                                fv,
                                tv,
                                mlen,
                                fi as int,
                                i as int,
                                cs[cc as int],
                            ));
                        }
                    }
                    proof {
                        assert(step_cands_upto(
                            st_line,
                            fv,
                            tv,
                            mlen,
                            fi as int,
                            i as int,
                            cs,
                            cc + 1,
                        ) == step_candidate(st_c, fv, tv, mlen, fi as int, i as int, cs[cc as int]));
                    }
                    cc += 1;
                }
                proof {
                    assert(!occ_in(st_line.vf, fv[fi as int].0, i as int));
                    assert(step_line(st_line, fv, tv, mlen, fi as int, i as int)
                        == step_cands_upto(
                        st_line,
                        fv,
                        tv,
                        mlen,
                        fi as int,
                        i as int,
                        cs,
                        cs.len() as int,
                    ));
                    assert(mstate(matches_v@, vf@, vt@) == step_line(
                        st_line,
                        fv,
                        tv,
                        mlen,
                        fi as int,
                        i as int,
                    ));
                }
            } else {
                proof {
                    assert(occ_in(st_line.vf, fv[fi as int].0, i as int));
                    assert(mstate(matches_v@, vf@, vt@) == step_line(
                        st_line,
                        fv,
                        tv,
                        mlen,
                        fi as int,
                        i as int,
                    ));
                }
            }
            proof {
                assert(step_lines_upto(st_file, fv, tv, mlen, fi as int, i + 1) == step_line(
                    st_line,
                    fv,
                    tv,
                    mlen,
                    fi as int,
                    i as int,
                ));
            }
            i += 1;
        }
        proof {
            assert(m as int == lines_spec(fv[fi as int].1).len());
            assert(step_files_upto(empty_state(), fv, tv, mlen, fi + 1) == step_lines_upto(
                st_file,
                fv,
                tv,
                mlen,
                fi as int,
                lines_spec(fv[fi as int].1).len() as int,
            ));
        }
        fi += 1;
    }
    matches_v
}

/// The concatenated output of the three independent matcher passes, at
/// minimum block sizes five, three and one, in that order.
pub open spec fn multi_spec(
    fv: Seq<(Seq<char>, Seq<char>)>,
    tv: Seq<(Seq<char>, Seq<char>)>,
) -> Seq<BlockMatchView> {
    matcher_spec(fv, tv, 5) + matcher_spec(fv, tv, 3) + matcher_spec(fv, tv, 1)
}

/// Run the single-threshold matcher at minimum block sizes five, three and
/// one, each pass with its own fresh index and visited sets, and concatenate
/// the three result lists in that order.
///
/// Passes are fully independent: a block captured at one threshold may be
/// re-captured, wholly or in part, at a lower one, and no deduplication is
/// performed across passes.
pub fn find_block_matches_multi(
    from_files: &[(String, String)],
    to_files: &[(String, String)],
) -> (r: Vec<BlockMatch>)
    requires
        to_names_ok(files_view(to_files@)),
    ensures
        r@.map_values(|m: BlockMatch| m@) == multi_spec(
            files_view(from_files@),
            files_view(to_files@),
        ),
        forall|k: int|
            0 <= k < r@.len() ==> match_ok(
                (#[trigger] r@[k])@,
                files_view(from_files@),
                files_view(to_files@),
                1,
            ),
{
    let mut all = find_block_matches(from_files, to_files, 5);
    let mut p3 = find_block_matches(from_files, to_files, 3);
    let mut p1 = find_block_matches(from_files, to_files, 1);
    proof {
        assert((all@ + p3@).map_values(|m: BlockMatch| m@) =~= all@.map_values(
            |m: BlockMatch| m@,
        ) + p3@.map_values(|m: BlockMatch| m@));
    }
    all.append(&mut p3);
    proof {
        assert((all@ + p1@).map_values(|m: BlockMatch| m@) =~= all@.map_values(
            |m: BlockMatch| m@,
        ) + p1@.map_values(|m: BlockMatch| m@));
    }
    all.append(&mut p1);
    all
}

/// The multi-pass matcher is deterministic: any two outputs meeting its
/// contract on the same inputs are equal, match for match.
pub proof fn lemma_multi_deterministic(
    fv: Seq<(Seq<char>, Seq<char>)>,
    tv: Seq<(Seq<char>, Seq<char>)>,
    r1: Seq<BlockMatchView>,
    r2: Seq<BlockMatchView>,
)
    requires
        r1 == multi_spec(fv, tv),
        r2 == multi_spec(fv, tv),
    ensures
        r1 == r2,
{
}

} // verus!
