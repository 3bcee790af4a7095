//! Cross-file grouping and duplicate voting.
//!
//! Matches are grouped by `(from_file, to_file)` pair, the groups ordered
//! lexicographically by that pair, and each match voted: the first match
//! carrying a given from-side block content (by content hash, in arrival
//! order) is the canonical "moved" instance, every later match with the same
//! content is an "added" duplicate.

use vstd::prelude::*;
use vstd::string::StrSliceExecFns;
use crate::block_hash::{hash64_of, hash_block};
use crate::matcher::files_view;
use crate::text::{joined_view, lex_lt, lemma_lex_trichotomy, lines_spec, split_lines, str_eq, str_lt};
use crate::types::{
    BlockMatch, BlockMatchView, BlockWithVote, BlockWithVoteView, GroupedMatches,
    GroupedMatchesView,
};

verus! {

/// The last index of a file named `name` in `fs`, or `-1` if none: the
/// content that wins when one path occurs twice.
pub open spec fn last_named(fs: Seq<(Seq<char>, Seq<char>)>, name: Seq<char>) -> int
    decreases fs.len(),
{
    if fs.len() == 0 {
        -1
    } else if fs.last().0 == name {
        fs.len() - 1
    } else {
        last_named(fs.drop_last(), name)
    }
}

/// `last_named` is in range and bears `name`, and nothing after it does.
pub proof fn lemma_last_named(fs: Seq<(Seq<char>, Seq<char>)>, name: Seq<char>)
    ensures
        -1 <= last_named(fs, name) < fs.len(),
        last_named(fs, name) >= 0 ==> fs[last_named(fs, name)].0 == name,
        forall|j: int| last_named(fs, name) < j < fs.len() ==> (#[trigger] fs[j]).0 != name,
    decreases fs.len(),
{
    if fs.len() > 0 && fs.last().0 != name {
        lemma_last_named(fs.drop_last(), name);
        assert(forall|j: int| 0 <= j < fs.len() - 1 ==> fs.drop_last()[j] == #[trigger] fs[j]);
        if last_named(fs, name) >= 0 {
            assert(fs[last_named(fs, name)] == fs.drop_last()[last_named(fs.drop_last(), name)]);
        }
    }
}

/// Any index bearing `name` with nothing after it bearing `name` is
/// `last_named`.
pub proof fn lemma_last_named_unique(fs: Seq<(Seq<char>, Seq<char>)>, name: Seq<char>, i: int)
    requires
        0 <= i < fs.len(),
        fs[i].0 == name,
        forall|j: int| i < j < fs.len() ==> (#[trigger] fs[j]).0 != name,
    ensures
        last_named(fs, name) == i,
    decreases fs.len(),
{
    if i == fs.len() - 1 {
        assert(fs.last() == fs[i]);
    } else {
        assert(fs.last() == fs[fs.len() - 1]);
        assert(forall|j: int| 0 <= j < fs.len() - 1 ==> fs.drop_last()[j] == #[trigger] fs[j]);
        lemma_last_named_unique(fs.drop_last(), name, i);
    }
}

/// The from-side lines of a match, sliced from the last file bearing its
/// from-path.
pub open spec fn from_slice(m: BlockMatchView, fs: Seq<(Seq<char>, Seq<char>)>) -> Seq<Seq<char>> {
    lines_spec(fs[last_named(fs, m.from_file)].1).subrange(m.from_range.0, m.from_range.1)
}

/// The content hash that votes a match: its from-side lines, joined and
/// hashed as one block.
pub open spec fn block_hash_of(m: BlockMatchView, fs: Seq<(Seq<char>, Seq<char>)>) -> u64 {
    hash64_of(joined_view(from_slice(m, fs)))
}

/// A match's from-range can be sliced out of the last file bearing its
/// from-path, when that file exists.
pub open spec fn match_sliceable(m: BlockMatchView, fs: Seq<(Seq<char>, Seq<char>)>) -> bool {
    last_named(fs, m.from_file) >= 0 ==> 0 <= m.from_range.0 <= m.from_range.1 <= lines_spec(
        fs[last_named(fs, m.from_file)].1,
    ).len()
}

/// Every match of the list is sliceable against `fs`.
pub open spec fn matches_sliceable(
    ms: Seq<BlockMatchView>,
    fs: Seq<(Seq<char>, Seq<char>)>,
) -> bool {
    forall|k: int| 0 <= k < ms.len() ==> match_sliceable(#[trigger] ms[k], fs)
}

/// The block hashes already seen after the first `k` matches were voted.  A
/// match whose from-path is absent from `fs` casts no hash.
pub open spec fn seen_upto(
    ms: Seq<BlockMatchView>,
    fs: Seq<(Seq<char>, Seq<char>)>,
    k: int,
) -> Seq<u64>
    decreases k,
{
    if k <= 0 {
        Seq::empty()
    } else {
        let s = seen_upto(ms, fs, k - 1);
        if last_named(fs, ms[k - 1].from_file) >= 0 {
            let h = block_hash_of(ms[k - 1], fs);
            if s.contains(h) {
                s
            } else {
                s.push(h)
            }
        } else {
            s
        }
    }
}

/// The vote of match `k`: an addition exactly when its from-path is present
/// and its block hash was already seen when its turn came.
pub open spec fn vote_of(ms: Seq<BlockMatchView>, fs: Seq<(Seq<char>, Seq<char>)>, k: int) -> bool {
    last_named(fs, ms[k].from_file) >= 0 && seen_upto(ms, fs, k).contains(block_hash_of(ms[k], fs))
}

/// Strict lexicographic order on `(from_file, to_file)` group keys.
pub open spec fn key_lt(a: (Seq<char>, Seq<char>), b: (Seq<char>, Seq<char>)) -> bool {
    lex_lt(a.0, b.0) || (a.0 == b.0 && lex_lt(a.1, b.1))
}

/// The group key of a grouped entry.
pub open spec fn gkey(g: GroupedMatchesView) -> (Seq<char>, Seq<char>) {
    (g.from_file, g.to_file)
}

/// Exactly one of `key_lt(a, b)`, `a == b` and `key_lt(b, a)` holds.
pub proof fn lemma_key_trichotomy(a: (Seq<char>, Seq<char>), b: (Seq<char>, Seq<char>))
    ensures
        key_lt(a, b) || key_lt(b, a) || a == b,
        key_lt(a, b) ==> !key_lt(b, a) && a != b,
        key_lt(b, a) ==> !key_lt(a, b) && a != b,
{
    lemma_lex_trichotomy(a.0, b.0);
    lemma_lex_trichotomy(a.1, b.1);
    if a.0 == b.0 && a.1 == b.1 {
        assert(a == b);
    }
}

/// Key order is transitive.
pub proof fn lemma_key_lt_trans(
    a: (Seq<char>, Seq<char>),
    b: (Seq<char>, Seq<char>),
    c: (Seq<char>, Seq<char>),
)
    requires
        key_lt(a, b),
        key_lt(b, c),
    ensures
        key_lt(a, c),
{
    if lex_lt(a.0, b.0) && lex_lt(b.0, c.0) {
        crate::text::lemma_lex_lt_trans(a.0, b.0, c.0);
    } else if a.0 == b.0 && a.1 != b.1 && b.0 == c.0 && b.1 != c.1 {
        crate::text::lemma_lex_lt_trans(a.1, b.1, c.1);
    }
}

/// The position at which `key` joins a group list: the first index whose
/// key is not below `key`, or the length.
pub open spec fn insert_pos(gs: Seq<GroupedMatchesView>, key: (Seq<char>, Seq<char>)) -> int
    decreases gs.len(),
{
    if gs.len() == 0 {
        0
    } else if key_lt(gkey(gs[0]), key) {
        1 + insert_pos(gs.drop_first(), key)
    } else {
        0
    }
}

/// `insert_pos` is the unique index with every key before it below `key`
/// and, when in range, a key not below `key` at it.
pub proof fn lemma_insert_pos(gs: Seq<GroupedMatchesView>, key: (Seq<char>, Seq<char>))
    ensures
        0 <= insert_pos(gs, key) <= gs.len(),
        forall|j: int| 0 <= j < insert_pos(gs, key) ==> key_lt(gkey(#[trigger] gs[j]), key),
        insert_pos(gs, key) < gs.len() ==> !key_lt(gkey(gs[insert_pos(gs, key)]), key),
    decreases gs.len(),
{
    if gs.len() > 0 && key_lt(gkey(gs[0]), key) {
        lemma_insert_pos(gs.drop_first(), key);
        assert(forall|j: int| 0 <= j < gs.len() - 1 ==> gs.drop_first()[j] == #[trigger] gs[j + 1]);
        assert forall|j: int| 0 <= j < insert_pos(gs, key) implies key_lt(
            gkey(#[trigger] gs[j]),
            key,
        ) by {
            if j > 0 {
                assert(gs[j] == gs.drop_first()[j - 1]);
            }
        }
        if insert_pos(gs, key) < gs.len() {
            assert(gs[insert_pos(gs, key)] == gs.drop_first()[insert_pos(gs.drop_first(), key)]);
        }
    }
}

/// Any index with the two properties of [`lemma_insert_pos`] is
/// `insert_pos`.
pub proof fn lemma_insert_pos_unique(
    gs: Seq<GroupedMatchesView>,
    key: (Seq<char>, Seq<char>),
    i: int,
)
    requires
        0 <= i <= gs.len(),
        forall|j: int| 0 <= j < i ==> key_lt(gkey(#[trigger] gs[j]), key),
        i < gs.len() ==> !key_lt(gkey(gs[i]), key),
    ensures
        i == insert_pos(gs, key),
    decreases gs.len(),
{
    if gs.len() > 0 && key_lt(gkey(gs[0]), key) {
        assert(i > 0);
        assert(forall|j: int| 0 <= j < gs.len() - 1 ==> gs.drop_first()[j] == #[trigger] gs[j + 1]);
        assert forall|j: int| 0 <= j < i - 1 implies key_lt(
            gkey(#[trigger] gs.drop_first()[j]),
            key,
        ) by {
            assert(gs.drop_first()[j] == gs[j + 1]);
        }
        lemma_insert_pos_unique(gs.drop_first(), key, i - 1);
    }
}

/// One voted match joins the group list: appended to the group of its key,
/// or opening a fresh group at its sorted position.
pub open spec fn add_to_groups(
    gs: Seq<GroupedMatchesView>,
    m: BlockMatchView,
    vote: bool,
) -> Seq<GroupedMatchesView> {
    let key = (m.from_file, m.to_file);
    let p = insert_pos(gs, key);
    let b = BlockWithVoteView { block: m, is_addition: vote };
    if p < gs.len() && gkey(gs[p]) == key {
        gs.update(
            p,
            GroupedMatchesView {
                from_file: gs[p].from_file,
                to_file: gs[p].to_file,
                blocks: gs[p].blocks.push(b),
            },
        )
    } else {
        gs.insert(p, GroupedMatchesView { from_file: m.from_file, to_file: m.to_file, blocks: seq![b] })
    }
}

/// The group list after the first `k` matches are voted and grouped.
pub open spec fn groups_upto(
    ms: Seq<BlockMatchView>,
    fs: Seq<(Seq<char>, Seq<char>)>,
    k: int,
) -> Seq<GroupedMatchesView>
    decreases k,
{
    if k <= 0 {
        Seq::empty()
    } else {
        add_to_groups(groups_upto(ms, fs, k - 1), ms[k - 1], vote_of(ms, fs, k - 1))
    }
}

/// The grouped, voted output for a match list: one group per distinct
/// `(from_file, to_file)` pair, groups sorted by key, blocks in arrival
/// order, votes per [`vote_of`].
pub open spec fn group_spec(
    ms: Seq<BlockMatchView>,
    fs: Seq<(Seq<char>, Seq<char>)>,
) -> Seq<GroupedMatchesView> {
    groups_upto(ms, fs, ms.len() as int)
}

/// A group list is strictly sorted by key and every block bears its group's
/// file pair.
pub open spec fn groups_wf(gs: Seq<GroupedMatchesView>) -> bool {
    &&& forall|p: int, q: int|
        0 <= p < q < gs.len() ==> key_lt(gkey(#[trigger] gs[p]), gkey(#[trigger] gs[q]))
    &&& forall|p: int|
        0 <= p < gs.len() ==> (#[trigger] gs[p]).blocks.len() >= 1
    &&& forall|p: int, b: int|
        0 <= p < gs.len() && 0 <= b < gs[p].blocks.len() ==> {
            &&& (#[trigger] gs[p].blocks[b]).block.from_file == gs[p].from_file
            &&& gs[p].blocks[b].block.to_file == gs[p].to_file
        }
}

/// Adding one voted match preserves group-list well-formedness.
pub proof fn lemma_add_preserves_wf(gs: Seq<GroupedMatchesView>, m: BlockMatchView, vote: bool)
    requires
        groups_wf(gs),
    ensures
        groups_wf(add_to_groups(gs, m, vote)),
{
    let key = (m.from_file, m.to_file);
    let p = insert_pos(gs, key);
    lemma_insert_pos(gs, key);
    let out = add_to_groups(gs, m, vote);
    if p < gs.len() && gkey(gs[p]) == key {
        assert(forall|j: int| 0 <= j < gs.len() && j != p ==> #[trigger] out[j] == gs[j]);
        assert(gkey(out[p]) == gkey(gs[p]));
        assert forall|a: int, b: int| 0 <= a < b < out.len() implies key_lt(
            gkey(#[trigger] out[a]),
            gkey(#[trigger] out[b]),
        ) by {
            assert(gkey(out[a]) == gkey(gs[a]));
            assert(gkey(out[b]) == gkey(gs[b]));
        }
        assert forall|a: int, b: int|
            0 <= a < out.len() && 0 <= b < out[a].blocks.len() implies {
            &&& (#[trigger] out[a].blocks[b]).block.from_file == out[a].from_file
            &&& out[a].blocks[b].block.to_file == out[a].to_file
        } by {
            if a == p && b == gs[p].blocks.len() {
                assert(out[p].blocks[b] == BlockWithVoteView { block: m, is_addition: vote });
            } else if a == p {
                assert(out[p].blocks[b] == gs[p].blocks[b]);
            }
        }
    } else {
        let fresh = GroupedMatchesView { from_file: m.from_file, to_file: m.to_file, blocks: seq![BlockWithVoteView { block: m, is_addition: vote }] };
        assert(forall|j: int| 0 <= j < p ==> #[trigger] out[j] == gs[j]);
        assert(out[p] == fresh);
        assert(forall|j: int| p < j < out.len() ==> #[trigger] out[j] == gs[j - 1]);
        assert forall|a: int, b: int| 0 <= a < b < out.len() implies key_lt(
            gkey(#[trigger] out[a]),
            gkey(#[trigger] out[b]),
        ) by {
            if a < p && b < p {
            } else if a < p && b == p {
                assert(key_lt(gkey(gs[a]), key));
            } else if a < p && b > p {
                assert(key_lt(gkey(gs[a]), gkey(gs[b - 1])));
            } else if a == p && b > p {
                // key is not below and differs from the key at p, so it is
                // strictly above it, and strictly above everything after
                lemma_key_trichotomy(key, gkey(gs[p]));
                if b - 1 > p {
                    assert(key_lt(gkey(gs[p]), gkey(gs[b - 1])));
                    lemma_key_lt_trans(key, gkey(gs[p]), gkey(gs[b - 1]));
                }
            } else {
                assert(a > p && b > p);
                assert(key_lt(gkey(gs[a - 1]), gkey(gs[b - 1])));
            }
        }
    }
}

/// Every prefix of the grouped output is well-formed.
pub proof fn lemma_groups_upto_wf(
    ms: Seq<BlockMatchView>,
    fs: Seq<(Seq<char>, Seq<char>)>,
    k: int,
)
    ensures
        groups_wf(groups_upto(ms, fs, k)),
    decreases k,
{
    if k <= 0 {
        assert(groups_wf(Seq::<GroupedMatchesView>::empty()));
    } else {
        lemma_groups_upto_wf(ms, fs, k - 1);
        lemma_add_preserves_wf(groups_upto(ms, fs, k - 1), ms[k - 1], vote_of(ms, fs, k - 1));
    }
}

/// A hash is in the seen set after `k` votes exactly when some earlier
/// voting match cast it.
pub proof fn lemma_seen_characterization(
    ms: Seq<BlockMatchView>,
    fs: Seq<(Seq<char>, Seq<char>)>,
    k: int,
)
    requires
        0 <= k <= ms.len(),
    ensures
        forall|h: u64|
            #[trigger] seen_upto(ms, fs, k).contains(h) <==> exists|j: int|
                0 <= j < k && last_named(fs, (#[trigger] ms[j]).from_file) >= 0 && block_hash_of(
                    ms[j],
                    fs,
                ) == h,
    decreases k,
{
    if k > 0 {
        lemma_seen_characterization(ms, fs, k - 1);
        let s = seen_upto(ms, fs, k - 1);
        assert forall|h: u64| #[trigger] seen_upto(ms, fs, k).contains(h) implies exists|j: int|
            0 <= j < k && last_named(fs, (#[trigger] ms[j]).from_file) >= 0 && block_hash_of(
                ms[j],
                fs,
            ) == h by {
            if last_named(fs, ms[k - 1].from_file) >= 0 && !s.contains(block_hash_of(ms[k - 1], fs))
                && h == block_hash_of(ms[k - 1], fs) {
                assert(0 <= k - 1 < k && last_named(fs, ms[k - 1].from_file) >= 0
                    && block_hash_of(ms[k - 1], fs) == h);
            } else {
                assert(s.contains(h));
            }
        }
        assert forall|h: u64|
            (exists|j: int|
                0 <= j < k && last_named(fs, (#[trigger] ms[j]).from_file) >= 0 && block_hash_of(
                    ms[j],
                    fs,
                ) == h) implies #[trigger] seen_upto(ms, fs, k).contains(h) by {
            let j = choose|j: int|
                0 <= j < k && last_named(fs, (#[trigger] ms[j]).from_file) >= 0 && block_hash_of(
                    ms[j],
                    fs,
                ) == h;
            if j < k - 1 {
                assert(s.contains(h));
                if last_named(fs, ms[k - 1].from_file) >= 0 && !s.contains(
                    block_hash_of(ms[k - 1], fs),
                ) {
                    assert(seen_upto(ms, fs, k) == s.push(block_hash_of(ms[k - 1], fs)));
                    let w = choose|w: int| 0 <= w < s.len() && s[w] == h;
                    assert(seen_upto(ms, fs, k)[w] == h);
                }
            } else {
                let bh = block_hash_of(ms[k - 1], fs);
                if s.contains(bh) {
                    assert(seen_upto(ms, fs, k) == s);
                } else {
                    assert(seen_upto(ms, fs, k) == s.push(bh));
                    assert(seen_upto(ms, fs, k)[s.len() as int] == bh);
                }
            }
        }
    }
}

/// Duplicate voting: a match whose from-path is present is voted an
/// addition exactly when some earlier match (in arrival order, over all file
/// pairs) cast the same from-side block content hash; the first carrier of a
/// content is voted a move.
pub proof fn lemma_duplicate_voting(
    ms: Seq<BlockMatchView>,
    fs: Seq<(Seq<char>, Seq<char>)>,
    k: int,
)
    requires
        0 <= k < ms.len(),
        last_named(fs, ms[k].from_file) >= 0,
    ensures
        vote_of(ms, fs, k) <==> exists|j: int|
            0 <= j < k && last_named(fs, (#[trigger] ms[j]).from_file) >= 0 && block_hash_of(
                ms[j],
                fs,
            ) == block_hash_of(ms[k], fs),
{
    lemma_seen_characterization(ms, fs, k);
}

/// Whether `v` holds the hash `h`.
fn contains_u64(v: &Vec<u64>, h: u64) -> (r: bool)
    ensures
        r == v@.contains(h),
{
    let n = v.len();
    let mut k: usize = 0;
    while k < n
        invariant
            0 <= k <= n,
            n == v@.len(),
            forall|j: int| 0 <= j < k ==> v@[j] != h,
        decreases n - k,
    {
        if v[k] == h {
            return true;
        }
        k += 1;
    }
    false
}

/// The last index of the file named `name`, if any file bears it.
fn find_last_named(files: &[(String, String)], name: &str) -> (r: Option<usize>)
    ensures
        r is Some ==> r->Some_0 < files@.len() && r->Some_0 as int == last_named(
            files_view(files@),
            name@,
        ),
        r is None ==> last_named(files_view(files@), name@) == -1,
{
    let ghost fv = files_view(files@);
    proof {
        assert(forall|j: int|
            0 <= j < files@.len() ==> #[trigger] fv[j] == (files@[j].0@, files@[j].1@));
    }
    let n = files.len();
    let mut k = n;
    while k > 0
        invariant
            0 <= k <= n,
            n == files@.len(),
            fv == files_view(files@),
            forall|j: int|
                0 <= j < files@.len() ==> #[trigger] fv[j] == (files@[j].0@, files@[j].1@),
            forall|j: int| k <= j < n ==> (#[trigger] fv[j]).0 != name@,
        decreases k,
    {
        k -= 1;
        if str_eq(files[k].0.as_str(), name) {
            proof {
                lemma_last_named_unique(fv, name@, k as int);
            }
            return Some(k);
        }
    }
    proof {
        lemma_last_named(fv, name@);
        if last_named(fv, name@) >= 0 {
            assert(fv[last_named(fv, name@)].0 == name@);
        }
    }
    None
}

/// Whether the group `g` sorts strictly before the key `(mf, mt)`.
fn group_key_lt(g: &GroupedMatches, mf: &str, mt: &str) -> (r: bool)
    ensures
        r == key_lt(gkey(g@), (mf@, mt@)),
{
    if str_lt(g.from_file.as_str(), mf) {
        true
    } else if str_eq(g.from_file.as_str(), mf) {
        str_lt(g.to_file.as_str(), mt)
    } else {
        false
    }
}

/// Group block matches by `(from_file, to_file)` and vote duplicates.
///
/// Matches are taken in arrival order.  Each one's from-side lines are
/// sliced from the last `from_files` entry bearing its from-path and hashed
/// as a block; the first match to cast a given hash is voted a move
/// (`is_addition` false), every later match with the same hash an addition,
/// across all file pairs.  A match whose from-path is absent casts no hash
/// and is voted a move.  The voted matches are grouped per file pair, blocks
/// in arrival order, and the groups come out sorted by `(from_file,
/// to_file)`, one per distinct pair.
#[verifier::loop_isolation(false)]
pub fn group_and_filter_matches(matches: Vec<BlockMatch>, from_files: &[(String, String)]) -> (r:
    Vec<GroupedMatches>)
    requires
        matches_sliceable(matches@.map_values(|m: BlockMatch| m@), files_view(from_files@)),
    ensures
        r@.map_values(|g: GroupedMatches| g@) == group_spec(
            matches@.map_values(|m: BlockMatch| m@),
            files_view(from_files@),
        ),
        groups_wf(r@.map_values(|g: GroupedMatches| g@)),
{
    let ghost fvw = files_view(from_files@);
    let ghost mv = matches@.map_values(|m: BlockMatch| m@);
    let ghost gv = |g: GroupedMatches| g@;
    proof {
        assert(forall|j: int|
            0 <= j < from_files@.len() ==> #[trigger] fvw[j] == (
                from_files@[j].0@,
                from_files@[j].1@,
            ));
        assert(forall|j: int| 0 <= j < matches@.len() ==> #[trigger] mv[j] == matches@[j]@);
    }

    // Split every from-file into lines once.
    let mut from_lines_all: Vec<Vec<&str>> = Vec::new();
    let fn_count = from_files.len();
    let mut ti: usize = 0;
    while ti < fn_count
        invariant
            0 <= ti <= fn_count,
            from_lines_all@.len() == ti,
            forall|j: int|
                0 <= j < ti ==> (#[trigger] from_lines_all@[j])@.map_values(|l: &str| l@)
                    == lines_spec(fvw[j].1),
        decreases fn_count - ti,
    {
        let fpair = &from_files[ti];
        let ls = split_lines(fpair.1.as_str());
        from_lines_all.push(ls);
        ti += 1;
    }

    let mut seen: Vec<u64> = Vec::new();
    let mut groups: Vec<GroupedMatches> = Vec::new();
    proof {
        assert(seen@ =~= seen_upto(mv, fvw, 0));
        assert(groups@.map_values(gv) =~= groups_upto(mv, fvw, 0));
    }

    let n = matches.len();
    let mut k: usize = 0;
    while k < n
        invariant
            0 <= k <= n,
            seen@ == seen_upto(mv, fvw, k as int),
            groups@.map_values(gv) == groups_upto(mv, fvw, k as int),
        decreases n - k,
    {
        let m = &matches[k];
        proof {
            assert(mv[k as int] == m@);
            assert(match_sliceable(mv[k as int], fvw));
        }
        let mut is_addition = false;
        let lastf = find_last_named(from_files, m.from_file.as_str());
        match lastf {
            Some(li) => {
                let lines = &from_lines_all[li];
                let r0 = m.from_range.0;
                let r1 = m.from_range.1;
                proof {
                    assert(lines@.map_values(|l: &str| l@).len() == lines_spec(
                        fvw[li as int].1,
                    ).len());
                    assert(r0 <= r1 && r1 <= lines@.len());
                }
                let mut seg: Vec<&str> = Vec::new();
                proof {
                    assert(seg@.map_values(|l: &str| l@) =~= lines_spec(
                        fvw[li as int].1,
                    ).subrange(r0 as int, r0 as int));
                }
                let mut q = r0;
                while q < r1
                    invariant
                        r0 <= q <= r1,
                        seg@.map_values(|l: &str| l@) == lines_spec(fvw[li as int].1).subrange(
                            r0 as int,
                            q as int,
                        ),
                    decreases r1 - q,
                {
                    let l = lines[q];
                    proof {
                        assert(l@ == lines_spec(fvw[li as int].1)[q as int]);
                        assert(seg@.push(l).map_values(|x: &str| x@) =~= seg@.map_values(
                            |x: &str| x@,
                        ).push(l@));
                        assert(lines_spec(fvw[li as int].1).subrange(r0 as int, q + 1)
                            =~= lines_spec(fvw[li as int].1).subrange(r0 as int, q as int).push(
                            lines_spec(fvw[li as int].1)[q as int],
                        ));
                    }
                    seg.push(l);
                    q += 1;
                }
                let h = hash_block(seg.as_slice());
                proof {
                    assert(seg@.map_values(|l: &str| l@) == from_slice(mv[k as int], fvw));
                    assert(h == block_hash_of(mv[k as int], fvw));
                }
                if contains_u64(&seen, h) {
                    is_addition = true;
                } else {
                    seen.push(h);
                }
            },
            None => {},
        }
        proof {
            assert(is_addition == vote_of(mv, fvw, k as int));
            assert(seen@ == seen_upto(mv, fvw, k + 1));
        }

        let bwv = BlockWithVote { block: m.clone(), is_addition };
        let ghost old_gs = groups@.map_values(gv);
        let ghost key = (mv[k as int].from_file, mv[k as int].to_file);
        let gn = groups.len();
        let mut p: usize = 0;
        while p < gn && group_key_lt(&groups[p], m.from_file.as_str(), m.to_file.as_str())
            invariant
                0 <= p <= gn,
                forall|j: int| 0 <= j < p ==> key_lt(gkey(#[trigger] old_gs[j]), key),
            decreases gn - p,
        {
            proof {
                assert(old_gs[p as int] == groups@[p as int]@);
            }
            p += 1;
        }
        proof {
            if p < gn {
                assert(old_gs[p as int] == groups@[p as int]@);
            }
            lemma_insert_pos_unique(old_gs, key, p as int);
        }
        if p < gn && str_eq(groups[p].from_file.as_str(), m.from_file.as_str()) && str_eq(
            groups[p].to_file.as_str(),
            m.to_file.as_str(),
        ) {
            proof {
                assert(old_gs[p as int] == groups@[p as int]@);
                assert(gkey(old_gs[p as int]) == key);
            }
            let mut g = groups.remove(p);
            proof {
                assert(g@ == old_gs[p as int]);
                assert(g@.blocks == g.blocks@.map_values(|b: BlockWithVote| b@));
                assert(g.blocks@.push(bwv).map_values(|b: BlockWithVote| b@) =~= g@.blocks.push(
                    bwv@,
                ));
            }
            g.blocks.push(bwv);
            let ghost rem = groups@;
            groups.insert(p, g);
            proof {
                let out = add_to_groups(old_gs, mv[k as int], is_addition);
                assert forall|j: int| 0 <= j < groups@.len() implies #[trigger] groups@.map_values(
                    gv,
                )[j] == out[j] by {
                    assert(groups@.map_values(gv)[j] == groups@[j]@);
                    if j < p {
                        assert(groups@[j] == rem[j]);
                    } else if j == p {
                        assert(groups@[j] == g);
                        assert(g@.blocks =~= old_gs[p as int].blocks.push(bwv@));
                        assert(g@ =~= out[j]);
                    } else {
                        assert(groups@[j] == rem[j - 1]);
                    }
                }
                assert(groups@.map_values(gv) =~= add_to_groups(old_gs, mv[k as int], is_addition));
            }
        } else {
            proof {
                if p < gn {
                    assert(old_gs[p as int] == groups@[p as int]@);
                    assert(gkey(old_gs[p as int]) != key);
                }
            }
            let mut bl: Vec<BlockWithVote> = Vec::new();
            bl.push(bwv);
            let fresh = GroupedMatches {
                from_file: m.from_file.clone(),
                to_file: m.to_file.clone(),
                blocks: bl,
            };
            proof {
                assert(fresh@.blocks =~= seq![
                    BlockWithVoteView { block: mv[k as int], is_addition },
                ]);
            }
            groups.insert(p, fresh);
            proof {
                assert(groups@.map_values(gv) =~= add_to_groups(old_gs, mv[k as int], is_addition));
            }
        }
        proof {
            assert(groups_upto(mv, fvw, k + 1) == add_to_groups(
                groups_upto(mv, fvw, k as int),
                mv[k as int],
                vote_of(mv, fvw, k as int),
            ));
        }
        k += 1;
    }
    proof {
        assert(mv.len() == n);
        lemma_groups_upto_wf(mv, fvw, n as int);
    }
    groups
}

/// Whether a voted block's from-range covers the zero-based line `lineno`.
pub open spec fn covers_line(b: BlockWithVoteView, lineno: int) -> bool {
    b.block.from_range.0 <= lineno < b.block.from_range.1
}

/// The block that annotates a replayed line: the first voted block of the
/// group whose from-range covers it, if any.
pub fn annotation_for_line(blocks: &Vec<BlockWithVote>, lineno: usize) -> (r: Option<usize>)
    ensures
        (r is Some) ==> r->0 < blocks@.len() && covers_line(blocks@[r->0 as int]@, lineno as int)
            && (forall|j: int|
            0 <= j < r->0 ==> !covers_line((#[trigger] blocks@[j])@, lineno as int)),
        (r is None) ==> (forall|j: int|
            0 <= j < blocks@.len() ==> !covers_line((#[trigger] blocks@[j])@, lineno as int)),
{
    let n = blocks.len();
    let mut k: usize = 0;
    while k < n
        invariant
            0 <= k <= n,
            n == blocks@.len(),
            forall|j: int| 0 <= j < k ==> !covers_line((#[trigger] blocks@[j])@, lineno as int),
        decreases n - k,
    {
        let b = &blocks[k];
        if b.block.from_range.0 <= lineno && lineno < b.block.from_range.1 {
            return Some(k);
        }
        k += 1;
    }
    None
}

} // verus!
