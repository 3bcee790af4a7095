//! Snapshot file-list helpers: deterministic ordering and token-bounded
//! splitting.

use vstd::prelude::*;
use vstd::multiset::Multiset;
use vstd::seq_lib::lemma_multiset_commutative;
use crate::text::{lex_le, lex_lt, lemma_lex_trichotomy, lemma_lex_lt_trans, str_lt};
use crate::types::{FileEntry, FileEntryView};

verus! {

/// The position at which a path joins a sorted file list: the first index
/// whose path is strictly greater, so that equal paths keep their arrival
/// order.
pub open spec fn file_pos(fs: Seq<FileEntryView>, path: Seq<char>) -> int
    decreases fs.len(),
{
    if fs.len() == 0 {
        0
    } else if lex_lt(path, fs[0].path) {
        0
    } else {
        1 + file_pos(fs.drop_first(), path)
    }
}

/// `file_pos` is the unique index with no strictly-greater path before it
/// and, when in range, a strictly-greater path at it.
pub proof fn lemma_file_pos(fs: Seq<FileEntryView>, path: Seq<char>)
    ensures
        0 <= file_pos(fs, path) <= fs.len(),
        forall|j: int| 0 <= j < file_pos(fs, path) ==> !lex_lt(path, (#[trigger] fs[j]).path),
        file_pos(fs, path) < fs.len() ==> lex_lt(path, fs[file_pos(fs, path)].path),
    decreases fs.len(),
{
    if fs.len() > 0 && !lex_lt(path, fs[0].path) {
        lemma_file_pos(fs.drop_first(), path);
        assert(forall|j: int| 0 <= j < fs.len() - 1 ==> fs.drop_first()[j] == #[trigger] fs[j + 1]);
        assert forall|j: int| 0 <= j < file_pos(fs, path) implies !lex_lt(
            path,
            (#[trigger] fs[j]).path,
        ) by {
            if j > 0 {
                assert(fs[j] == fs.drop_first()[j - 1]);
            }
        }
        if file_pos(fs, path) < fs.len() {
            assert(fs[file_pos(fs, path)] == fs.drop_first()[file_pos(fs.drop_first(), path)]);
        }
    }
}

/// Any index with the two properties of [`lemma_file_pos`] is `file_pos`.
pub proof fn lemma_file_pos_unique(fs: Seq<FileEntryView>, path: Seq<char>, i: int)
    requires
        0 <= i <= fs.len(),
        forall|j: int| 0 <= j < i ==> !lex_lt(path, (#[trigger] fs[j]).path),
        i < fs.len() ==> lex_lt(path, fs[i].path),
    ensures
        i == file_pos(fs, path),
    decreases fs.len(),
{
    if fs.len() > 0 && !lex_lt(path, fs[0].path) {
        assert(i > 0);
        assert(forall|j: int| 0 <= j < fs.len() - 1 ==> fs.drop_first()[j] == #[trigger] fs[j + 1]);
        assert forall|j: int| 0 <= j < i - 1 implies !lex_lt(
            path,
            (#[trigger] fs.drop_first()[j]).path,
        ) by {
            assert(fs.drop_first()[j] == fs[j + 1]);
        }
        lemma_file_pos_unique(fs.drop_first(), path, i - 1);
    }
}

/// The sorted list after the first `k` entries are placed, each at its
/// [`file_pos`]: a stable insertion sort by path.
pub open spec fn sort_upto(fs: Seq<FileEntryView>, k: int) -> Seq<FileEntryView>
    decreases k,
{
    if k <= 0 {
        Seq::empty()
    } else {
        let sorted = sort_upto(fs, k - 1);
        sorted.insert(file_pos(sorted, fs[k - 1].path), fs[k - 1])
    }
}

/// The prepared file list: the input stably sorted by path.
pub open spec fn prepare_spec(fs: Seq<FileEntryView>) -> Seq<FileEntryView> {
    sort_upto(fs, fs.len() as int)
}

/// A file list sorted by path, non-strictly.
pub open spec fn sorted_by_path(fs: Seq<FileEntryView>) -> bool {
    forall|p: int, q: int|
        0 <= p < q < fs.len() ==> lex_le((#[trigger] fs[p]).path, (#[trigger] fs[q]).path)
}

/// Non-strict lexicographic order is transitive.
pub proof fn lemma_lex_le_trans(a: Seq<char>, b: Seq<char>, c: Seq<char>)
    requires
        lex_le(a, b),
        lex_le(b, c),
    ensures
        lex_le(a, c),
{
    if lex_lt(a, b) && lex_lt(b, c) {
        lemma_lex_lt_trans(a, b, c);
    }
}

/// Placing one entry at its [`file_pos`] keeps the list sorted.
pub proof fn lemma_insert_sorted(fs: Seq<FileEntryView>, e: FileEntryView)
    requires
        sorted_by_path(fs),
    ensures
        sorted_by_path(fs.insert(file_pos(fs, e.path), e)),
{
    let p = file_pos(fs, e.path);
    lemma_file_pos(fs, e.path);
    let out = fs.insert(p, e);
    assert(forall|j: int| 0 <= j < p ==> #[trigger] out[j] == fs[j]);
    assert(out[p] == e);
    assert(forall|j: int| p < j < out.len() ==> #[trigger] out[j] == fs[j - 1]);
    assert forall|a: int, b: int| 0 <= a < b < out.len() implies lex_le(
        (#[trigger] out[a]).path,
        (#[trigger] out[b]).path,
    ) by {
        if a < p && b == p {
            lemma_lex_trichotomy(e.path, fs[a].path);
        } else if a < p && b > p {
        } else if a == p && b > p {
            if b - 1 == p {
            } else {
                assert(lex_le(fs[p].path, fs[b - 1].path));
                lemma_lex_le_trans(e.path, fs[p].path, fs[b - 1].path);
            }
        }
    }
}

/// Every prefix of the stable sort is sorted.
pub proof fn lemma_sort_upto_sorted(fs: Seq<FileEntryView>, k: int)
    ensures
        sorted_by_path(sort_upto(fs, k)),
    decreases k,
{
    if k > 0 {
        lemma_sort_upto_sorted(fs, k - 1);
        lemma_insert_sorted(sort_upto(fs, k - 1), fs[k - 1]);
    }
}

/// Inserting anywhere adds one occurrence to the multiset of entries.
pub proof fn lemma_insert_to_multiset(s: Seq<FileEntry>, p: int, v: FileEntry)
    requires
        0 <= p <= s.len(),
    ensures
        s.insert(p, v).to_multiset() == s.to_multiset().insert(v),
{
    broadcast use vstd::seq_lib::group_to_multiset_ensures;

    let pre = s.take(p);
    let post = s.skip(p);
    assert(s.insert(p, v) =~= pre + (seq![v] + post));
    assert(s =~= pre + post);
    lemma_multiset_commutative(pre, seq![v] + post);
    lemma_multiset_commutative(seq![v], post);
    lemma_multiset_commutative(pre, post);
    assert(seq![v] =~= Seq::<FileEntry>::empty().push(v));
    assert(seq![v].to_multiset() =~= Multiset::<FileEntry>::empty().insert(v));
    assert(s.insert(p, v).to_multiset() =~= s.to_multiset().insert(v));
}

/// Sort the file list by path, deterministically: lexicographic path order,
/// entries with equal paths keeping their arrival order.
///
/// The result is exactly [`prepare_spec`], a permutation of the input,
/// sorted by path.
#[verifier::loop_isolation(false)]
pub fn prepare_file_list(files: Vec<FileEntry>) -> (r: Vec<FileEntry>)
    ensures
        r@.map_values(|e: FileEntry| e@) == prepare_spec(files@.map_values(|e: FileEntry| e@)),
        sorted_by_path(r@.map_values(|e: FileEntry| e@)),
        r@.to_multiset() == files@.to_multiset(),
{
    let ghost ev = |e: FileEntry| e@;
    let ghost fv = files@.map_values(ev);
    let mut rest = files;
    let mut r: Vec<FileEntry> = Vec::new();
    let ghost orig = rest@;
    let mut k: usize = 0;
    let n = rest.len();
    proof {
        broadcast use vstd::seq_lib::group_to_multiset_ensures;

        assert(r@.map_values(ev) =~= sort_upto(fv, 0));
        assert(rest@ =~= orig.skip(0));
        assert(r@ + rest@ =~= orig);
        lemma_multiset_commutative(r@, rest@);
    }
    while k < n
        invariant
            0 <= k <= n,
            rest@ == orig.skip(k as int),
            r@.map_values(ev) == sort_upto(fv, k as int),
            r@.to_multiset().add(rest@.to_multiset()) == orig.to_multiset(),
        decreases n - k,
    {
        let ghost sorted_pre = r@.map_values(ev);
        let e = rest.remove(0);
        proof {
            broadcast use vstd::seq_lib::group_to_multiset_ensures;

            assert(orig.skip(k as int)[0] == orig[k as int]);
            assert(e == orig[k as int]);
            assert(e@ == fv[k as int]);
            assert(orig.skip(k as int).drop_first() =~= orig.skip(k + 1));
            lemma_file_pos(sorted_pre, e@.path);
        }
        // find the stable insertion position: first strictly-greater path
        let rn = r.len();
        let mut p: usize = 0;
        while p < rn && !str_lt(e.path.as_str(), r[p].path.as_str())
            invariant
                0 <= p <= rn,
                forall|j: int| 0 <= j < p ==> !lex_lt(e@.path, (#[trigger] sorted_pre[j]).path),
            decreases rn - p,
        {
            proof {
                assert(sorted_pre[p as int] == r@[p as int]@);
            }
            p += 1;
        }
        proof {
            if p < rn {
                assert(sorted_pre[p as int] == r@[p as int]@);
            }
            lemma_file_pos_unique(sorted_pre, e@.path, p as int);
        }
        let ghost r_pre = r@;
        r.insert(p, e);
        proof {
            broadcast use vstd::seq_lib::group_to_multiset_ensures;

            assert forall|j: int| 0 <= j < r@.len() implies #[trigger] r@.map_values(ev)[j]
                == sort_upto(fv, k + 1)[j] by {
                assert(r@.map_values(ev)[j] == r@[j]@);
                if j < p {
                    assert(r@[j] == r_pre[j]);
                } else if j > p {
                    assert(r@[j] == r_pre[j - 1]);
                }
            }
            assert(r@.map_values(ev) =~= sort_upto(fv, k + 1));
            lemma_insert_to_multiset(r_pre, p as int, e);
            // one entry moved from rest to r
            let old_rest = orig.skip(k as int);
            assert(old_rest.drop_first().to_multiset() =~= old_rest.to_multiset().remove(
                old_rest[0],
            ));
            assert(r@.to_multiset().add(rest@.to_multiset()) =~= orig.to_multiset());
        }
        k += 1;
    }
    proof {
        assert(fv.len() == n);
        assert(rest@.to_multiset() =~= Seq::<FileEntry>::empty().to_multiset());
        assert(r@.to_multiset() =~= orig.to_multiset());
        lemma_sort_upto_sorted(fv, n as int);
    }
    r
}

/// The entry views of a file list.
pub open spec fn file_views(fs: Seq<FileEntry>) -> Seq<FileEntryView> {
    fs.map_values(|e: FileEntry| e@)
}

/// The entry views of a packet list.
pub open spec fn packet_views(ps: Seq<Vec<FileEntry>>) -> Seq<Seq<FileEntryView>> {
    ps.map_values(|p: Vec<FileEntry>| file_views(p@))
}

/// The running state of the greedy token split: closed packets, the packet
/// being filled, and its token total.
#[verifier::ext_equal]
pub ghost struct SplitState {
    pub packets: Seq<Seq<FileEntryView>>,
    pub current: Seq<FileEntryView>,
    pub tokens: int,
}

/// One greedy step: close the current packet when it is non-empty and the
/// next file would push it past the budget, then add the file.
pub open spec fn split_step(st: SplitState, e: FileEntryView, est: int, target: int) -> SplitState {
    if st.current.len() > 0 && st.tokens + est > target {
        SplitState { packets: st.packets.push(st.current), current: seq![e], tokens: est }
    } else {
        SplitState { packets: st.packets, current: st.current.push(e), tokens: st.tokens + est }
    }
}

/// The split state after the first `k` files.
pub open spec fn split_upto(
    fs: Seq<FileEntryView>,
    ests: Seq<int>,
    target: int,
    k: int,
) -> SplitState
    decreases k,
{
    if k <= 0 {
        SplitState { packets: Seq::empty(), current: Seq::empty(), tokens: 0 }
    } else {
        split_step(split_upto(fs, ests, target, k - 1), fs[k - 1], ests[k - 1], target)
    }
}

/// The token-bounded partition of a file list: greedy packets in input
/// order, the last (possibly under-filled) packet included.
pub open spec fn split_spec(fs: Seq<FileEntryView>, ests: Seq<int>, target: int) -> Seq<
    Seq<FileEntryView>,
> {
    let st = split_upto(fs, ests, target, fs.len() as int);
    if st.current.len() > 0 {
        st.packets.push(st.current)
    } else {
        st.packets
    }
}

/// Structural facts of the running split: closed packets are non-empty, the
/// current packet is empty only before the first file, and closed packets
/// plus the current one hold exactly the files seen so far, in order.
pub proof fn lemma_split_upto_props(fs: Seq<FileEntryView>, ests: Seq<int>, target: int, k: int)
    requires
        0 <= k <= fs.len(),
    ensures
        forall|p: int|
            0 <= p < split_upto(fs, ests, target, k).packets.len() ==> (#[trigger] split_upto(
                fs,
                ests,
                target,
                k,
            ).packets[p]).len() >= 1,
        k > 0 ==> split_upto(fs, ests, target, k).current.len() > 0,
        split_upto(fs, ests, target, k).packets.flatten_alt() + split_upto(
            fs,
            ests,
            target,
            k,
        ).current =~= fs.take(k),
    decreases k,
{
    if k <= 0 {
        assert(Seq::<Seq<FileEntryView>>::empty().flatten_alt() =~= Seq::<FileEntryView>::empty());
    } else {
        lemma_split_upto_props(fs, ests, target, k - 1);
        let st = split_upto(fs, ests, target, k - 1);
        let out = split_upto(fs, ests, target, k);
        assert(fs.take(k) =~= fs.take(k - 1).push(fs[k - 1]));
        if st.current.len() > 0 && st.tokens + ests[k - 1] > target {
            assert(st.packets.push(st.current).drop_last() =~= st.packets);
            assert(out.packets.flatten_alt() =~= st.packets.flatten_alt() + st.current);
            assert(out.packets.flatten_alt() + out.current =~= (st.packets.flatten_alt()
                + st.current).push(fs[k - 1]));
        } else {
            assert(out.packets.flatten_alt() + out.current =~= (st.packets.flatten_alt()
                + st.current).push(fs[k - 1]));
        }
    }
}

/// Every packet of the split is non-empty, and the packets concatenate back
/// to the input list.
pub proof fn lemma_split_spec_props(fs: Seq<FileEntryView>, ests: Seq<int>, target: int)
    ensures
        forall|p: int|
            0 <= p < split_spec(fs, ests, target).len() ==> (#[trigger] split_spec(
                fs,
                ests,
                target,
            )[p]).len() >= 1,
        split_spec(fs, ests, target).flatten_alt() =~= fs,
{
    lemma_split_upto_props(fs, ests, target, fs.len() as int);
    let st = split_upto(fs, ests, target, fs.len() as int);
    assert(fs.take(fs.len() as int) =~= fs);
    if st.current.len() > 0 {
        assert(st.packets.push(st.current).drop_last() =~= st.packets);
        assert(split_spec(fs, ests, target).flatten_alt() =~= st.packets.flatten_alt()
            + st.current);
        assert forall|p: int| 0 <= p < split_spec(fs, ests, target).len() implies (
        #[trigger] split_spec(fs, ests, target)[p]).len() >= 1 by {
            if p < st.packets.len() {
                assert(split_spec(fs, ests, target)[p] == st.packets[p]);
            }
        }
    } else {
        assert(st.packets.flatten_alt() + st.current =~= st.packets.flatten_alt());
    }
}

/// Partition the file list into token-bounded packets: files are taken in
/// order, a new packet starts whenever adding the next file's estimate to a
/// non-empty packet would exceed `target_tokens`, and the final partial
/// packet is kept.  `estimates[k]` is the token estimate of `files[k]`.
///
/// The result is exactly [`split_spec`]; every packet is non-empty and the
/// packets concatenate back to the input, in order.
#[verifier::loop_isolation(false)]
pub fn split_files_by_tokens(
    files: Vec<FileEntry>,
    estimates: &[usize],
    target_tokens: usize,
) -> (r: Vec<Vec<FileEntry>>)
    requires
        estimates@.len() == files@.len(),
    ensures
        packet_views(r@) == split_spec(
            file_views(files@),
            estimates@.map_values(|e: usize| e as int),
            target_tokens as int,
        ),
        forall|p: int| 0 <= p < r@.len() ==> (#[trigger] r@[p])@.len() >= 1,
        packet_views(r@).flatten_alt() =~= file_views(files@),
{
    let ghost fv = file_views(files@);
    let ghost estv = estimates@.map_values(|e: usize| e as int);
    let ghost target = target_tokens as int;
    proof {
        assert(forall|j: int| 0 <= j < files@.len() ==> #[trigger] fv[j] == files@[j]@);
        assert(forall|j: int|
            0 <= j < estimates@.len() ==> #[trigger] estv[j] == estimates@[j] as int);
    }
    let mut rest = files;
    let ghost orig = rest@;
    let mut packets: Vec<Vec<FileEntry>> = Vec::new();
    let mut current: Vec<FileEntry> = Vec::new();
    let mut current_tokens: usize = 0;
    let n = rest.len();
    let mut k: usize = 0;
    proof {
        assert(packet_views(packets@) =~= split_upto(fv, estv, target, 0).packets);
        assert(file_views(current@) =~= split_upto(fv, estv, target, 0).current);
        assert(rest@ =~= orig.skip(0));
    }
    while k < n
        invariant
            0 <= k <= n,
            rest@ == orig.skip(k as int),
            packet_views(packets@) == split_upto(fv, estv, target, k as int).packets,
            file_views(current@) == split_upto(fv, estv, target, k as int).current,
            current_tokens as int == split_upto(fv, estv, target, k as int).tokens,
            current@.len() == 0 ==> current_tokens == 0,
        decreases n - k,
    {
        let ghost st = split_upto(fv, estv, target, k as int);
        let e = rest.remove(0);
        proof {
            assert(orig.skip(k as int)[0] == orig[k as int]);
            assert(e@ == fv[k as int]);
            assert(orig.skip(k as int).drop_first() =~= orig.skip(k + 1));
            assert(current@.len() == file_views(current@).len());
        }
        let est = estimates[k];
        let would_be: u128 = current_tokens as u128 + est as u128;
        if current.len() > 0 && would_be > target_tokens as u128 {
            let ghost closed = file_views(current@);
            packets.push(current);
            proof {
                assert(packet_views(packets@) =~= packet_views(packets@.drop_last()).push(closed));
            }
            current = Vec::new();
            current.push(e);
            current_tokens = est;
            proof {
                assert(file_views(current@) =~= seq![fv[k as int]]);
            }
        } else {
            proof {
                if current.len() > 0 {
                    assert(current_tokens as int + est as int <= target);
                }
            }
            current.push(e);
            current_tokens = current_tokens + est;
            proof {
                assert(file_views(current@) =~= file_views(current@.drop_last()).push(
                    fv[k as int],
                ));
            }
        }
        proof {
            assert(split_upto(fv, estv, target, k + 1) == split_step(
                st,
                fv[k as int],
                estv[k as int],
                target,
            ));
            assert(packet_views(packets@) =~= split_upto(fv, estv, target, k + 1).packets);
            assert(file_views(current@) =~= split_upto(fv, estv, target, k + 1).current);
        }
        k += 1;
    }
    if current.len() > 0 {
        let ghost closed = file_views(current@);
        packets.push(current);
        proof {
            assert(packet_views(packets@) =~= packet_views(packets@.drop_last()).push(closed));
            assert(packet_views(packets@) =~= split_spec(fv, estv, target));
        }
    } else {
        proof {
            assert(file_views(current@).len() == 0);
            assert(packet_views(packets@) =~= split_spec(fv, estv, target));
        }
    }
    proof {
        lemma_split_spec_props(fv, estv, target);
        assert forall|p: int| 0 <= p < packets@.len() implies (#[trigger] packets@[p])@.len()
            >= 1 by {
            assert(packet_views(packets@)[p] == file_views(packets@[p]@));
        }
    }
    packets
}

} // verus!
