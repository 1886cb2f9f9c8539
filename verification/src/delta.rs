use vstd::prelude::*;
use crate::filetypes::FileType;
use crate::order::{chars_lt, str_lt};
use crate::order::{lemma_chars_lt_asymmetric, lemma_chars_lt_irreflexive, lemma_chars_lt_total, lemma_chars_lt_transitive};
use crate::snapshot::{EntryView, Snapshot, SnapshotEntry};
use crate::text::{opt_chars, opt_string_clone, opt_string_eq};

verus! {

/// The entry that a snapshot holds for `p`: the last one recorded under that
/// path, if any.
pub open spec fn lookup(es: Seq<EntryView>, p: Seq<char>) -> Option<EntryView>
    decreases es.len(),
{
    if es.len() == 0 {
        None
    } else if es.last().path == p {
        Some(es.last())
    } else {
        lookup(es.drop_last(), p)
    }
}

pub proof fn lemma_lookup_some(es: Seq<EntryView>, p: Seq<char>)
    requires
        lookup(es, p) is Some,
    ensures
        exists|k: int| 0 <= k < es.len() && es[k].path == p && lookup(es, p) == Some(es[k]),
    decreases es.len(),
{
    if es.last().path != p {
        lemma_lookup_some(es.drop_last(), p);
        let k = choose|k: int| 0 <= k < es.drop_last().len() && es.drop_last()[k].path == p
            && lookup(es.drop_last(), p) == Some(es.drop_last()[k]);
        assert(es[k] == es.drop_last()[k]);
    } else {
        assert(es[es.len() - 1] == es.last());
    }
}

/// Position `a` of the index `idx` names this entry path.
pub open spec fn idx_path(es: Seq<EntryView>, idx: Seq<usize>, a: int) -> Seq<char> {
    es[idx[a] as int].path
}

/// Every position of `idx` lies within `es`.
pub open spec fn idx_in_bounds(es: Seq<EntryView>, idx: Seq<usize>) -> bool {
    forall|a: int| 0 <= a < idx.len() ==> #[trigger] idx[a] < es.len()
}

/// The paths at the positions of `idx` strictly increase.
pub open spec fn idx_sorted(es: Seq<EntryView>, idx: Seq<usize>) -> bool {
    forall|a: int, b: int|
        0 <= a < b < idx.len() ==> chars_lt(#[trigger] idx_path(es, idx, a), #[trigger] idx_path(es, idx, b))
}

/// Each position of `idx` holds the entry that `lookup` finds for its path.
pub open spec fn idx_lookups(es: Seq<EntryView>, idx: Seq<usize>) -> bool {
    forall|a: int| 0 <= a < idx.len() ==> lookup(es, #[trigger] idx_path(es, idx, a)) == Some(es[idx[a] as int])
}

/// Every path recorded in `es` is at some position of `idx`.
pub open spec fn idx_covers(es: Seq<EntryView>, idx: Seq<usize>) -> bool {
    forall|k: int|
        #![trigger es[k]]
        0 <= k < es.len() ==> exists|a: int| 0 <= a < idx.len() && #[trigger] idx_path(es, idx, a) == es[k].path
}

/// No entry after a listed position is recorded under the same path: each
/// position is the last one for its path.
pub open spec fn idx_last(es: Seq<EntryView>, idx: Seq<usize>) -> bool {
    forall|a: int, k: int|
        0 <= a < idx.len() && idx[a] < k < es.len() ==> #[trigger] es[k].path != #[trigger] idx_path(es, idx, a)
}

/// `idx` lists, in strictly increasing path order, the position of the entry
/// that `lookup` finds for each path recorded in `es`, and no other.
pub open spec fn is_index(es: Seq<EntryView>, idx: Seq<usize>) -> bool {
    &&& idx_in_bounds(es, idx)
    &&& idx_sorted(es, idx)
    &&& idx_lookups(es, idx)
    &&& idx_covers(es, idx)
}

pub proof fn lemma_lookup_unfold(es: Seq<EntryView>, k: int, p: Seq<char>)
    requires
        0 <= k < es.len(),
    ensures
        lookup(es.take(k + 1), p) == if es[k].path == p {
            Some(es[k])
        } else {
            lookup(es.take(k), p)
        },
{
    assert(es.take(k + 1).drop_last() =~= es.take(k));
    assert(es.take(k + 1).last() == es[k]);
}

pub proof fn lemma_take_agrees(es: Seq<EntryView>, k: int)
    requires
        0 <= k < es.len(),
    ensures
        forall|j: int| 0 <= j < k + 1 ==> #[trigger] es.take(k + 1)[j] == es[j],
        forall|j: int| 0 <= j < k ==> #[trigger] es.take(k)[j] == es[j],
        forall|q: Seq<char>| q != es[k].path ==> #[trigger] lookup(es.take(k + 1), q) == lookup(es.take(k), q),
        lookup(es.take(k + 1), es[k].path) == Some(es[k]),
{
    assert forall|q: Seq<char>| q != es[k].path implies #[trigger] lookup(es.take(k + 1), q) == lookup(es.take(k), q) by {
        lemma_lookup_unfold(es, k, q);
    }
    lemma_lookup_unfold(es, k, es[k].path);
}

/// Recording entry `k` under a path that the index already holds, at `pos`.
proof fn lemma_index_replace(es: Seq<EntryView>, k: int, idx: Seq<usize>, pos: int)
    requires
        0 <= k < es.len(),
        k < usize::MAX,
        is_index(es.take(k), idx),
        0 <= pos < idx.len(),
        idx_path(es.take(k), idx, pos) == es[k].path,
    ensures
        is_index(es.take(k + 1), idx.update(pos, k as usize)),
{
    let pre = es.take(k);
    let post = es.take(k + 1);
    let p = es[k].path;
    let nidx = idx.update(pos, k as usize);
    lemma_take_agrees(es, k);
    assert forall|a: int| 0 <= a < nidx.len() implies #[trigger] idx_path(post, nidx, a)
        == idx_path(pre, idx, a) by {}
    assert forall|a: int| 0 <= a < nidx.len() && a != pos implies #[trigger] idx_path(pre, idx, a) != p by {
        lemma_chars_lt_irreflexive(p);
    }
    assert forall|a: int| 0 <= a < nidx.len() implies lookup(post, #[trigger] idx_path(post, nidx, a)) == Some(
        post[nidx[a] as int],
    ) by {
        if a != pos {
            assert(idx_path(pre, idx, a) != p);
        }
    }
    assert forall|a: int, b: int| 0 <= a < b < nidx.len() implies chars_lt(
        #[trigger] idx_path(post, nidx, a),
        #[trigger] idx_path(post, nidx, b),
    ) by {
        assert(idx_path(post, nidx, a) == idx_path(pre, idx, a));
        assert(idx_path(post, nidx, b) == idx_path(pre, idx, b));
    }
    assert forall|m: int| #![trigger post[m]] 0 <= m < post.len() implies exists|a: int|
        0 <= a < nidx.len() && #[trigger] idx_path(post, nidx, a) == post[m].path by {
        if m < k {
            assert(pre[m] == post[m]);
            let a = choose|a: int| 0 <= a < idx.len() && #[trigger] idx_path(pre, idx, a) == pre[m].path;
            assert(idx_path(post, nidx, a) == idx_path(pre, idx, a));
        } else {
            assert(idx_path(post, nidx, pos) == post[m].path);
        }
    }
}

/// Where the paths of an index stand once entry `k` is inserted at `pos`.
pub open spec fn inserted_path(es: Seq<EntryView>, k: int, idx: Seq<usize>, pos: int, a: int) -> Seq<char> {
    if a < pos {
        idx_path(es.take(k), idx, a)
    } else if a == pos {
        es[k].path
    } else {
        idx_path(es.take(k), idx, a - 1)
    }
}

proof fn lemma_insert_shape(es: Seq<EntryView>, k: int, idx: Seq<usize>, pos: int)
    requires
        0 <= k < es.len(),
        k < usize::MAX,
        idx_in_bounds(es.take(k), idx),
        0 <= pos <= idx.len(),
    ensures
        idx_in_bounds(es.take(k + 1), idx.insert(pos, k as usize)),
        forall|a: int|
            0 <= a < idx.len() + 1 ==> #[trigger] idx_path(es.take(k + 1), idx.insert(pos, k as usize), a)
                == inserted_path(es, k, idx, pos, a),
{
    let nidx = idx.insert(pos, k as usize);
    lemma_take_agrees(es, k);
    assert forall|a: int| 0 <= a < idx.len() + 1 implies #[trigger] idx_path(es.take(k + 1), nidx, a)
        == inserted_path(es, k, idx, pos, a) by {
        if a > pos {
            assert(nidx[a] == idx[a - 1]);
        } else if a < pos {
            assert(nidx[a] == idx[a]);
        }
    }
}

proof fn lemma_insert_sorted(es: Seq<EntryView>, k: int, idx: Seq<usize>, pos: int)
    requires
        0 <= k < es.len(),
        idx_sorted(es.take(k), idx),
        0 <= pos <= idx.len(),
        forall|a: int| 0 <= a < pos ==> chars_lt(#[trigger] idx_path(es.take(k), idx, a), es[k].path),
        pos < idx.len() ==> chars_lt(es[k].path, idx_path(es.take(k), idx, pos)),
    ensures
        forall|a: int, b: int|
            0 <= a < b < idx.len() + 1 ==> chars_lt(
                #[trigger] inserted_path(es, k, idx, pos, a),
                #[trigger] inserted_path(es, k, idx, pos, b),
            ),
        forall|a: int| 0 <= a < idx.len() ==> #[trigger] idx_path(es.take(k), idx, a) != es[k].path,
{
    let pre = es.take(k);
    let p = es[k].path;
    assert forall|a: int| 0 <= a < idx.len() implies #[trigger] idx_path(pre, idx, a) != p by {
        lemma_chars_lt_irreflexive(p);
        if a > pos {
            lemma_chars_lt_transitive(p, idx_path(pre, idx, pos), idx_path(pre, idx, a));
        }
    }
    assert forall|a: int, b: int| 0 <= a < b < idx.len() + 1 implies chars_lt(
        #[trigger] inserted_path(es, k, idx, pos, a),
        #[trigger] inserted_path(es, k, idx, pos, b),
    ) by {
        if a == pos {
            if b - 1 > pos {
                lemma_chars_lt_transitive(p, idx_path(pre, idx, pos), idx_path(pre, idx, b - 1));
            }
        } else if a < pos && b > pos {
            if b - 1 > pos {
                lemma_chars_lt_transitive(idx_path(pre, idx, a), p, idx_path(pre, idx, pos));
                lemma_chars_lt_transitive(idx_path(pre, idx, a), idx_path(pre, idx, pos), idx_path(pre, idx, b - 1));
            } else {
                lemma_chars_lt_transitive(idx_path(pre, idx, a), p, idx_path(pre, idx, b - 1));
            }
        } else if a > pos {
            assert(idx_path(pre, idx, a - 1) == inserted_path(es, k, idx, pos, a));
            assert(idx_path(pre, idx, b - 1) == inserted_path(es, k, idx, pos, b));
        } else if b < pos {
            assert(idx_path(pre, idx, a) == inserted_path(es, k, idx, pos, a));
            assert(idx_path(pre, idx, b) == inserted_path(es, k, idx, pos, b));
        }
    }
}

proof fn lemma_insert_lookups(es: Seq<EntryView>, k: int, idx: Seq<usize>, pos: int)
    requires
        0 <= k < es.len(),
        k < usize::MAX,
        idx_in_bounds(es.take(k), idx),
        idx_lookups(es.take(k), idx),
        0 <= pos <= idx.len(),
        forall|a: int| 0 <= a < idx.len() ==> #[trigger] idx_path(es.take(k), idx, a) != es[k].path,
    ensures
        idx_lookups(es.take(k + 1), idx.insert(pos, k as usize)),
{
    let pre = es.take(k);
    let post = es.take(k + 1);
    let nidx = idx.insert(pos, k as usize);
    lemma_take_agrees(es, k);
    lemma_insert_shape(es, k, idx, pos);
    assert forall|a: int| 0 <= a < nidx.len() implies lookup(post, #[trigger] idx_path(post, nidx, a)) == Some(
        post[nidx[a] as int],
    ) by {
        if a < pos {
            assert(nidx[a] == idx[a]);
            assert(idx_path(pre, idx, a) != es[k].path);
        } else if a > pos {
            assert(nidx[a] == idx[a - 1]);
            assert(idx_path(pre, idx, a - 1) != es[k].path);
        }
    }
}

proof fn lemma_insert_covers(es: Seq<EntryView>, k: int, idx: Seq<usize>, pos: int)
    requires
        0 <= k < es.len(),
        k < usize::MAX,
        idx_in_bounds(es.take(k), idx),
        idx_covers(es.take(k), idx),
        0 <= pos <= idx.len(),
    ensures
        idx_covers(es.take(k + 1), idx.insert(pos, k as usize)),
{
    let pre = es.take(k);
    let post = es.take(k + 1);
    let nidx = idx.insert(pos, k as usize);
    lemma_take_agrees(es, k);
    lemma_insert_shape(es, k, idx, pos);
    assert forall|m: int| #![trigger post[m]] 0 <= m < post.len() implies exists|a: int|
        0 <= a < nidx.len() && #[trigger] idx_path(post, nidx, a) == post[m].path by {
        if m < k {
            assert(pre[m] == post[m]);
            let a = choose|a: int| 0 <= a < idx.len() && #[trigger] idx_path(pre, idx, a) == pre[m].path;
            if a < pos {
                assert(idx_path(post, nidx, a) == post[m].path);
            } else {
                assert(idx_path(post, nidx, a + 1) == post[m].path);
            }
        } else {
            assert(idx_path(post, nidx, pos) == post[m].path);
        }
    }
}

/// Recording entry `k` under a new path, at the place `pos` that keeps the
/// index in order.
proof fn lemma_index_insert(es: Seq<EntryView>, k: int, idx: Seq<usize>, pos: int)
    requires
        0 <= k < es.len(),
        k < usize::MAX,
        is_index(es.take(k), idx),
        0 <= pos <= idx.len(),
        forall|a: int| 0 <= a < pos ==> chars_lt(#[trigger] idx_path(es.take(k), idx, a), es[k].path),
        pos < idx.len() ==> chars_lt(es[k].path, idx_path(es.take(k), idx, pos)),
    ensures
        is_index(es.take(k + 1), idx.insert(pos, k as usize)),
{
    let post = es.take(k + 1);
    let nidx = idx.insert(pos, k as usize);
    lemma_insert_shape(es, k, idx, pos);
    lemma_insert_sorted(es, k, idx, pos);
    assert forall|a: int, b: int| 0 <= a < b < nidx.len() implies chars_lt(
        #[trigger] idx_path(post, nidx, a),
        #[trigger] idx_path(post, nidx, b),
    ) by {
        assert(idx_path(post, nidx, a) == inserted_path(es, k, idx, pos, a));
        assert(idx_path(post, nidx, b) == inserted_path(es, k, idx, pos, b));
    }
    lemma_insert_lookups(es, k, idx, pos);
    lemma_insert_covers(es, k, idx, pos);
}

/// The position in the old index of position `a` of the new one, when one
/// position `pos` was replaced (`shifted` false) or inserted (`shifted` true).
pub open spec fn source_pos(a: int, pos: int, shifted: bool) -> int {
    if shifted && a > pos {
        a - 1
    } else {
        a
    }
}

/// Recording entry `k` at position `pos` of the index keeps every position
/// the last one for its path, when the other positions hold other paths.
proof fn lemma_last_step(es: Seq<EntryView>, k: int, idx: Seq<usize>, nidx: Seq<usize>, pos: int, shifted: bool)
    requires
        0 <= k < es.len(),
        k < usize::MAX,
        idx_in_bounds(es.take(k), idx),
        idx_last(es.take(k), idx),
        0 <= pos < nidx.len(),
        nidx[pos] == k,
        forall|a: int|
            0 <= a < nidx.len() && a != pos ==> 0 <= #[trigger] source_pos(a, pos, shifted) < idx.len() && nidx[a]
                == idx[source_pos(a, pos, shifted)],
        forall|a: int| 0 <= a < nidx.len() && a != pos ==> #[trigger] idx_path(es.take(k + 1), nidx, a) != es[k].path,
    ensures
        idx_last(es.take(k + 1), nidx),
{
    let pre = es.take(k);
    let post = es.take(k + 1);
    lemma_take_agrees(es, k);
    assert forall|a: int, m: int| 0 <= a < nidx.len() && nidx[a] < m < post.len() implies #[trigger] post[m].path
        != #[trigger] idx_path(post, nidx, a) by {
        if a != pos {
            let b = source_pos(a, pos, shifted);
            assert(idx[b] < pre.len());
            assert(idx_path(post, nidx, a) == idx_path(pre, idx, b));
            if m < k {
                assert(pre[m] == post[m]);
                assert(pre[m].path != idx_path(pre, idx, b));
            }
        }
    }
}

/// Once entry `k` is listed at `pos`, the other positions hold other paths.
proof fn lemma_others_differ(es: Seq<EntryView>, k: int, nidx: Seq<usize>, pos: int)
    requires
        0 <= k < es.len(),
        idx_sorted(es.take(k + 1), nidx),
        0 <= pos < nidx.len(),
        idx_path(es.take(k + 1), nidx, pos) == es[k].path,
    ensures
        forall|a: int| 0 <= a < nidx.len() && a != pos ==> #[trigger] idx_path(es.take(k + 1), nidx, a) != es[k].path,
{
    let post = es.take(k + 1);
    assert forall|a: int| 0 <= a < nidx.len() && a != pos implies #[trigger] idx_path(post, nidx, a) != es[k].path by {
        lemma_chars_lt_irreflexive(es[k].path);
        if a < pos {
            assert(chars_lt(idx_path(post, nidx, a), idx_path(post, nidx, pos)));
        } else {
            assert(chars_lt(idx_path(post, nidx, pos), idx_path(post, nidx, a)));
        }
    }
}

proof fn lemma_last_replace(es: Seq<EntryView>, k: int, idx: Seq<usize>, pos: int)
    requires
        0 <= k < es.len(),
        k < usize::MAX,
        is_index(es.take(k), idx),
        idx_last(es.take(k), idx),
        is_index(es.take(k + 1), idx.update(pos, k as usize)),
        0 <= pos < idx.len(),
    ensures
        idx_last(es.take(k + 1), idx.update(pos, k as usize)),
{
    let nidx = idx.update(pos, k as usize);
    lemma_take_agrees(es, k);
    assert(idx_path(es.take(k + 1), nidx, pos) == es[k].path);
    lemma_others_differ(es, k, nidx, pos);
    assert forall|a: int| 0 <= a < nidx.len() && a != pos implies 0 <= #[trigger] source_pos(a, pos, false)
        < idx.len() && nidx[a] == idx[source_pos(a, pos, false)] by {}
    lemma_last_step(es, k, idx, nidx, pos, false);
}

proof fn lemma_last_insert(es: Seq<EntryView>, k: int, idx: Seq<usize>, pos: int)
    requires
        0 <= k < es.len(),
        k < usize::MAX,
        is_index(es.take(k), idx),
        idx_last(es.take(k), idx),
        is_index(es.take(k + 1), idx.insert(pos, k as usize)),
        0 <= pos <= idx.len(),
    ensures
        idx_last(es.take(k + 1), idx.insert(pos, k as usize)),
{
    let nidx = idx.insert(pos, k as usize);
    lemma_take_agrees(es, k);
    assert(nidx[pos] == k);
    assert(idx_path(es.take(k + 1), nidx, pos) == es[k].path);
    lemma_others_differ(es, k, nidx, pos);
    assert forall|a: int| 0 <= a < nidx.len() && a != pos implies 0 <= #[trigger] source_pos(a, pos, true)
        < idx.len() && nidx[a] == idx[source_pos(a, pos, true)] by {}
    lemma_last_step(es, k, idx, nidx, pos, true);
}

/// The positions, in `snap.entries`, of the entry that counts for each path:
/// the last one recorded under it. The positions are listed in increasing
/// order of their paths, each path once.
pub fn index_snapshot(snap: &Snapshot) -> (idx: Vec<usize>)
    ensures
        is_index(snap@, idx@),
        idx_last(snap@, idx@),
{
    let ghost es = snap@;
    let n = snap.entries.len();
    let mut idx: Vec<usize> = Vec::new();
    let mut k: usize = 0;
    while k < n
        invariant
            n == es.len(),
            es == snap@,
            k <= n,
            is_index(es.take(k as int), idx@),
            idx_last(es.take(k as int), idx@),
        decreases n - k,
    {
        let ghost pre = es.take(k as int);
        let ghost p = es[k as int].path;
        proof {
            lemma_take_agrees(es, k as int);
            assert forall|a: int| 0 <= a < idx@.len() implies #[trigger] idx_path(pre, idx@, a) == idx_path(
                es,
                idx@,
                a,
            ) by {
                assert(idx@[a] < pre.len());
            }
        }
        let (pos, same) = find_slot(snap, &idx, k);
        if same {
            proof {
                lemma_index_replace(es, k as int, idx@, pos as int);
                lemma_last_replace(es, k as int, idx@, pos as int);
            }
            idx.set(pos, k);
        } else {
            proof {
                if pos < idx@.len() {
                    lemma_chars_lt_total(idx_path(pre, idx@, pos as int), p);
                }
                lemma_index_insert(es, k as int, idx@, pos as int);
                lemma_last_insert(es, k as int, idx@, pos as int);
            }
            idx.insert(pos, k);
        }
        k = k + 1;
    }
    assert(es.take(n as int) =~= es);
    idx
}

/// Where the path of entry `k` belongs among the listed ones: the first
/// position whose path does not come before it, and whether that position
/// holds the very same path.
fn find_slot(snap: &Snapshot, idx: &Vec<usize>, k: usize) -> (r: (usize, bool))
    requires
        k < snap@.len(),
        forall|a: int| 0 <= a < idx@.len() ==> #[trigger] idx@[a] < k,
    ensures
        r.0 <= idx@.len(),
        forall|a: int| 0 <= a < r.0 ==> chars_lt(#[trigger] idx_path(snap@, idx@, a), snap@[k as int].path),
        r.0 < idx@.len() ==> !chars_lt(idx_path(snap@, idx@, r.0 as int), snap@[k as int].path),
        r.1 <==> (r.0 < idx@.len() && idx_path(snap@, idx@, r.0 as int) == snap@[k as int].path),
{
    let ghost es = snap@;
    let ghost p = es[k as int].path;
    assert(snap.entries@[k as int]@ == es[k as int]);
    let key = &snap.entries[k].path;
    let mut pos: usize = 0;
    while pos < idx.len() && str_lt(snap.entries[idx[pos]].path.as_str(), key.as_str())
        invariant
            pos <= idx.len(),
            es == snap@,
            k < es.len(),
            p == es[k as int].path,
            key@ == p,
            forall|a: int| 0 <= a < idx@.len() ==> #[trigger] idx@[a] < k,
            forall|a: int| 0 <= a < pos ==> chars_lt(#[trigger] idx_path(es, idx@, a), p),
        decreases idx.len() - pos,
    {
        assert(idx@[pos as int] < k);
        assert(snap.entries@[idx@[pos as int] as int]@ == es[idx@[pos as int] as int]);
        pos = pos + 1;
    }
    if pos < idx.len() {
        assert(idx@[pos as int] < k);
        assert(snap.entries@[idx@[pos as int] as int]@ == es[idx@[pos as int] as int]);
        let same = <String as PartialEq>::eq(&snap.entries[idx[pos]].path, key);
        (pos, same)
    } else {
        (pos, false)
    }
}

/// One step of a patch. `op` names the operation; the other fields carry
/// what the operation needs: the digest of a new file's contents, the mode
/// for `chmod`, the modification time for `utimes`, the target of a link.
#[derive(Debug, Clone)]
pub struct PatchOp {
    pub op: String,
    pub path: String,
    pub hash: Option<String>,
    pub mode: Option<u32>,
    pub mtime: Option<u64>,
    pub target: Option<String>,
}

/// A patch step, with its text as character sequences.
pub struct OpView {
    pub op: Seq<char>,
    pub path: Seq<char>,
    pub hash: Option<Seq<char>>,
    pub mode: Option<u32>,
    pub mtime: Option<u64>,
    pub target: Option<Seq<char>>,
}

impl View for PatchOp {
    type V = OpView;

    open spec fn view(&self) -> OpView {
        OpView {
            op: self.op@,
            path: self.path@,
            hash: opt_chars(self.hash),
            mode: self.mode,
            mtime: self.mtime,
            target: opt_chars(self.target),
        }
    }
}

/// The view of a patch step carries every field: the texts of its name,
/// path, digest and target, its mode and its time.
pub proof fn law_op_view(o: PatchOp)
    ensures
        o@.op == o.op@,
        o@.path == o.path@,
        o.hash is None <==> o@.hash is None,
        o.hash matches Some(h) ==> o@.hash == Some(h@),
        o@.mode == o.mode,
        o@.mtime == o.mtime,
        o.target is None <==> o@.target is None,
        o.target matches Some(t) ==> o@.target == Some(t@),
{
}

/// The views of a list of patch steps.
pub open spec fn ops_view(ops: Seq<PatchOp>) -> Seq<OpView> {
    ops.map_values(|o: PatchOp| o@)
}

/// A step that carries nothing but its name and path.
pub open spec fn bare_op(op: Seq<char>, p: Seq<char>) -> OpView {
    OpView { op, path: p, hash: None, mode: None, mtime: None, target: None }
}

/// Removing the entry of kind `ft` at `p`.
pub open spec fn delete_op(ft: FileType, p: Seq<char>) -> OpView {
    if ft == FileType::Directory {
        bare_op("delete_dir"@, p)
    } else {
        bare_op("delete_file"@, p)
    }
}

/// Creating at `p` the entry that `d` records.
pub open spec fn create_op(d: EntryView, p: Seq<char>) -> OpView {
    match d.file_type {
        FileType::File => OpView { hash: d.hash, ..bare_op("create_file"@, p) },
        FileType::Directory => bare_op("create_dir"@, p),
        FileType::Symlink => OpView { target: d.target, ..bare_op("symlink"@, p) },
    }
}

/// For two entries of one kind: a new digest for a file, a new target for a
/// link, nothing for a directory.
pub open spec fn content_ops(s: EntryView, d: EntryView, p: Seq<char>) -> Seq<OpView> {
    match s.file_type {
        FileType::File => if s.hash != d.hash {
            seq![OpView { hash: d.hash, ..bare_op("modify_file"@, p) }]
        } else {
            Seq::empty()
        },
        FileType::Symlink => if s.target != d.target {
            seq![OpView { target: d.target, ..bare_op("symlink"@, p) }]
        } else {
            Seq::empty()
        },
        FileType::Directory => Seq::empty(),
    }
}

/// A `chmod` step when the modes differ and the target records one.
pub open spec fn mode_ops(s: EntryView, d: EntryView, p: Seq<char>) -> Seq<OpView> {
    if s.mode != d.mode && d.mode is Some {
        seq![OpView { mode: d.mode, ..bare_op("chmod"@, p) }]
    } else {
        Seq::empty()
    }
}

/// A `utimes` step when the times differ and the target records one.
pub open spec fn mtime_ops(s: EntryView, d: EntryView, p: Seq<char>) -> Seq<OpView> {
    if s.mtime != d.mtime && d.mtime is Some {
        seq![OpView { mtime: d.mtime, ..bare_op("utimes"@, p) }]
    } else {
        Seq::empty()
    }
}

/// The steps for one path, given what the source and the target record
/// under it, in the order in which they are to be applied: removal before
/// creation when the kind changed, else by step name (`chmod`, then
/// `modify_file` or `symlink`, then `utimes`).
pub open spec fn path_ops(p: Seq<char>, s: Option<EntryView>, d: Option<EntryView>) -> Seq<OpView> {
    match (s, d) {
        (Some(s), None) => seq![delete_op(s.file_type, p)],
        (None, Some(d)) => seq![create_op(d, p)],
        (Some(s), Some(d)) => if s.file_type != d.file_type {
            seq![delete_op(s.file_type, p), create_op(d, p)]
        } else {
            mode_ops(s, d, p) + content_ops(s, d, p) + mtime_ops(s, d, p)
        },
        (None, None) => Seq::empty(),
    }
}

/// The steps for the paths `keys`, one path after the other.
pub open spec fn ops_for_paths(src: Seq<EntryView>, dst: Seq<EntryView>, keys: Seq<Seq<char>>) -> Seq<OpView>
    decreases keys.len(),
{
    if keys.len() == 0 {
        Seq::empty()
    } else {
        ops_for_paths(src, dst, keys.drop_last()) + path_ops(
            keys.last(),
            lookup(src, keys.last()),
            lookup(dst, keys.last()),
        )
    }
}

/// Strictly increasing in `chars_lt`.
pub open spec fn strictly_sorted(keys: Seq<Seq<char>>) -> bool {
    forall|i: int, j: int| 0 <= i < j < keys.len() ==> chars_lt(#[trigger] keys[i], #[trigger] keys[j])
}

/// A path that either snapshot records.
pub open spec fn in_either(src: Seq<EntryView>, dst: Seq<EntryView>, p: Seq<char>) -> bool {
    lookup(src, p) is Some || lookup(dst, p) is Some
}

/// `keys` lists every path that either snapshot records, in increasing order.
pub open spec fn enumerates(keys: Seq<Seq<char>>, src: Seq<EntryView>, dst: Seq<EntryView>) -> bool {
    &&& strictly_sorted(keys)
    &&& forall|p: Seq<char>| #[trigger] keys.contains(p) <==> in_either(src, dst, p)
}

/// The paths of two snapshots, in increasing order.
pub open spec fn delta_paths(src: Seq<EntryView>, dst: Seq<EntryView>) -> Seq<Seq<char>> {
    choose|keys: Seq<Seq<char>>| enumerates(keys, src, dst)
}

/// The patch from `src` to `dst`: the steps of every path either records, the
/// paths in increasing order.
pub open spec fn delta(src: Seq<EntryView>, dst: Seq<EntryView>) -> Seq<OpView> {
    ops_for_paths(src, dst, delta_paths(src, dst))
}

/// Two increasing lists of the same paths are the same list.
pub proof fn lemma_sorted_unique(a: Seq<Seq<char>>, b: Seq<Seq<char>>)
    requires
        strictly_sorted(a),
        strictly_sorted(b),
        forall|p: Seq<char>| a.contains(p) <==> b.contains(p),
    ensures
        a == b,
    decreases a.len(),
{
    if a.len() == 0 {
        if b.len() > 0 {
            assert(b.contains(b[0]));
        }
        assert(a =~= b);
    } else {
        assert(a.contains(a[0]));
        let jb = choose|j: int| 0 <= j < b.len() && b[j] == a[0];
        assert(b.contains(b[0]));
        let ja = choose|j: int| 0 <= j < a.len() && a[j] == b[0];
        if jb > 0 {
            if ja > 0 {
                assert(chars_lt(b[0], b[jb]));
                assert(chars_lt(a[0], a[ja]));
                lemma_chars_lt_asymmetric(b[0], a[0]);
            }
        }
        assert(a[0] == b[0]) by {
            if jb > 0 && ja == 0 {
                assert(chars_lt(b[0], b[jb]));
                lemma_chars_lt_irreflexive(a[0]);
            }
        }
        let a1 = a.drop_first();
        let b1 = b.drop_first();
        assert forall|p: Seq<char>| a1.contains(p) <==> b1.contains(p) by {
            if a1.contains(p) {
                let i = choose|i: int| 0 <= i < a1.len() && a1[i] == p;
                assert(a[i + 1] == p);
                assert(chars_lt(a[0], a[i + 1]));
                lemma_chars_lt_irreflexive(p);
                assert(b.contains(p));
                let j = choose|j: int| 0 <= j < b.len() && b[j] == p;
                assert(j != 0);
                assert(b1[j - 1] == p);
            }
            if b1.contains(p) {
                let i = choose|i: int| 0 <= i < b1.len() && b1[i] == p;
                assert(b[i + 1] == p);
                assert(chars_lt(b[0], b[i + 1]));
                lemma_chars_lt_irreflexive(p);
                assert(a.contains(p));
                let j = choose|j: int| 0 <= j < a.len() && a[j] == p;
                assert(j != 0);
                assert(a1[j - 1] == p);
            }
        }
        assert forall|i: int, j: int| 0 <= i < j < a1.len() implies chars_lt(#[trigger] a1[i], #[trigger] a1[j]) by {
            assert(a1[i] == a[i + 1] && a1[j] == a[j + 1]);
        }
        assert forall|i: int, j: int| 0 <= i < j < b1.len() implies chars_lt(#[trigger] b1[i], #[trigger] b1[j]) by {
            assert(b1[i] == b[i + 1] && b1[j] == b[j + 1]);
        }
        lemma_sorted_unique(a1, b1);
        assert(a =~= seq![a[0]] + a1);
        assert(b =~= seq![b[0]] + b1);
    }
}

/// Some position below `n` of the index holds path `p`.
pub open spec fn seen(es: Seq<EntryView>, idx: Seq<usize>, n: int, p: Seq<char>) -> bool {
    exists|a: int| 0 <= a < n && #[trigger] idx_path(es, idx, a) == p
}

pub proof fn lemma_index_membership(es: Seq<EntryView>, idx: Seq<usize>, p: Seq<char>)
    requires
        is_index(es, idx),
    ensures
        lookup(es, p) is Some <==> seen(es, idx, idx.len() as int, p),
{
    if lookup(es, p) is Some {
        lemma_lookup_some(es, p);
        let k = choose|k: int| 0 <= k < es.len() && es[k].path == p && lookup(es, p) == Some(es[k]);
        assert(es[k].path == p);
    }
    if seen(es, idx, idx.len() as int, p) {
        let a = choose|a: int| 0 <= a < idx.len() && #[trigger] idx_path(es, idx, a) == p;
        assert(lookup(es, idx_path(es, idx, a)) == Some(es[idx[a] as int]));
    }
}

/// What the merge of two indexes has done after taking `i` paths of the
/// source and `j` of the target: `keys` lists those paths in increasing order,
/// each once, and all of them come before the paths still to be taken.
pub open spec fn merged(
    src: Seq<EntryView>,
    dst: Seq<EntryView>,
    si: Seq<usize>,
    di: Seq<usize>,
    i: int,
    j: int,
    keys: Seq<Seq<char>>,
) -> bool {
    &&& is_index(src, si)
    &&& is_index(dst, di)
    &&& 0 <= i <= si.len()
    &&& 0 <= j <= di.len()
    &&& strictly_sorted(keys)
    &&& forall|p: Seq<char>| #[trigger] keys.contains(p) <==> (seen(src, si, i, p) || seen(dst, di, j, p))
    &&& forall|t: int| 0 <= t < keys.len() ==> (i < si.len() ==> chars_lt(#[trigger] keys[t], idx_path(src, si, i)))
    &&& forall|t: int| 0 <= t < keys.len() ==> (j < di.len() ==> chars_lt(#[trigger] keys[t], idx_path(dst, di, j)))
}

/// A path taken from the merge is absent from an index if it comes before
/// the next path still to be taken from it and after all taken ones.
proof fn lemma_absent(
    es: Seq<EntryView>,
    idx: Seq<usize>,
    n: int,
    p: Seq<char>,
    keys: Seq<Seq<char>>,
)
    requires
        is_index(es, idx),
        0 <= n <= idx.len(),
        n < idx.len() ==> chars_lt(p, idx_path(es, idx, n)),
        forall|q: Seq<char>| seen(es, idx, n, q) ==> #[trigger] keys.contains(q),
        forall|t: int| 0 <= t < keys.len() ==> chars_lt(#[trigger] keys[t], p),
    ensures
        lookup(es, p) is None,
{
    lemma_index_membership(es, idx, p);
    if seen(es, idx, idx.len() as int, p) {
        let b = choose|b: int| 0 <= b < idx.len() && #[trigger] idx_path(es, idx, b) == p;
        lemma_chars_lt_irreflexive(p);
        if b < n {
            assert(seen(es, idx, n, p));
            assert(keys.contains(p));
            let t = choose|t: int| 0 <= t < keys.len() && keys[t] == p;
            assert(chars_lt(keys[t], p));
        } else if b > n {
            assert(chars_lt(idx_path(es, idx, n), idx_path(es, idx, b)));
            lemma_chars_lt_asymmetric(p, idx_path(es, idx, n));
        }
    }
}

/// Taking `p` next keeps the merged paths in increasing order.
proof fn lemma_push_sorted(keys: Seq<Seq<char>>, p: Seq<char>)
    requires
        strictly_sorted(keys),
        forall|t: int| 0 <= t < keys.len() ==> chars_lt(#[trigger] keys[t], p),
    ensures
        strictly_sorted(keys.push(p)),
{
    let nk = keys.push(p);
    assert forall|a: int, b: int| 0 <= a < b < nk.len() implies chars_lt(#[trigger] nk[a], #[trigger] nk[b]) by {
        if b == keys.len() {
            assert(nk[a] == keys[a]);
        } else {
            assert(nk[a] == keys[a] && nk[b] == keys[b]);
        }
    }
}

/// The paths seen below `n + 1` are those seen below `n` and the one at `n`.
proof fn lemma_seen_next(es: Seq<EntryView>, idx: Seq<usize>, n: int, q: Seq<char>)
    requires
        0 <= n,
    ensures
        seen(es, idx, n + 1, q) <==> (seen(es, idx, n, q) || idx_path(es, idx, n) == q),
{
    if seen(es, idx, n + 1, q) {
        let a = choose|a: int| 0 <= a < n + 1 && #[trigger] idx_path(es, idx, a) == q;
        if a < n {
            assert(seen(es, idx, n, q));
        }
    }
    if seen(es, idx, n, q) {
        let a = choose|a: int| 0 <= a < n && #[trigger] idx_path(es, idx, a) == q;
        assert(seen(es, idx, n + 1, q));
    }
    if idx_path(es, idx, n) == q {
        assert(seen(es, idx, n + 1, q));
    }
}

proof fn lemma_push_contains(
    src: Seq<EntryView>,
    dst: Seq<EntryView>,
    si: Seq<usize>,
    di: Seq<usize>,
    i: int,
    j: int,
    keys: Seq<Seq<char>>,
    take_src: bool,
    take_dst: bool,
    p: Seq<char>,
)
    requires
        0 <= i,
        0 <= j,
        forall|q: Seq<char>| #[trigger] keys.contains(q) <==> (seen(src, si, i, q) || seen(dst, di, j, q)),
        take_src || take_dst,
        take_src ==> idx_path(src, si, i) == p,
        take_dst ==> idx_path(dst, di, j) == p,
    ensures
        forall|q: Seq<char>| #[trigger] keys.push(p).contains(q) <==> (
            seen(src, si, if take_src { i + 1 } else { i }, q)
            || seen(dst, di, if take_dst { j + 1 } else { j }, q)),
{
    let nk = keys.push(p);
    assert forall|q: Seq<char>| #[trigger] nk.contains(q) <==> (
        seen(src, si, if take_src { i + 1 } else { i }, q)
        || seen(dst, di, if take_dst { j + 1 } else { j }, q)) by {
        lemma_seen_next(src, si, i, q);
        lemma_seen_next(dst, di, j, q);
        if nk.contains(q) {
            let t = choose|t: int| 0 <= t < nk.len() && nk[t] == q;
            if t < keys.len() {
                assert(keys.contains(q));
            }
        }
        if keys.contains(q) {
            let t = choose|t: int| 0 <= t < keys.len() && keys[t] == q;
            assert(nk[t] == q);
        }
        assert(nk[keys.len() as int] == p);
    }
}

proof fn lemma_push_head(
    es: Seq<EntryView>,
    idx: Seq<usize>,
    n: int,
    taken: bool,
    keys: Seq<Seq<char>>,
    p: Seq<char>,
)
    requires
        idx_sorted(es, idx),
        0 <= n <= idx.len(),
        taken ==> n < idx.len() && idx_path(es, idx, n) == p,
        !taken ==> (n < idx.len() ==> chars_lt(p, idx_path(es, idx, n))),
        forall|t: int| 0 <= t < keys.len() ==> chars_lt(#[trigger] keys[t], p),
    ensures
        forall|t: int|
            0 <= t < keys.len() + 1 ==> ((if taken { n + 1 } else { n }) < idx.len() ==> chars_lt(
                #[trigger] keys.push(p)[t],
                idx_path(es, idx, if taken { n + 1 } else { n }),
            )),
{
    let n2 = if taken { n + 1 } else { n };
    let nk = keys.push(p);
    if n2 < idx.len() {
        assert forall|t: int| 0 <= t < nk.len() implies chars_lt(#[trigger] nk[t], idx_path(es, idx, n2)) by {
            if taken {
                assert(chars_lt(idx_path(es, idx, n), idx_path(es, idx, n + 1)));
            }
            if t < keys.len() {
                assert(nk[t] == keys[t]);
                lemma_chars_lt_transitive(keys[t], p, idx_path(es, idx, n2));
            } else {
                assert(nk[t] == p);
            }
        }
    }
}

/// One merge step that takes path `p`, the next one of the source, the next
/// one of the target, or both.
proof fn lemma_merge_step(
    src: Seq<EntryView>,
    dst: Seq<EntryView>,
    si: Seq<usize>,
    di: Seq<usize>,
    i: int,
    j: int,
    keys: Seq<Seq<char>>,
    take_src: bool,
    take_dst: bool,
    p: Seq<char>,
)
    requires
        merged(src, dst, si, di, i, j, keys),
        take_src || take_dst,
        take_src ==> i < si.len() && idx_path(src, si, i) == p,
        take_dst ==> j < di.len() && idx_path(dst, di, j) == p,
        !take_src ==> (i < si.len() ==> chars_lt(p, idx_path(src, si, i))),
        !take_dst ==> (j < di.len() ==> chars_lt(p, idx_path(dst, di, j))),
    ensures
        merged(
            src,
            dst,
            si,
            di,
            if take_src { i + 1 } else { i },
            if take_dst { j + 1 } else { j },
            keys.push(p),
        ),
        lookup(src, p) == if take_src { Some(src[si[i] as int]) } else { None::<EntryView> },
        lookup(dst, p) == if take_dst { Some(dst[di[j] as int]) } else { None::<EntryView> },
{
    assert forall|t: int| 0 <= t < keys.len() implies chars_lt(#[trigger] keys[t], p) by {
        if take_src {
            assert(chars_lt(keys[t], idx_path(src, si, i)));
        } else {
            assert(chars_lt(keys[t], idx_path(dst, di, j)));
        }
    }
    if !take_src {
        assert forall|q: Seq<char>| seen(src, si, i, q) implies #[trigger] keys.contains(q) by {}
        lemma_absent(src, si, i, p, keys);
    }
    if !take_dst {
        assert forall|q: Seq<char>| seen(dst, di, j, q) implies #[trigger] keys.contains(q) by {}
        lemma_absent(dst, di, j, p, keys);
    }
    lemma_push_sorted(keys, p);
    lemma_push_contains(src, dst, si, di, i, j, keys, take_src, take_dst, p);
    lemma_push_head(src, si, i, take_src, keys, p);
    lemma_push_head(dst, di, j, take_dst, keys, p);
}

/// When both indexes are used up, the merged paths are all the paths.
proof fn lemma_merge_done(
    src: Seq<EntryView>,
    dst: Seq<EntryView>,
    si: Seq<usize>,
    di: Seq<usize>,
    keys: Seq<Seq<char>>,
)
    requires
        merged(src, dst, si, di, si.len() as int, di.len() as int, keys),
    ensures
        enumerates(keys, src, dst),
        delta_paths(src, dst) == keys,
{
    assert forall|p: Seq<char>| #[trigger] keys.contains(p) <==> in_either(src, dst, p) by {
        lemma_index_membership(src, si, p);
        lemma_index_membership(dst, di, p);
    }
    assert(enumerates(keys, src, dst));
    let other = delta_paths(src, dst);
    assert(enumerates(other, src, dst));
    lemma_sorted_unique(keys, other);
}

/// The view of an optional borrowed entry.
pub open spec fn opt_entry(o: Option<&SnapshotEntry>) -> Option<EntryView> {
    match o {
        Some(e) => Some(e@),
        None => None,
    }
}

fn bare(op: &str, path: &String) -> (r: PatchOp)
    ensures
        r@ == bare_op(op@, path@),
{
    PatchOp { op: String::from_str(op), path: path.clone(), hash: None, mode: None, mtime: None, target: None }
}

fn push_op(ops: &mut Vec<PatchOp>, o: PatchOp)
    ensures
        ops_view(final(ops)@) == ops_view(old(ops)@).push(o@),
{
    ops.push(o);
    assert(ops_view(ops@) =~= ops_view(old(ops)@).push(o@));
}

fn delete_step(ft: FileType, path: &String) -> (r: PatchOp)
    ensures
        r@ == delete_op(ft, path@),
{
    match ft {
        FileType::Directory => bare("delete_dir", path),
        _ => bare("delete_file", path),
    }
}

fn create_step(d: &SnapshotEntry, path: &String) -> (r: PatchOp)
    ensures
        r@ == create_op(d@, path@),
{
    match d.file_type {
        FileType::File => {
            let mut o = bare("create_file", path);
            o.hash = opt_string_clone(&d.hash);
            o
        },
        FileType::Directory => bare("create_dir", path),
        FileType::Symlink => {
            let mut o = bare("symlink", path);
            o.target = opt_string_clone(&d.target);
            o
        },
    }
}

fn opt_u32_eq(a: Option<u32>, b: Option<u32>) -> (r: bool)
    ensures
        r == (a == b),
{
    match (a, b) {
        (Some(x), Some(y)) => x == y,
        (None, None) => true,
        _ => false,
    }
}

fn opt_u64_eq(a: Option<u64>, b: Option<u64>) -> (r: bool)
    ensures
        r == (a == b),
{
    match (a, b) {
        (Some(x), Some(y)) => x == y,
        (None, None) => true,
        _ => false,
    }
}

/// Appends the steps for `path`, where the source records `s` and the
/// target records `d`.
fn push_path_ops(ops: &mut Vec<PatchOp>, path: &String, s: Option<&SnapshotEntry>, d: Option<&SnapshotEntry>)
    ensures
        ops_view(final(ops)@) == ops_view(old(ops)@) + path_ops(path@, opt_entry(s), opt_entry(d)),
{
    let ghost start = ops_view(ops@);
    match (s, d) {
        (Some(s), None) => {
            push_op(ops, delete_step(s.file_type, path));
            assert(ops_view(ops@) =~= start + path_ops(path@, opt_entry(Some(s)), opt_entry(d)));
        },
        (None, Some(d)) => {
            push_op(ops, create_step(d, path));
            assert(ops_view(ops@) =~= start + path_ops(path@, opt_entry(s), opt_entry(Some(d))));
        },
        (Some(s), Some(d)) => {
            if s.file_type != d.file_type {
                push_op(ops, delete_step(s.file_type, path));
                push_op(ops, create_step(d, path));
                assert(ops_view(ops@) =~= start + path_ops(path@, opt_entry(Some(s)), opt_entry(Some(d))));
            } else {
                let ghost sv = s@;
                let ghost dv = d@;
                if !opt_u32_eq(s.mode, d.mode) {
                    if let Some(mode) = d.mode {
                        let mut o = bare("chmod", path);
                        o.mode = Some(mode);
                        push_op(ops, o);
                    }
                }
                assert(ops_view(ops@) =~= start + mode_ops(sv, dv, path@));
                let ghost mid = ops_view(ops@);
                match s.file_type {
                    FileType::File => {
                        if !opt_string_eq(&s.hash, &d.hash) {
                            let mut o = bare("modify_file", path);
                            o.hash = opt_string_clone(&d.hash);
                            push_op(ops, o);
                        }
                    },
                    FileType::Symlink => {
                        if !opt_string_eq(&s.target, &d.target) {
                            let mut o = bare("symlink", path);
                            o.target = opt_string_clone(&d.target);
                            push_op(ops, o);
                        }
                    },
                    FileType::Directory => {},
                }
                assert(ops_view(ops@) =~= mid + content_ops(sv, dv, path@));
                let ghost mid2 = ops_view(ops@);
                if !opt_u64_eq(s.mtime, d.mtime) {
                    if let Some(mtime) = d.mtime {
                        let mut o = bare("utimes", path);
                        o.mtime = Some(mtime);
                        push_op(ops, o);
                    }
                }
                assert(ops_view(ops@) =~= mid2 + mtime_ops(sv, dv, path@));
                assert(ops_view(ops@) =~= start + path_ops(path@, opt_entry(Some(s)), opt_entry(Some(d))));
            }
        },
        (None, None) => {
            assert(ops_view(ops@) =~= start + path_ops(path@, opt_entry(s), opt_entry(d)));
        },
    }
}

proof fn lemma_entry_view(snap: &Snapshot, k: int)
    requires
        0 <= k < snap.entries@.len(),
    ensures
        snap.entries@[k]@ == snap@[k],
{
}

/// The patch that turns the tree recorded in `src` into the one recorded in
/// `dst`. For every path that either records (the last entry recorded under
/// a path counts), in increasing path order:
/// - a path only `src` records is deleted (`delete_dir` or `delete_file`);
/// - a path only `dst` records is created (`create_file` with the digest,
///   `create_dir`, or `symlink` with the target);
/// - a path whose kind changed is deleted, then created;
/// - otherwise the steps come in the order of their names: a changed mode
///   that `dst` records gets `chmod`, then a file whose digest changed gets
///   `modify_file` or a link whose target changed gets `symlink`, then a
///   changed time that `dst` records gets `utimes`.
/// The steps are thus ordered by path, then by name, except that a path
/// whose kind changed is deleted before it is created again.
#[verifier::rlimit(30)]
pub fn compute_delta(src: Snapshot, dst: Snapshot) -> (ops: Vec<PatchOp>)
    ensures
        ops_view(ops@) == delta(src@, dst@),
{
    let si = index_snapshot(&src);
    let di = index_snapshot(&dst);
    let ghost sv = src@;
    let ghost dv = dst@;
    let mut ops: Vec<PatchOp> = Vec::new();
    let mut i: usize = 0;
    let mut j: usize = 0;
    let ghost mut keys: Seq<Seq<char>> = Seq::empty();
    assert(ops_view(ops@) =~= Seq::<OpView>::empty());
    while i < si.len() || j < di.len()
        invariant
            sv == src@,
            dv == dst@,
            merged(sv, dv, si@, di@, i as int, j as int, keys),
            ops_view(ops@) == ops_for_paths(sv, dv, keys),
        decreases si.len() + di.len() - i - j,
    {
        let ghost old_keys = keys;
        let take_src: bool;
        let take_dst: bool;
        proof {
            if i < si.len() {
                lemma_entry_view(&src, si@[i as int] as int);
            }
            if j < di.len() {
                lemma_entry_view(&dst, di@[j as int] as int);
            }
        }
        if j >= di.len() {
            take_src = true;
            take_dst = false;
        } else if i >= si.len() {
            take_src = false;
            take_dst = true;
        } else if str_lt(src.entries[si[i]].path.as_str(), dst.entries[di[j]].path.as_str()) {
            take_src = true;
            take_dst = false;
        } else if str_lt(dst.entries[di[j]].path.as_str(), src.entries[si[i]].path.as_str()) {
            take_src = false;
            take_dst = true;
        } else {
            proof {
                lemma_chars_lt_total(idx_path(sv, si@, i as int), idx_path(dv, di@, j as int));
            }
            take_src = true;
            take_dst = true;
        }
        let path: &String = if take_src { &src.entries[si[i]].path } else { &dst.entries[di[j]].path };
        let ghost p = path@;
        proof {
            lemma_merge_step(sv, dv, si@, di@, i as int, j as int, keys, take_src, take_dst, p);
        }
        let s: Option<&SnapshotEntry> = if take_src { Some(&src.entries[si[i]]) } else { None };
        let d: Option<&SnapshotEntry> = if take_dst { Some(&dst.entries[di[j]]) } else { None };
        push_path_ops(&mut ops, path, s, d);
        proof {
            keys = keys.push(p);
            assert(keys.drop_last() =~= old_keys);
        }
        if take_src {
            i = i + 1;
        }
        if take_dst {
            j = j + 1;
        }
    }
    proof {
        lemma_merge_done(sv, dv, si@, di@, keys);
    }
    ops
}

} // verus!
