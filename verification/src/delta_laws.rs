use vstd::prelude::*;
use crate::delta::{create_op, delete_op, content_ops, delta, delta_paths, enumerates, in_either, lookup, mode_ops, mtime_ops, ops_for_paths, path_ops, strictly_sorted, OpView};
use crate::apply::known_op;
use crate::filetypes::FileType;
use crate::order::{chars_lt, lemma_chars_lt_irreflexive, lemma_chars_lt_total, lemma_chars_lt_transitive};
use crate::snapshot::EntryView;

verus! {

/// `keys` with `p` added at its place in increasing order.
pub open spec fn insert_sorted(keys: Seq<Seq<char>>, p: Seq<char>) -> Seq<Seq<char>>
    decreases keys.len(),
{
    if keys.len() == 0 {
        seq![p]
    } else if keys[0] == p {
        keys
    } else if chars_lt(p, keys[0]) {
        seq![p] + keys
    } else {
        seq![keys[0]] + insert_sorted(keys.drop_first(), p)
    }
}

proof fn lemma_insert_sorted(keys: Seq<Seq<char>>, p: Seq<char>)
    requires
        strictly_sorted(keys),
    ensures
        strictly_sorted(insert_sorted(keys, p)),
        forall|q: Seq<char>| #[trigger] insert_sorted(keys, p).contains(q) <==> (keys.contains(q) || q == p),
    decreases keys.len(),
{
    let r = insert_sorted(keys, p);
    if keys.len() == 0 {
        assert forall|q: Seq<char>| #[trigger] r.contains(q) <==> (keys.contains(q) || q == p) by {
            if r.contains(q) {
                assert(r[0] == q);
            }
            if q == p {
                assert(r[0] == q);
            }
        }
    } else if keys[0] == p {
        assert forall|q: Seq<char>| #[trigger] r.contains(q) <==> (keys.contains(q) || q == p) by {
            if q == p {
                assert(keys[0] == q);
            }
        }
    } else if chars_lt(p, keys[0]) {
        assert forall|i: int, j: int| 0 <= i < j < r.len() implies chars_lt(#[trigger] r[i], #[trigger] r[j]) by {
            if i == 0 {
                if j > 1 {
                    lemma_chars_lt_transitive(p, keys[0], keys[j - 1]);
                }
            } else {
                assert(r[i] == keys[i - 1] && r[j] == keys[j - 1]);
            }
        }
        assert forall|q: Seq<char>| #[trigger] r.contains(q) <==> (keys.contains(q) || q == p) by {
            if r.contains(q) {
                let i = choose|i: int| 0 <= i < r.len() && r[i] == q;
                if i > 0 {
                    assert(keys[i - 1] == q);
                }
            }
            if keys.contains(q) {
                let i = choose|i: int| 0 <= i < keys.len() && keys[i] == q;
                assert(r[i + 1] == q);
            }
            if q == p {
                assert(r[0] == q);
            }
        }
    } else {
        lemma_chars_lt_total(p, keys[0]);
        let rest = keys.drop_first();
        assert forall|i: int, j: int| 0 <= i < j < rest.len() implies chars_lt(#[trigger] rest[i], #[trigger] rest[j]) by {
            assert(rest[i] == keys[i + 1] && rest[j] == keys[j + 1]);
        }
        lemma_insert_sorted(rest, p);
        let t = insert_sorted(rest, p);
        assert(r == seq![keys[0]] + t);
        assert forall|q: Seq<char>| #[trigger] r.contains(q) <==> (keys.contains(q) || q == p) by {
            if r.contains(q) {
                let i = choose|i: int| 0 <= i < r.len() && r[i] == q;
                if i > 0 {
                    assert(t[i - 1] == q);
                    assert(t.contains(q));
                    if rest.contains(q) {
                        let k = choose|k: int| 0 <= k < rest.len() && rest[k] == q;
                        assert(keys[k + 1] == q);
                    }
                } else {
                    assert(keys[0] == q);
                }
            }
            if keys.contains(q) {
                let i = choose|i: int| 0 <= i < keys.len() && keys[i] == q;
                if i > 0 {
                    assert(rest[i - 1] == q);
                    assert(t.contains(q));
                    let k = choose|k: int| 0 <= k < t.len() && t[k] == q;
                    assert(r[k + 1] == q);
                } else {
                    assert(r[0] == q);
                }
            }
            if q == p {
                assert(t.contains(q));
                let k = choose|k: int| 0 <= k < t.len() && t[k] == q;
                assert(r[k + 1] == q);
            }
        }
        assert forall|i: int, j: int| 0 <= i < j < r.len() implies chars_lt(#[trigger] r[i], #[trigger] r[j]) by {
            if i == 0 {
                assert(r[0] == keys[0]);
                assert(t.contains(r[j])) by {
                    assert(t[j - 1] == r[j]);
                }
                if rest.contains(r[j]) {
                    let k = choose|k: int| 0 <= k < rest.len() && rest[k] == r[j];
                    assert(keys[k + 1] == r[j]);
                }
            } else {
                assert(r[i] == t[i - 1] && r[j] == t[j - 1]);
            }
        }
    }
}

/// The paths recorded in `es` added, one by one, to `keys`.
pub open spec fn insert_paths(keys: Seq<Seq<char>>, es: Seq<EntryView>) -> Seq<Seq<char>>
    decreases es.len(),
{
    if es.len() == 0 {
        keys
    } else {
        insert_sorted(insert_paths(keys, es.drop_last()), es.last().path)
    }
}

proof fn lemma_insert_paths(keys: Seq<Seq<char>>, es: Seq<EntryView>)
    requires
        strictly_sorted(keys),
    ensures
        strictly_sorted(insert_paths(keys, es)),
        forall|q: Seq<char>| #[trigger] insert_paths(keys, es).contains(q) <==> (keys.contains(q) || lookup(es, q) is Some),
    decreases es.len(),
{
    if es.len() > 0 {
        lemma_insert_paths(keys, es.drop_last());
        lemma_insert_sorted(insert_paths(keys, es.drop_last()), es.last().path);
    }
}

/// Every pair of snapshots has its paths in increasing order.
pub proof fn lemma_enumeration_exists(src: Seq<EntryView>, dst: Seq<EntryView>)
    ensures
        enumerates(delta_paths(src, dst), src, dst),
{
    let e: Seq<Seq<char>> = Seq::empty();
    lemma_insert_paths(e, src);
    let k1 = insert_paths(e, src);
    lemma_insert_paths(k1, dst);
    let k2 = insert_paths(k1, dst);
    assert forall|q: Seq<char>| #[trigger] k2.contains(q) <==> in_either(src, dst, q) by {
        assert(!e.contains(q));
    }
    assert(enumerates(k2, src, dst));
}

/// Every step of the steps for `keys` is about one of the `keys`.
proof fn lemma_ops_paths(src: Seq<EntryView>, dst: Seq<EntryView>, keys: Seq<Seq<char>>)
    ensures
        forall|i: int|
            0 <= i < ops_for_paths(src, dst, keys).len() ==> keys.contains(
                #[trigger] ops_for_paths(src, dst, keys)[i].path,
            ),
    decreases keys.len(),
{
    if keys.len() > 0 {
        let pre = ops_for_paths(src, dst, keys.drop_last());
        let p = keys.last();
        let last = path_ops(p, lookup(src, p), lookup(dst, p));
        lemma_ops_paths(src, dst, keys.drop_last());
        assert forall|i: int| 0 <= i < ops_for_paths(src, dst, keys).len() implies keys.contains(
            #[trigger] ops_for_paths(src, dst, keys)[i].path,
        ) by {
            let all = ops_for_paths(src, dst, keys);
            assert(all == pre + last);
            if i < pre.len() {
                assert(all[i] == pre[i]);
                assert(keys.drop_last().contains(pre[i].path));
                let k = choose|k: int| 0 <= k < keys.drop_last().len() && keys.drop_last()[k] == pre[i].path;
                assert(keys[k] == pre[i].path);
            } else {
                assert(all[i] == last[i - pre.len()]);
                assert(last[i - pre.len()].path == p);
                assert(keys[keys.len() - 1] == p);
            }
        }
    }
}

/// With the paths in increasing order, the steps for them come path by path.
proof fn lemma_ops_ordered(src: Seq<EntryView>, dst: Seq<EntryView>, keys: Seq<Seq<char>>)
    requires
        strictly_sorted(keys),
    ensures
        forall|i: int, j: int|
            0 <= i < j < ops_for_paths(src, dst, keys).len() ==> !chars_lt(
                #[trigger] ops_for_paths(src, dst, keys)[j].path,
                #[trigger] ops_for_paths(src, dst, keys)[i].path,
            ),
    decreases keys.len(),
{
    if keys.len() > 0 {
        let ks = keys.drop_last();
        let pre = ops_for_paths(src, dst, ks);
        let p = keys.last();
        let last = path_ops(p, lookup(src, p), lookup(dst, p));
        let all = ops_for_paths(src, dst, keys);
        assert forall|a: int, b: int| 0 <= a < b < ks.len() implies chars_lt(#[trigger] ks[a], #[trigger] ks[b]) by {
            assert(ks[a] == keys[a] && ks[b] == keys[b]);
        }
        lemma_ops_ordered(src, dst, ks);
        lemma_ops_paths(src, dst, ks);
        assert(all == pre + last);
        assert forall|i: int, j: int| 0 <= i < j < all.len() implies !chars_lt(
            #[trigger] all[j].path,
            #[trigger] all[i].path,
        ) by {
            lemma_chars_lt_irreflexive(p);
            if j < pre.len() {
                assert(all[i] == pre[i] && all[j] == pre[j]);
            } else if i < pre.len() {
                assert(all[i] == pre[i]);
                assert(all[j] == last[j - pre.len()]);
                assert(ks.contains(pre[i].path));
                let k = choose|k: int| 0 <= k < ks.len() && ks[k] == pre[i].path;
                assert(chars_lt(keys[k], keys[keys.len() - 1]));
                crate::order::lemma_chars_lt_asymmetric(pre[i].path, p);
            } else {
                assert(all[i] == last[i - pre.len()]);
                assert(all[j] == last[j - pre.len()]);
            }
        }
    }
}

/// The patch lists its steps by path: no step is about a path that comes
/// before the path of an earlier step.
pub proof fn law_delta_ordered_by_path(src: Seq<EntryView>, dst: Seq<EntryView>)
    ensures
        forall|i: int, j: int|
            0 <= i < j < delta(src, dst).len() ==> !chars_lt(
                #[trigger] delta(src, dst)[j].path,
                #[trigger] delta(src, dst)[i].path,
            ),
{
    lemma_enumeration_exists(src, dst);
    lemma_ops_ordered(src, dst, delta_paths(src, dst));
}

/// Every step of the patch is about a path that one of the two snapshots
/// records.
pub proof fn law_delta_paths_recorded(src: Seq<EntryView>, dst: Seq<EntryView>)
    ensures
        forall|i: int| 0 <= i < delta(src, dst).len() ==> in_either(src, dst, #[trigger] delta(src, dst)[i].path),
{
    lemma_enumeration_exists(src, dst);
    lemma_ops_paths(src, dst, delta_paths(src, dst));
}

/// What the source and the target record under one path call for no step:
/// neither records it, or both record an entry of the same kind with the same
/// digest (files) or target (links), and with the mode and time of the target
/// wherever the target records one.
pub open spec fn unchanged(s: Option<EntryView>, d: Option<EntryView>) -> bool {
    match (s, d) {
        (None, None) => true,
        (Some(s), Some(d)) => {
            &&& s.file_type == d.file_type
            &&& s.file_type == FileType::File ==> s.hash == d.hash
            &&& s.file_type == FileType::Symlink ==> s.target == d.target
            &&& d.mode is Some ==> s.mode == d.mode
            &&& d.mtime is Some ==> s.mtime == d.mtime
        },
        _ => false,
    }
}

proof fn lemma_path_ops_empty(p: Seq<char>, s: Option<EntryView>, d: Option<EntryView>)
    ensures
        path_ops(p, s, d).len() == 0 <==> unchanged(s, d),
{
    if let (Some(sv), Some(dv)) = (s, d) {
        if sv.file_type == dv.file_type {
            assert(path_ops(p, s, d) == mode_ops(sv, dv, p) + content_ops(sv, dv, p) + mtime_ops(sv, dv, p));
        }
    }
}

proof fn lemma_ops_empty(src: Seq<EntryView>, dst: Seq<EntryView>, keys: Seq<Seq<char>>)
    ensures
        ops_for_paths(src, dst, keys).len() == 0 <==> forall|t: int|
            0 <= t < keys.len() ==> unchanged(lookup(src, #[trigger] keys[t]), lookup(dst, keys[t])),
    decreases keys.len(),
{
    if keys.len() > 0 {
        let ks = keys.drop_last();
        let p = keys.last();
        lemma_ops_empty(src, dst, ks);
        lemma_path_ops_empty(p, lookup(src, p), lookup(dst, p));
        if ops_for_paths(src, dst, keys).len() == 0 {
            assert forall|t: int| 0 <= t < keys.len() implies unchanged(
                lookup(src, #[trigger] keys[t]),
                lookup(dst, keys[t]),
            ) by {
                if t < ks.len() {
                    assert(ks[t] == keys[t]);
                }
            }
        }
        if forall|t: int| 0 <= t < keys.len() ==> unchanged(lookup(src, #[trigger] keys[t]), lookup(dst, keys[t])) {
            assert forall|t: int| 0 <= t < ks.len() implies unchanged(lookup(src, #[trigger] ks[t]), lookup(dst, ks[t])) by {
                assert(ks[t] == keys[t]);
            }
            assert(keys[keys.len() - 1] == p);
        }
    }
}

/// The patch is empty exactly when no path calls for a step.
pub proof fn law_delta_empty_iff_unchanged(src: Seq<EntryView>, dst: Seq<EntryView>)
    ensures
        delta(src, dst).len() == 0 <==> forall|p: Seq<char>| #[trigger] unchanged(lookup(src, p), lookup(dst, p)),
{
    lemma_enumeration_exists(src, dst);
    let keys = delta_paths(src, dst);
    lemma_ops_empty(src, dst, keys);
    if delta(src, dst).len() == 0 {
        assert forall|p: Seq<char>| #[trigger] unchanged(lookup(src, p), lookup(dst, p)) by {
            if in_either(src, dst, p) {
                assert(keys.contains(p));
                let t = choose|t: int| 0 <= t < keys.len() && keys[t] == p;
                assert(unchanged(lookup(src, keys[t]), lookup(dst, keys[t])));
            }
        }
    }
    if forall|p: Seq<char>| #[trigger] unchanged(lookup(src, p), lookup(dst, p)) {
        assert forall|t: int| 0 <= t < keys.len() implies unchanged(lookup(src, #[trigger] keys[t]), lookup(dst, keys[t])) by {
            assert(unchanged(lookup(src, keys[t]), lookup(dst, keys[t])));
        }
    }
}

/// A snapshot compared with itself gives an empty patch.
pub proof fn law_delta_of_identical_is_empty(snap: Seq<EntryView>)
    ensures
        delta(snap, snap) == Seq::<OpView>::empty(),
{
    law_delta_empty_iff_unchanged(snap, snap);
    assert forall|p: Seq<char>| #[trigger] unchanged(lookup(snap, p), lookup(snap, p)) by {}
    assert(delta(snap, snap) =~= Seq::<OpView>::empty());
}

proof fn lemma_path_ops_known(p: Seq<char>, s: Option<EntryView>, d: Option<EntryView>)
    ensures
        forall|i: int| 0 <= i < path_ops(p, s, d).len() ==> known_op(#[trigger] path_ops(p, s, d)[i].op),
{
    let ops = path_ops(p, s, d);
    assert forall|i: int| 0 <= i < ops.len() implies known_op(#[trigger] ops[i].op) by {
        if let (Some(sv), Some(dv)) = (s, d) {
            if sv.file_type == dv.file_type {
                let c = mode_ops(sv, dv, p);
                let m = content_ops(sv, dv, p);
                let t = mtime_ops(sv, dv, p);
                assert(ops == c + m + t);
                if i < c.len() {
                    assert(ops[i] == c[i]);
                } else if i < c.len() + m.len() {
                    assert(ops[i] == m[i - c.len()]);
                } else {
                    assert(ops[i] == t[i - c.len() - m.len()]);
                }
            }
        }
    }
}

proof fn lemma_ops_known(src: Seq<EntryView>, dst: Seq<EntryView>, keys: Seq<Seq<char>>)
    ensures
        forall|i: int|
            0 <= i < ops_for_paths(src, dst, keys).len() ==> known_op(#[trigger] ops_for_paths(src, dst, keys)[i].op),
    decreases keys.len(),
{
    if keys.len() > 0 {
        let pre = ops_for_paths(src, dst, keys.drop_last());
        let p = keys.last();
        let last = path_ops(p, lookup(src, p), lookup(dst, p));
        lemma_ops_known(src, dst, keys.drop_last());
        lemma_path_ops_known(p, lookup(src, p), lookup(dst, p));
        let all = ops_for_paths(src, dst, keys);
        assert(all == pre + last);
        assert forall|i: int| 0 <= i < all.len() implies known_op(#[trigger] all[i].op) by {
            if i < pre.len() {
                assert(all[i] == pre[i]);
            } else {
                assert(all[i] == last[i - pre.len()]);
            }
        }
    }
}

/// Every step of a patch names an operation that `plan_op` knows, so carrying
/// out a computed patch never fails for an unknown operation.
pub proof fn law_delta_ops_known(src: Seq<EntryView>, dst: Seq<EntryView>)
    ensures
        forall|i: int| 0 <= i < delta(src, dst).len() ==> known_op(#[trigger] delta(src, dst)[i].op),
{
    lemma_ops_known(src, dst, delta_paths(src, dst));
}

/// A removal step.
pub open spec fn is_removal(op: Seq<char>) -> bool {
    op == "delete_file"@ || op == "delete_dir"@
}

/// Step `a` comes before step `b` in a patch: by path, then by step name,
/// except that the removal of an entry whose kind changed comes before the
/// step that creates the new entry.
pub open spec fn step_before(a: OpView, b: OpView) -> bool {
    ||| chars_lt(a.path, b.path)
    ||| a.path == b.path && (chars_lt(a.op, b.op) || (is_removal(a.op) && !is_removal(b.op)))
}

proof fn lemma_step_names()
    ensures
        chars_lt("chmod"@, "modify_file"@),
        chars_lt("chmod"@, "symlink"@),
        chars_lt("chmod"@, "utimes"@),
        chars_lt("modify_file"@, "utimes"@),
        chars_lt("symlink"@, "utimes"@),
        is_removal("delete_file"@),
        is_removal("delete_dir"@),
        !is_removal("create_file"@),
        !is_removal("create_dir"@),
        !is_removal("symlink"@),
{
    reveal_strlit("chmod");
    reveal_strlit("modify_file");
    reveal_strlit("symlink");
    reveal_strlit("utimes");
    reveal_strlit("delete_file");
    reveal_strlit("delete_dir");
    reveal_strlit("create_file");
    reveal_strlit("create_dir");
    assert("create_file"@[0] != "delete_file"@[0]);
    assert("create_file"@[0] != "delete_dir"@[0]);
    assert("create_dir"@[0] != "delete_file"@[0]);
    assert("create_dir"@[0] != "delete_dir"@[0]);
    assert("symlink"@[0] != "delete_file"@[0]);
    assert("symlink"@[0] != "delete_dir"@[0]);
}

proof fn lemma_path_ops_steps(p: Seq<char>, s: Option<EntryView>, d: Option<EntryView>)
    ensures
        forall|i: int, j: int|
            0 <= i < j < path_ops(p, s, d).len() ==> step_before(
                #[trigger] path_ops(p, s, d)[i],
                #[trigger] path_ops(p, s, d)[j],
            ),
        forall|i: int| 0 <= i < path_ops(p, s, d).len() ==> (#[trigger] path_ops(p, s, d)[i]).path == p,
{
    lemma_step_names();
    let ops = path_ops(p, s, d);
    if let (Some(sv), Some(dv)) = (s, d) {
        if sv.file_type == dv.file_type {
            let m = mode_ops(sv, dv, p);
            let c = content_ops(sv, dv, p);
            let t = mtime_ops(sv, dv, p);
            assert(ops == m + c + t);
            assert forall|i: int| 0 <= i < ops.len() implies (#[trigger] ops[i]).path == p by {
                if i < m.len() {
                    assert(ops[i] == m[i]);
                } else if i < m.len() + c.len() {
                    assert(ops[i] == c[i - m.len()]);
                } else {
                    assert(ops[i] == t[i - m.len() - c.len()]);
                }
            }
            assert forall|i: int, j: int| 0 <= i < j < ops.len() implies step_before(
                #[trigger] ops[i],
                #[trigger] ops[j],
            ) by {
                if i < m.len() {
                    assert(ops[i] == m[i]);
                    if j < m.len() + c.len() {
                        assert(ops[j] == c[j - m.len()]);
                    } else {
                        assert(ops[j] == t[j - m.len() - c.len()]);
                    }
                } else if i < m.len() + c.len() {
                    assert(ops[i] == c[i - m.len()]);
                    assert(ops[j] == t[j - m.len() - c.len()]);
                }
            }
        } else {
            assert forall|i: int, j: int| 0 <= i < j < ops.len() implies step_before(
                #[trigger] ops[i],
                #[trigger] ops[j],
            ) by {
                assert(ops[i] == delete_op(sv.file_type, p));
                assert(ops[j] == create_op(dv, p));
            }
        }
    }
}

proof fn lemma_ops_steps(src: Seq<EntryView>, dst: Seq<EntryView>, keys: Seq<Seq<char>>)
    requires
        strictly_sorted(keys),
    ensures
        forall|i: int, j: int|
            0 <= i < j < ops_for_paths(src, dst, keys).len() ==> step_before(
                #[trigger] ops_for_paths(src, dst, keys)[i],
                #[trigger] ops_for_paths(src, dst, keys)[j],
            ),
    decreases keys.len(),
{
    if keys.len() > 0 {
        let ks = keys.drop_last();
        let pre = ops_for_paths(src, dst, ks);
        let p = keys.last();
        let last = path_ops(p, lookup(src, p), lookup(dst, p));
        let all = ops_for_paths(src, dst, keys);
        assert forall|a: int, b: int| 0 <= a < b < ks.len() implies chars_lt(#[trigger] ks[a], #[trigger] ks[b]) by {
            assert(ks[a] == keys[a] && ks[b] == keys[b]);
        }
        lemma_ops_steps(src, dst, ks);
        lemma_ops_paths(src, dst, ks);
        lemma_path_ops_steps(p, lookup(src, p), lookup(dst, p));
        assert(all == pre + last);
        assert forall|i: int, j: int| 0 <= i < j < all.len() implies step_before(
            #[trigger] all[i],
            #[trigger] all[j],
        ) by {
            if j < pre.len() {
                assert(all[i] == pre[i] && all[j] == pre[j]);
            } else if i < pre.len() {
                assert(all[i] == pre[i]);
                assert(all[j] == last[j - pre.len()]);
                assert(ks.contains(pre[i].path));
                let k = choose|k: int| 0 <= k < ks.len() && ks[k] == pre[i].path;
                assert(chars_lt(keys[k], keys[keys.len() - 1]));
            } else {
                assert(all[i] == last[i - pre.len()]);
                assert(all[j] == last[j - pre.len()]);
            }
        }
    }
}

/// The steps of a patch come by path, then by step name, except that the
/// removal of an entry whose kind changed comes before the step that creates
/// the new one; so no two steps share both path and name.
pub proof fn law_delta_ordered_by_path_then_step(src: Seq<EntryView>, dst: Seq<EntryView>)
    ensures
        forall|i: int, j: int|
            0 <= i < j < delta(src, dst).len() ==> step_before(
                #[trigger] delta(src, dst)[i],
                #[trigger] delta(src, dst)[j],
            ),
{
    lemma_enumeration_exists(src, dst);
    lemma_ops_steps(src, dst, delta_paths(src, dst));
}

/// The entry that counts for a path is the last one recorded under it, and
/// there is none exactly when no entry is recorded under it.
pub proof fn law_lookup_is_last(es: Seq<EntryView>, p: Seq<char>)
    ensures
        lookup(es, p) is None <==> forall|k: int| 0 <= k < es.len() ==> (#[trigger] es[k]).path != p,
        lookup(es, p) is Some ==> exists|k: int|
            0 <= k < es.len() && es[k] == lookup(es, p)->0 && es[k].path == p && forall|m: int|
                k < m < es.len() ==> (#[trigger] es[m]).path != p,
    decreases es.len(),
{
    if es.len() > 0 {
        let d = es.drop_last();
        law_lookup_is_last(d, p);
        if es.last().path == p {
            assert(es[es.len() - 1] == es.last());
        } else {
            assert forall|k: int| 0 <= k < es.len() && (#[trigger] es[k]).path == p implies k < d.len() && d[k].path == p by {
                if k == es.len() - 1 {
                    assert(es[k] == es.last());
                } else {
                    assert(d[k] == es[k]);
                }
            }
            if lookup(d, p) is Some {
                let k = choose|k: int|
                    0 <= k < d.len() && d[k] == lookup(d, p)->0 && d[k].path == p && forall|m: int|
                        k < m < d.len() ==> (#[trigger] d[m]).path != p;
                assert(es[k] == d[k]);
                assert forall|m: int| k < m < es.len() implies (#[trigger] es[m]).path != p by {
                    if m < d.len() {
                        assert(d[m] == es[m]);
                    } else {
                        assert(es[m] == es.last());
                    }
                }
            } else {
                assert forall|k: int| 0 <= k < es.len() implies (#[trigger] es[k]).path != p by {
                    if k < d.len() {
                        assert(d[k] == es[k]);
                    } else {
                        assert(es[k] == es.last());
                    }
                }
            }
        }
    }
}

proof fn lemma_ops_concat(src: Seq<EntryView>, dst: Seq<EntryView>, a: Seq<Seq<char>>, b: Seq<Seq<char>>)
    ensures
        ops_for_paths(src, dst, a + b) == ops_for_paths(src, dst, a) + ops_for_paths(src, dst, b),
    decreases b.len(),
{
    if b.len() == 0 {
        assert(a + b =~= a);
        assert(ops_for_paths(src, dst, a) + ops_for_paths(src, dst, b) =~= ops_for_paths(src, dst, a));
    } else {
        assert((a + b).drop_last() =~= a + b.drop_last());
        assert((a + b).last() == b.last());
        lemma_ops_concat(src, dst, a, b.drop_last());
        assert(ops_for_paths(src, dst, a + b) =~= ops_for_paths(src, dst, a) + ops_for_paths(src, dst, b));
    }
}

/// `ops` holds the steps `b`, from position `i` on, and no step outside them
/// is about path `p`.
pub open spec fn block_at(ops: Seq<OpView>, i: int, b: Seq<OpView>, p: Seq<char>) -> bool {
    &&& 0 <= i
    &&& i + b.len() <= ops.len()
    &&& ops.subrange(i, i + b.len()) == b
    &&& forall|j: int| 0 <= j < ops.len() && !(i <= j < i + b.len()) ==> (#[trigger] ops[j]).path != p
}

/// The steps for a path recorded by either snapshot stand together in the
/// patch, and no other step is about that path.
proof fn lemma_block(src: Seq<EntryView>, dst: Seq<EntryView>, p: Seq<char>)
    requires
        in_either(src, dst, p),
    ensures
        exists|i: int| #[trigger] block_at(delta(src, dst), i, path_ops(p, lookup(src, p), lookup(dst, p)), p),
{
    lemma_enumeration_exists(src, dst);
    let keys = delta_paths(src, dst);
    assert(keys.contains(p));
    let t = choose|t: int| 0 <= t < keys.len() && keys[t] == p;
    let a = keys.take(t);
    let c = keys.skip(t + 1);
    let one = seq![p];
    assert(keys =~= a + one + c);
    lemma_ops_concat(src, dst, a + one, c);
    lemma_ops_concat(src, dst, a, one);
    assert(one.drop_last() =~= Seq::<Seq<char>>::empty());
    let b = path_ops(p, lookup(src, p), lookup(dst, p));
    assert(one.last() == p);
    assert(ops_for_paths(src, dst, Seq::<Seq<char>>::empty()) == Seq::<OpView>::empty());
    assert(ops_for_paths(src, dst, one) == ops_for_paths(src, dst, one.drop_last()) + b);
    assert(ops_for_paths(src, dst, one) =~= b);
    let oa = ops_for_paths(src, dst, a);
    let oc = ops_for_paths(src, dst, c);
    let all = delta(src, dst);
    assert(all == oa + b + oc);
    lemma_ops_paths(src, dst, a);
    lemma_ops_paths(src, dst, c);
    let i = oa.len() as int;
    assert(all.subrange(i, i + b.len()) =~= b);
    assert forall|j: int| 0 <= j < all.len() && !(i <= j < i + b.len()) implies (#[trigger] all[j]).path != p by {
        lemma_chars_lt_irreflexive(p);
        if j < i {
            assert(all[j] == oa[j]);
            assert(a.contains(oa[j].path));
            let k = choose|k: int| 0 <= k < a.len() && a[k] == oa[j].path;
            assert(keys[k] == a[k]);
            assert(chars_lt(keys[k], keys[t]));
        } else {
            assert(all[j] == oc[j - i - b.len()]);
            assert(c.contains(oc[j - i - b.len()].path));
            let k = choose|k: int| 0 <= k < c.len() && c[k] == oc[j - i - b.len()].path;
            assert(keys[t + 1 + k] == c[k]);
            assert(chars_lt(keys[t], keys[t + 1 + k]));
        }
    }
    assert(block_at(all, i, b, p));
}

/// The step that creates, at `p`, the entry that `d` records: `create_file`
/// with the digest, `create_dir`, or `symlink` with the target.
pub open spec fn creation_step(d: EntryView, p: Seq<char>) -> OpView {
    OpView {
        op: if d.file_type == FileType::File {
            "create_file"@
        } else if d.file_type == FileType::Directory {
            "create_dir"@
        } else {
            "symlink"@
        },
        path: p,
        hash: if d.file_type == FileType::File { d.hash } else { None },
        mode: None,
        mtime: None,
        target: if d.file_type == FileType::Symlink { d.target } else { None },
    }
}

/// The step that removes, at `p`, an entry of kind `ft`.
pub open spec fn removal_step(ft: FileType, p: Seq<char>) -> OpView {
    OpView {
        op: if ft == FileType::Directory { "delete_dir"@ } else { "delete_file"@ },
        path: p,
        hash: None,
        mode: None,
        mtime: None,
        target: None,
    }
}

/// A path that only the target records gets exactly one step: the creation
/// of the recorded entry, carrying its digest (file) or target (link).
pub proof fn law_delta_new_path(src: Seq<EntryView>, dst: Seq<EntryView>, p: Seq<char>)
    requires
        lookup(src, p) is None,
        lookup(dst, p) is Some,
    ensures
        exists|i: int|
            0 <= i < delta(src, dst).len() && delta(src, dst)[i] == creation_step(lookup(dst, p)->0, p) && forall|
                j: int,
            | 0 <= j < delta(src, dst).len() && j != i ==> (#[trigger] delta(src, dst)[j]).path != p,
{
    lemma_block(src, dst, p);
    let d = lookup(dst, p)->0;
    let b = path_ops(p, lookup(src, p), lookup(dst, p));
    assert(b == seq![create_op(d, p)]);
    assert(create_op(d, p) == creation_step(d, p));
    let i = choose|i: int| #[trigger] block_at(delta(src, dst), i, b, p);
    assert(delta(src, dst)[i] == delta(src, dst).subrange(i, i + b.len())[0]);
}

/// A path that only the source records gets exactly one step: the removal of
/// the recorded entry (`delete_dir` for a directory, else `delete_file`).
pub proof fn law_delta_removed_path(src: Seq<EntryView>, dst: Seq<EntryView>, p: Seq<char>)
    requires
        lookup(src, p) is Some,
        lookup(dst, p) is None,
    ensures
        exists|i: int|
            0 <= i < delta(src, dst).len() && delta(src, dst)[i] == removal_step(lookup(src, p)->0.file_type, p)
                && forall|j: int|
                0 <= j < delta(src, dst).len() && j != i ==> (#[trigger] delta(src, dst)[j]).path != p,
{
    lemma_block(src, dst, p);
    let s = lookup(src, p)->0;
    let b = path_ops(p, lookup(src, p), lookup(dst, p));
    assert(b == seq![delete_op(s.file_type, p)]);
    assert(delete_op(s.file_type, p) == removal_step(s.file_type, p));
    let i = choose|i: int| #[trigger] block_at(delta(src, dst), i, b, p);
    assert(delta(src, dst)[i] == delta(src, dst).subrange(i, i + b.len())[0]);
}

/// A path whose kind changed gets exactly two steps, one after the other: the
/// removal of the old entry, then the creation of the new one.
pub proof fn law_delta_kind_changed(src: Seq<EntryView>, dst: Seq<EntryView>, p: Seq<char>)
    requires
        lookup(src, p) is Some,
        lookup(dst, p) is Some,
        lookup(src, p)->0.file_type != lookup(dst, p)->0.file_type,
    ensures
        exists|i: int|
            #![trigger delta(src, dst)[i]]
            0 <= i && i + 1 < delta(src, dst).len() && delta(src, dst)[i] == removal_step(
                lookup(src, p)->0.file_type,
                p,
            ) && delta(src, dst)[i + 1] == creation_step(lookup(dst, p)->0, p) && forall|j: int|
                0 <= j < delta(src, dst).len() && j != i && j != i + 1 ==> (#[trigger] delta(src, dst)[j]).path != p,
{
    lemma_block(src, dst, p);
    let s = lookup(src, p)->0;
    let d = lookup(dst, p)->0;
    let b = path_ops(p, lookup(src, p), lookup(dst, p));
    assert(b == seq![delete_op(s.file_type, p), create_op(d, p)]);
    assert(delete_op(s.file_type, p) == removal_step(s.file_type, p));
    assert(create_op(d, p) == creation_step(d, p));
    let i = choose|i: int| #[trigger] block_at(delta(src, dst), i, b, p);
    assert(delta(src, dst)[i] == delta(src, dst).subrange(i, i + b.len())[0]);
    assert(delta(src, dst)[i + 1] == delta(src, dst).subrange(i, i + b.len())[1]);
}

/// The steps that a path recorded by both snapshots with one kind needs, in
/// order: `chmod` to the target's mode if it records a different one, then
/// `modify_file` with the target's digest for a file whose digest changed or
/// `symlink` with the target's target for a link whose target changed, then
/// `utimes` to the target's time if it records a different one.
pub open spec fn update_steps(s: EntryView, d: EntryView, p: Seq<char>) -> Seq<OpView> {
    let none = OpView { op: Seq::empty(), path: p, hash: None, mode: None, mtime: None, target: None };
    (if s.mode != d.mode && d.mode is Some {
        seq![OpView { op: "chmod"@, mode: d.mode, ..none }]
    } else {
        Seq::empty()
    }) + (if d.file_type == FileType::File && s.hash != d.hash {
        seq![OpView { op: "modify_file"@, hash: d.hash, ..none }]
    } else if d.file_type == FileType::Symlink && s.target != d.target {
        seq![OpView { op: "symlink"@, target: d.target, ..none }]
    } else {
        Seq::empty()
    }) + (if s.mtime != d.mtime && d.mtime is Some {
        seq![OpView { op: "utimes"@, mtime: d.mtime, ..none }]
    } else {
        Seq::empty()
    })
}

/// A path recorded by both snapshots with one kind gets exactly the steps of
/// `update_steps`, together, and no other step is about it.
pub proof fn law_delta_same_kind(src: Seq<EntryView>, dst: Seq<EntryView>, p: Seq<char>)
    requires
        lookup(src, p) is Some,
        lookup(dst, p) is Some,
        lookup(src, p)->0.file_type == lookup(dst, p)->0.file_type,
    ensures
        exists|i: int| #[trigger] block_at(delta(src, dst), i, update_steps(lookup(src, p)->0, lookup(dst, p)->0, p), p),
{
    lemma_block(src, dst, p);
    let s = lookup(src, p)->0;
    let d = lookup(dst, p)->0;
    let b = path_ops(p, lookup(src, p), lookup(dst, p));
    assert(b == mode_ops(s, d, p) + content_ops(s, d, p) + mtime_ops(s, d, p));
    assert(b =~= update_steps(s, d, p));
}

} // verus!
