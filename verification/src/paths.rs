use vstd::prelude::*;
use crate::snapshot::join_path;
use crate::text::{string_from_chars, to_chars};

verus! {

/// The pieces of `s` between separators: `s` split at every `/`.
pub open spec fn segments(s: Seq<char>) -> Seq<Seq<char>>
    decreases s.len(),
{
    if s.len() == 0 {
        seq![Seq::empty()]
    } else {
        let p = segments(s.drop_last());
        if s.last() == '/' {
            p.push(Seq::empty())
        } else {
            p.update(p.len() - 1, p.last().push(s.last()))
        }
    }
}

pub proof fn lemma_segments_nonempty(s: Seq<char>)
    ensures
        segments(s).len() >= 1,
    decreases s.len(),
{
    if s.len() > 0 {
        lemma_segments_nonempty(s.drop_last());
    }
}

/// A piece that names a component: not empty (a repeated or trailing
/// separator) and not `.`.
pub open spec fn is_named(seg: Seq<char>) -> bool {
    seg.len() > 0 && seg != seq!['.']
}

/// The pieces of `segs` that name components, in order.
pub open spec fn named(segs: Seq<Seq<char>>) -> Seq<Seq<char>>
    decreases segs.len(),
{
    if segs.len() == 0 {
        Seq::empty()
    } else if is_named(segs.last()) {
        named(segs.drop_last()).push(segs.last())
    } else {
        named(segs.drop_last())
    }
}

/// The path starts at the root.
pub open spec fn has_root(s: Seq<char>) -> bool {
    s.len() > 0 && s[0] == '/'
}

/// The path starts with a `.` component, which is kept.
pub open spec fn leading_cur_dir(s: Seq<char>) -> bool {
    !has_root(s) && s.len() > 0 && s[0] == '.' && (s.len() == 1 || s[1] == '/')
}

/// The path rebuilt from its components: the root, a leading `.`, then the
/// named components, joined by single separators.
pub open spec fn rebuilt(s: Seq<char>) -> Seq<char> {
    let parts = named(segments(s));
    if has_root(s) {
        seq!['/'] + join_path(parts)
    } else if leading_cur_dir(s) {
        if parts.len() == 0 {
            seq!['.']
        } else {
            seq!['.', '/'] + join_path(parts)
        }
    } else {
        join_path(parts)
    }
}

/// Every `\` turned into `/`.
pub open spec fn forward_slashes(s: Seq<char>) -> Seq<char> {
    s.map_values(|c: char| if c == '\\' { '/' } else { c })
}

/// The normal form of a path: the text that rebuilding it from its
/// components gives, with `\` written as `/`.
pub open spec fn normalized(s: Seq<char>) -> Seq<char> {
    forward_slashes(rebuilt(s))
}

/// The character vectors' views.
pub open spec fn chars_views(v: Seq<Vec<char>>) -> Seq<Seq<char>> {
    v.map_values(|x: Vec<char>| x@)
}

/// The named components of `s`.
fn split_named(s: &Vec<char>) -> (parts: Vec<Vec<char>>)
    ensures
        chars_views(parts@) == named(segments(s@)),
{
    let mut parts: Vec<Vec<char>> = Vec::new();
    let mut cur: Vec<char> = Vec::new();
    let mut i: usize = 0;
    while i < s.len()
        invariant
            i <= s.len(),
            segments(s@.take(i as int)).len() >= 1,
            chars_views(parts@) == named(segments(s@.take(i as int)).drop_last()),
            cur@ == segments(s@.take(i as int)).last(),
        decreases s.len() - i,
    {
        let ghost t = s@.take(i as int);
        let ghost t2 = s@.take(i + 1);
        assert(t2.drop_last() =~= t);
        assert(t2.last() == s@[i as int]);
        proof {
            lemma_segments_nonempty(t);
        }
        let c = s[i];
        if c == '/' {
            let ghost segs = segments(t);
            assert(segments(t2).drop_last() =~= segs);
            if cur.len() > 0 && !(cur.len() == 1 && cur[0] == '.') {
                assert(is_named(cur@)) by {
                    if cur@ == seq!['.'] {
                        assert(cur@[0] == '.');
                    }
                }
                let ghost pv = chars_views(parts@);
                parts.push(cur);
                assert(chars_views(parts@) =~= pv.push(segs.last()));
                assert(segs.drop_last().push(segs.last()) =~= segs);
            } else {
                assert(!is_named(cur@)) by {
                    if cur.len() == 1 && cur@[0] == '.' {
                        assert(cur@ =~= seq!['.']);
                    }
                }
                assert(segs.drop_last().push(segs.last()) =~= segs);
            }
            cur = Vec::new();
            assert(cur@ =~= segments(t2).last());
        } else {
            let ghost segs = segments(t);
            cur.push(c);
            assert(segments(t2).drop_last() =~= segs.drop_last());
        }
        i = i + 1;
    }
    let ghost segs = segments(s@.take(s.len() as int));
    assert(s@.take(s.len() as int) =~= s@);
    if cur.len() > 0 && !(cur.len() == 1 && cur[0] == '.') {
        assert(is_named(cur@)) by {
            if cur@ == seq!['.'] {
                assert(cur@[0] == '.');
            }
        }
        let ghost pv = chars_views(parts@);
        parts.push(cur);
        assert(chars_views(parts@) =~= pv.push(segs.last()));
        assert(segs.drop_last().push(segs.last()) =~= segs);
    } else {
        assert(!is_named(cur@)) by {
            if cur.len() == 1 && cur@[0] == '.' {
                assert(cur@ =~= seq!['.']);
            }
        }
        assert(segs.drop_last().push(segs.last()) =~= segs);
    }
    parts
}

/// Appends the components joined by `/` to `out`.
fn push_joined(out: &mut Vec<char>, parts: &Vec<Vec<char>>)
    ensures
        final(out)@ == old(out)@ + join_path(chars_views(parts@)),
{
    let ghost start = out@;
    let ghost pv = chars_views(parts@);
    let mut i: usize = 0;
    while i < parts.len()
        invariant
            i <= parts.len(),
            pv == chars_views(parts@),
            out@ == start + join_path(pv.take(i as int)),
        decreases parts.len() - i,
    {
        assert(pv.take(i + 1).drop_last() =~= pv.take(i as int));
        assert(pv.take(i + 1).last() == parts@[i as int]@);
        let ghost before = out@;
        if i > 0 {
            out.push('/');
        }
        let mut k: usize = 0;
        while k < parts[i].len()
            invariant
                i < parts.len(),
                k <= parts@[i as int].len(),
                out@ == (if i > 0 { before + seq!['/'] } else { before }) + parts@[i as int]@.take(k as int),
            decreases parts@[i as int].len() - k,
        {
            out.push(parts[i][k]);
            k = k + 1;
            assert(out@ =~= (if i > 0 { before + seq!['/'] } else { before }) + parts@[i as int]@.take(k as int));
        }
        assert(parts@[i as int]@.take(parts@[i as int].len() as int) =~= parts@[i as int]@);
        if i == 0 {
            assert(pv.take(1) =~= seq![parts@[0]@]);
            assert(out@ =~= start + parts@[0]@);
        } else {
            assert(out@ =~= start + join_path(pv.take(i as int)) + seq!['/'] + parts@[i as int]@);
        }
        i = i + 1;
    }
    assert(pv.take(parts.len() as int) =~= pv);
}

/// The normal form of `path`: repeated separators collapsed, `.` components
/// dropped except a leading one, a trailing separator dropped, and every
/// backslash written as a forward slash.
pub fn normalize_path(path: &str) -> (r: String)
    ensures
        r@ == normalized(path@),
{
    let s = to_chars(path);
    let parts = split_named(&s);
    let mut out: Vec<char> = Vec::new();
    let root = s.len() > 0 && s[0] == '/';
    let cur = !root && s.len() > 0 && s[0] == '.' && (s.len() == 1 || s[1] == '/');
    if root {
        out.push('/');
        push_joined(&mut out, &parts);
    } else if cur {
        out.push('.');
        if parts.len() > 0 {
            out.push('/');
            push_joined(&mut out, &parts);
        }
    } else {
        push_joined(&mut out, &parts);
    }
    assert(out@ =~= rebuilt(s@));
    let ghost rb = out@;
    let mut fixed: Vec<char> = Vec::new();
    let mut i: usize = 0;
    while i < out.len()
        invariant
            i <= out.len(),
            out@ == rb,
            fixed@ == forward_slashes(rb.take(i as int)),
        decreases out.len() - i,
    {
        let c = out[i];
        fixed.push(if c == '\\' { '/' } else { c });
        i = i + 1;
        assert(fixed@ =~= forward_slashes(rb.take(i as int)));
    }
    assert(rb.take(rb.len() as int) =~= rb);
    string_from_chars(&fixed)
}

/// No character of `s` is a backslash.
pub open spec fn no_backslash(s: Seq<char>) -> bool {
    forall|i: int| 0 <= i < s.len() ==> #[trigger] s[i] != '\\'
}

/// A piece holding neither separator nor backslash.
pub open spec fn clean_piece(seg: Seq<char>) -> bool {
    forall|m: int| 0 <= m < seg.len() ==> #[trigger] seg[m] != '/' && seg[m] != '\\'
}

proof fn lemma_segments_clean(s: Seq<char>)
    requires
        no_backslash(s),
    ensures
        forall|k: int| 0 <= k < segments(s).len() ==> clean_piece(#[trigger] segments(s)[k]),
    decreases s.len(),
{
    if s.len() > 0 {
        let d = s.drop_last();
        assert(no_backslash(d)) by {
            assert forall|i: int| 0 <= i < d.len() implies #[trigger] d[i] != '\\' by {
                assert(d[i] == s[i]);
            }
        }
        lemma_segments_clean(d);
        lemma_segments_nonempty(d);
        let p = segments(d);
        assert(s.last() == s[s.len() - 1]);
        if s.last() != '/' {
            let q = p.last().push(s.last());
            assert(clean_piece(p[p.len() - 1]));
            assert(clean_piece(q)) by {
                assert forall|m: int| 0 <= m < q.len() implies #[trigger] q[m] != '/' && q[m] != '\\' by {
                    if m < p.last().len() {
                        assert(q[m] == p[p.len() - 1][m]);
                    }
                }
            }
            assert forall|k: int| 0 <= k < segments(s).len() implies clean_piece(#[trigger] segments(s)[k]) by {
                if k < p.len() - 1 {
                    assert(segments(s)[k] == p[k]);
                }
            }
        } else {
            assert forall|k: int| 0 <= k < segments(s).len() implies clean_piece(#[trigger] segments(s)[k]) by {
                if k < p.len() {
                    assert(segments(s)[k] == p[k]);
                }
            }
        }
    }
}

proof fn lemma_named_clean(segs: Seq<Seq<char>>)
    requires
        forall|k: int| 0 <= k < segs.len() ==> clean_piece(#[trigger] segs[k]),
    ensures
        forall|k: int|
            0 <= k < named(segs).len() ==> clean_piece(#[trigger] named(segs)[k]) && is_named(named(segs)[k]),
    decreases segs.len(),
{
    if segs.len() > 0 {
        let d = segs.drop_last();
        assert forall|k: int| 0 <= k < d.len() implies clean_piece(#[trigger] d[k]) by {
            assert(d[k] == segs[k]);
        }
        lemma_named_clean(d);
        assert(clean_piece(segs[segs.len() - 1]));
        let nd = named(d);
        let ns = named(segs);
        assert forall|k: int| 0 <= k < ns.len() implies clean_piece(#[trigger] ns[k]) && is_named(ns[k]) by {
            if k < nd.len() {
                assert(ns[k] == nd[k]);
            }
        }
    }
}

proof fn lemma_join_clean(parts: Seq<Seq<char>>)
    requires
        forall|k: int| 0 <= k < parts.len() ==> clean_piece(#[trigger] parts[k]),
    ensures
        no_backslash(join_path(parts)),
    decreases parts.len(),
{
    if parts.len() == 1 {
        assert(clean_piece(parts[0]));
    } else if parts.len() > 1 {
        let d = parts.drop_last();
        assert forall|k: int| 0 <= k < d.len() implies clean_piece(#[trigger] d[k]) by {
            assert(d[k] == parts[k]);
        }
        lemma_join_clean(d);
        assert(clean_piece(parts[parts.len() - 1]));
        let j = join_path(parts);
        let a = join_path(d);
        assert forall|i: int| 0 <= i < j.len() implies #[trigger] j[i] != '\\' by {
            if i < a.len() {
                assert(j[i] == a[i]);
            } else if i > a.len() {
                assert(j[i] == parts.last()[i - a.len() - 1]);
            }
        }
    }
}

proof fn lemma_segments_plain(p: Seq<char>)
    requires
        forall|m: int| 0 <= m < p.len() ==> #[trigger] p[m] != '/',
    ensures
        segments(p) == seq![p],
    decreases p.len(),
{
    if p.len() > 0 {
        let d = p.drop_last();
        assert forall|m: int| 0 <= m < d.len() implies #[trigger] d[m] != '/' by {
            assert(d[m] == p[m]);
        }
        lemma_segments_plain(d);
        assert(p[p.len() - 1] != '/');
        assert(d.push(p.last()) =~= p);
        assert(segments(p) =~= seq![p]);
    } else {
        assert(p =~= Seq::<char>::empty());
    }
}

proof fn lemma_segments_concat(x: Seq<char>, y: Seq<char>)
    ensures
        segments(x + seq!['/'] + y) == segments(x) + segments(y),
    decreases y.len(),
{
    let z = x + seq!['/'] + y;
    if y.len() == 0 {
        assert(z.drop_last() =~= x);
        assert(z.last() == '/');
        assert(segments(z) =~= segments(x) + segments(y));
    } else {
        let yd = y.drop_last();
        assert(z.drop_last() =~= x + seq!['/'] + yd);
        assert(z.last() == y.last());
        lemma_segments_concat(x, yd);
        lemma_segments_nonempty(yd);
        lemma_segments_nonempty(x);
        assert(segments(z) =~= segments(x) + segments(y));
    }
}

proof fn lemma_segments_join(parts: Seq<Seq<char>>)
    requires
        parts.len() >= 1,
        forall|k: int| 0 <= k < parts.len() ==> clean_piece(#[trigger] parts[k]),
    ensures
        segments(join_path(parts)) == parts,
    decreases parts.len(),
{
    if parts.len() == 1 {
        assert(clean_piece(parts[0]));
        lemma_segments_plain(parts[0]);
        assert(seq![parts[0]] =~= parts);
    } else {
        let d = parts.drop_last();
        assert forall|k: int| 0 <= k < d.len() implies clean_piece(#[trigger] d[k]) by {
            assert(d[k] == parts[k]);
        }
        lemma_segments_join(d);
        assert(clean_piece(parts[parts.len() - 1]));
        lemma_segments_plain(parts.last());
        lemma_segments_concat(join_path(d), parts.last());
        assert(d + seq![parts.last()] =~= parts);
    }
}

proof fn lemma_named_concat(a: Seq<Seq<char>>, b: Seq<Seq<char>>)
    ensures
        named(a + b) == named(a) + named(b),
    decreases b.len(),
{
    if b.len() == 0 {
        assert(a + b =~= a);
        assert(named(a) + named(b) =~= named(a));
    } else {
        assert((a + b).drop_last() =~= a + b.drop_last());
        assert((a + b).last() == b.last());
        lemma_named_concat(a, b.drop_last());
        assert(named(a + b) =~= named(a) + named(b));
    }
}

proof fn lemma_named_all(parts: Seq<Seq<char>>)
    requires
        forall|k: int| 0 <= k < parts.len() ==> is_named(#[trigger] parts[k]),
    ensures
        named(parts) == parts,
    decreases parts.len(),
{
    if parts.len() > 0 {
        let d = parts.drop_last();
        assert forall|k: int| 0 <= k < d.len() implies is_named(#[trigger] d[k]) by {
            assert(d[k] == parts[k]);
        }
        lemma_named_all(d);
        assert(is_named(parts[parts.len() - 1]));
        assert(d.push(parts.last()) =~= parts);
    }
}

proof fn lemma_join_prefix(parts: Seq<Seq<char>>)
    requires
        parts.len() >= 1,
    ensures
        join_path(parts).len() >= parts[0].len(),
        forall|m: int| 0 <= m < parts[0].len() ==> #[trigger] join_path(parts)[m] == parts[0][m],
    decreases parts.len(),
{
    if parts.len() > 1 {
        let d = parts.drop_last();
        lemma_join_prefix(d);
        assert(d[0] == parts[0]);
        let j = join_path(parts);
        assert forall|m: int| 0 <= m < parts[0].len() implies #[trigger] join_path(parts)[m] == parts[0][m] by {
            assert(j[m] == join_path(d)[m]);
        }
    }
}

proof fn lemma_named_unnamed(x: Seq<char>)
    requires
        !is_named(x),
    ensures
        named(seq![x]) == Seq::<Seq<char>>::empty(),
{
    let one = seq![x];
    assert(one.last() == x);
    assert(one.drop_last() =~= Seq::<Seq<char>>::empty());
    assert(named(Seq::<Seq<char>>::empty()) == Seq::<Seq<char>>::empty());
}

/// Rebuilding a path from its components changes nothing more the second
/// time, for a path without backslashes.
proof fn lemma_rebuilt_idempotent(s: Seq<char>)
    requires
        no_backslash(s),
    ensures
        rebuilt(rebuilt(s)) == rebuilt(s),
        no_backslash(rebuilt(s)),
{
    let p = named(segments(s));
    lemma_segments_clean(s);
    lemma_named_clean(segments(s));
    lemma_join_clean(p);
    let j = join_path(p);
    let r = rebuilt(s);
    assert forall|k: int| 0 <= k < p.len() implies is_named(#[trigger] p[k]) by {}
    lemma_named_all(p);
    let e: Seq<char> = Seq::empty();
    assert(segments(e) == seq![e]);
    assert(!is_named(e));
    lemma_named_unnamed(e);
    if p.len() > 0 {
        lemma_segments_join(p);
    }
    if has_root(s) {
        assert(r == seq!['/'] + j);
        if p.len() > 0 {
            lemma_segments_concat(e, j);
            assert(e + seq!['/'] + j =~= r);
            lemma_named_concat(seq![e], p);
            assert(named(segments(r)) =~= p);
        } else {
            lemma_segments_concat(e, e);
            assert(e + seq!['/'] + e =~= r);
            lemma_named_concat(seq![e], seq![e]);
            assert(named(segments(r)) =~= p);
        }
        assert(has_root(r));
    } else if leading_cur_dir(s) {
        let dot = seq!['.'];
        lemma_segments_plain(dot);
        assert(!is_named(dot)) by {
            assert(dot =~= seq!['.']);
        }
        lemma_named_unnamed(dot);
        if p.len() == 0 {
            assert(r =~= dot);
        } else {
            assert(r =~= dot + seq!['/'] + j);
            lemma_segments_concat(dot, j);
            lemma_named_concat(seq![dot], p);
            assert(named(segments(r)) =~= p);
        }
        assert(leading_cur_dir(r));
        assert(no_backslash(r)) by {
            assert forall|i: int| 0 <= i < r.len() implies #[trigger] r[i] != '\\' by {
                if i >= 2 {
                    assert(r[i] == j[i - 2]);
                }
            }
        }
    } else {
        assert(r == j);
        if p.len() > 0 {
            lemma_join_prefix(p);
            assert(clean_piece(p[0]));
            assert(is_named(p[0]));
            assert(p[0].len() > 0);
            assert(r[0] == p[0][0]);
            assert(!has_root(r));
            if p[0].len() == 1 {
                assert(p[0] =~= seq![p[0][0]]);
                assert(r[0] != '.');
            } else {
                assert(r[1] == p[0][1]);
            }
            assert(!leading_cur_dir(r));
        } else {
            assert(r =~= e);
        }
    }
    if has_root(s) {
        assert(no_backslash(r)) by {
            assert forall|i: int| 0 <= i < r.len() implies #[trigger] r[i] != '\\' by {
                if i >= 1 {
                    assert(r[i] == j[i - 1]);
                }
            }
        }
    }
}

proof fn lemma_forward_slashes_identity(s: Seq<char>)
    requires
        no_backslash(s),
    ensures
        forward_slashes(s) == s,
{
    assert(forward_slashes(s) =~= s);
}

/// Normalizing a path without backslashes a second time changes nothing.
pub proof fn law_normalize_idempotent(s: Seq<char>)
    requires
        no_backslash(s),
    ensures
        normalized(normalized(s)) == normalized(s),
{
    lemma_rebuilt_idempotent(s);
    lemma_forward_slashes_identity(rebuilt(s));
    lemma_forward_slashes_identity(rebuilt(rebuilt(s)));
}

/// Splitting components joined by `/` at every `/` gives the components
/// back, when none of them holds a separator or a backslash.
pub proof fn law_join_then_split(parts: Seq<Seq<char>>)
    requires
        parts.len() >= 1,
        forall|k: int| 0 <= k < parts.len() ==> clean_piece(#[trigger] parts[k]),
    ensures
        segments(join_path(parts)) == parts,
{
    lemma_segments_join(parts);
}

/// A path that is already in normal form comes back unchanged: components
/// that are not empty, not `.`, and hold neither separator nor backslash,
/// joined by single separators, with or without a leading root.
pub proof fn law_normal_path_unchanged(parts: Seq<Seq<char>>)
    requires
        parts.len() >= 1,
        forall|k: int|
            0 <= k < parts.len() ==> (#[trigger] parts[k]).len() > 0 && parts[k] != seq!['.'] && clean_piece(
                parts[k],
            ),
    ensures
        normalized(join_path(parts)) == join_path(parts),
        normalized(seq!['/'] + join_path(parts)) == seq!['/'] + join_path(parts),
{
    let j = join_path(parts);
    assert forall|k: int| 0 <= k < parts.len() implies is_named(#[trigger] parts[k]) by {}
    lemma_named_all(parts);
    lemma_segments_join(parts);
    lemma_join_clean(parts);
    lemma_join_prefix(parts);
    assert(clean_piece(parts[0]));
    assert(parts[0].len() > 0);
    assert(j[0] == parts[0][0]);
    assert(!has_root(j));
    if parts[0].len() == 1 {
        assert(parts[0] =~= seq![parts[0][0]]);
        assert(j[0] != '.');
    } else {
        assert(j[1] == parts[0][1]);
    }
    assert(!leading_cur_dir(j));
    assert(rebuilt(j) == j);
    lemma_forward_slashes_identity(j);
    let e: Seq<char> = Seq::empty();
    let r = seq!['/'] + j;
    lemma_segments_concat(e, j);
    assert(e + seq!['/'] + j =~= r);
    assert(segments(e) == seq![e]);
    lemma_named_unnamed(e);
    lemma_named_concat(seq![e], parts);
    assert(named(segments(r)) =~= parts);
    assert(has_root(r));
    assert(rebuilt(r) == r);
    assert(no_backslash(r)) by {
        assert forall|i: int| 0 <= i < r.len() implies #[trigger] r[i] != '\\' by {
            if i >= 1 {
                assert(r[i] == j[i - 1]);
            }
        }
    }
    lemma_forward_slashes_identity(r);
}

} // verus!
