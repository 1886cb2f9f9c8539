use vstd::prelude::*;
use crate::filetypes::FileType;
use crate::hashing::{content_digest, hex_lower, sha256_digest};
use crate::metadata::{extract_mode, extract_mtime, file_type_of, kind_of, FileMeta};
use crate::order::{comps_lt, components_lt, strings_view};
use crate::order::{lemma_comps_lt_asymmetric, lemma_comps_lt_transitive};
use crate::text::{opt_chars, string_from_chars, to_chars};

verus! {

broadcast use vstd::seq_lib::group_to_multiset_ensures;

/// One recorded entry of a snapshot.
#[derive(Debug, Clone)]
pub struct SnapshotEntry {
    /// The path relative to the snapshot's root, components joined by `/`.
    pub path: String,
    pub file_type: FileType,
    /// The bytes of a file (none for directories and links).
    pub contents: Option<Vec<u8>>,
    /// The target of a symbolic link.
    pub target: Option<String>,
    pub mode: Option<u32>,
    pub mtime: Option<u64>,
    /// Lower-case hexadecimal SHA-256 digest of a file's contents.
    pub hash: Option<String>,
}

/// A recorded entry, with its text and bytes as sequences.
pub struct EntryView {
    pub path: Seq<char>,
    pub file_type: FileType,
    pub contents: Option<Seq<u8>>,
    pub target: Option<Seq<char>>,
    pub mode: Option<u32>,
    pub mtime: Option<u64>,
    pub hash: Option<Seq<char>>,
}

pub open spec fn opt_bytes(o: Option<Vec<u8>>) -> Option<Seq<u8>> {
    match o {
        Some(v) => Some(v@),
        None => None,
    }
}

impl View for SnapshotEntry {
    type V = EntryView;

    open spec fn view(&self) -> EntryView {
        EntryView {
            path: self.path@,
            file_type: self.file_type,
            contents: opt_bytes(self.contents),
            target: opt_chars(self.target),
            mode: self.mode,
            mtime: self.mtime,
            hash: opt_chars(self.hash),
        }
    }
}

/// The view of an entry carries every field: the path's text, the kind, the
/// bytes, the target's text, the mode, the time and the digest's text.
pub proof fn law_entry_view(e: SnapshotEntry)
    ensures
        e@.path == e.path@,
        e@.file_type == e.file_type,
        e.contents is None <==> e@.contents is None,
        e.contents matches Some(c) ==> e@.contents == Some(c@),
        e.target is None <==> e@.target is None,
        e.target matches Some(t) ==> e@.target == Some(t@),
        e@.mode == e.mode,
        e@.mtime == e.mtime,
        e.hash is None <==> e@.hash is None,
        e.hash matches Some(h) ==> e@.hash == Some(h@),
{
}

/// The entries found below a root directory.
#[derive(Debug, Clone)]
pub struct Snapshot {
    pub entries: Vec<SnapshotEntry>,
}

impl View for Snapshot {
    type V = Seq<EntryView>;

    open spec fn view(&self) -> Seq<EntryView> {
        self.entries@.map_values(|e: SnapshotEntry| e@)
    }
}

/// Path components joined by `/`.
pub open spec fn join_path(comps: Seq<Seq<char>>) -> Seq<char>
    decreases comps.len(),
{
    if comps.len() == 0 {
        Seq::empty()
    } else if comps.len() == 1 {
        comps[0]
    } else {
        join_path(comps.drop_last()) + seq!['/'] + comps.last()
    }
}

/// The relative path of an entry from its components below the root.
pub fn join_components(comps: &Vec<String>) -> (s: String)
    ensures
        s@ == join_path(strings_view(comps@)),
{
    let ghost cv = strings_view(comps@);
    let mut out: Vec<char> = Vec::new();
    let mut i: usize = 0;
    while i < comps.len()
        invariant
            i <= comps.len(),
            cv == strings_view(comps@),
            out@ == join_path(cv.take(i as int)),
        decreases comps.len() - i,
    {
        let cs = to_chars(comps[i].as_str());
        assert(cv[i as int] == comps@[i as int]@);
        assert(cv.take(i + 1).drop_last() =~= cv.take(i as int));
        assert(cv.take(i + 1).last() == cv[i as int]);
        let ghost before = out@;
        if i > 0 {
            out.push('/');
        }
        let mut k: usize = 0;
        while k < cs.len()
            invariant
                k <= cs.len(),
                out@ == (if i > 0 { before + seq!['/'] } else { before }) + cs@.take(k as int),
            decreases cs.len() - k,
        {
            out.push(cs[k]);
            k = k + 1;
            assert(out@ =~= (if i > 0 { before + seq!['/'] } else { before }) + cs@.take(k as int));
        }
        assert(cs@.take(cs.len() as int) =~= cs@);
        if i == 0 {
            assert(before =~= Seq::<char>::empty());
            assert(out@ =~= cs@);
        }
        i = i + 1;
    }
    assert(cv.take(comps.len() as int) =~= cv);
    string_from_chars(&out)
}

/// The entry that a snapshot records for a path below its root, from the
/// path's components, its metadata, the target read from a link and the
/// bytes read from a file.
pub open spec fn entry_of(
    comps: Seq<Seq<char>>,
    meta: FileMeta,
    link_target: Option<Seq<char>>,
    data: Option<Seq<u8>>,
) -> EntryView {
    let kind = kind_of(meta);
    EntryView {
        path: join_path(comps),
        file_type: kind,
        contents: if kind == FileType::File { data } else { None },
        target: if kind == FileType::Symlink { link_target } else { None },
        mode: Some(meta.mode),
        mtime: Some(meta.mtime as u64),
        hash: if kind == FileType::File && data is Some {
            Some(hex_lower(sha256_digest(data->0)))
        } else {
            None
        },
    }
}

/// The snapshot entry for a path found below the root. The root itself
/// (no components) is not recorded: `None`. Only a link records a target
/// and only a file records its bytes and their digest.
pub fn snapshot_entry(
    comps: &Vec<String>,
    meta: &FileMeta,
    link_target: Option<String>,
    data: Option<Vec<u8>>,
) -> (r: Option<SnapshotEntry>)
    ensures
        comps@.len() == 0 <==> r is None,
        r matches Some(e) ==> e@ == entry_of(
            strings_view(comps@),
            *meta,
            opt_chars(link_target),
            opt_bytes(data),
        ),
        r matches Some(e) ==> {
            &&& e.mode == Some(meta.mode)
            &&& e.mtime is Some && (meta.mtime >= 0 ==> e.mtime->0 == meta.mtime)
            &&& (meta.mtime < 0 ==> e.mtime->0 == meta.mtime + 0x1_0000_0000_0000_0000)
            &&& e.file_type == (if meta.is_symlink {
                FileType::Symlink
            } else if meta.is_dir {
                FileType::Directory
            } else {
                FileType::File
            })
            &&& e.file_type == FileType::File ==> opt_bytes(e.contents) == opt_bytes(data)
            &&& e.file_type != FileType::File ==> e.contents is None && e.hash is None
            &&& e.file_type == FileType::Symlink ==> opt_chars(e.target) == opt_chars(link_target)
            &&& e.file_type != FileType::Symlink ==> e.target is None
            &&& (e.file_type == FileType::File && data is Some) ==> opt_chars(e.hash) == Some(
                hex_lower(sha256_digest(data->0@)),
            ) && e.hash->0@.len() == 64
            &&& (e.file_type == FileType::File && data is None) ==> e.hash is None
        },
{
    if comps.len() == 0 {
        return None;
    }
    let kind = file_type_of(meta);
    let path = join_components(comps);
    let mode = extract_mode(meta);
    let mtime = extract_mtime(meta);
    let (contents, target, hash) = match kind {
        FileType::File => {
            let hash = match &data {
                Some(d) => Some(content_digest(d.as_slice())),
                None => None,
            };
            (data, None, hash)
        },
        FileType::Directory => (None, None, None),
        FileType::Symlink => (None, link_target, None),
    };
    Some(SnapshotEntry { path, file_type: kind, contents, target, mode, mtime, hash })
}

/// Component lists in non-decreasing path order.
pub open spec fn paths_sorted(v: Seq<Vec<String>>) -> bool {
    forall|i: int, j: int|
        0 <= i < j < v.len() ==> !comps_lt(strings_view(#[trigger] v[j]@), strings_view(#[trigger] v[i]@))
}

/// The paths found below a root, in the order in which `Path` values sort:
/// the same paths, each as often as given, in non-decreasing order.
pub fn sort_paths(paths: Vec<Vec<String>>) -> (r: Vec<Vec<String>>)
    ensures
        r@.to_multiset() == paths@.to_multiset(),
        paths_sorted(r@),
{
    let mut input = paths;
    let mut out: Vec<Vec<String>> = Vec::new();
    while input.len() > 0
        invariant
            out@.to_multiset().add(input@.to_multiset()) == paths@.to_multiset(),
            paths_sorted(out@),
        decreases input.len(),
    {
        let ghost before_in = input@;
        let x = input.pop().unwrap();
        assert(before_in =~= input@.push(x));
        let mut pos: usize = 0;
        while pos < out.len() && !components_lt(&x, &out[pos])
            invariant
                pos <= out.len(),
                forall|k: int| 0 <= k < pos ==> !comps_lt(strings_view(x@), strings_view(#[trigger] out@[k]@)),
            decreases out.len() - pos,
        {
            pos = pos + 1;
        }
        let ghost old_out = out@;
        proof {
            assert forall|j: int| pos <= j < old_out.len() implies !comps_lt(
                strings_view(#[trigger] old_out[j]@),
                strings_view(x@),
            ) by {
                let a = strings_view(old_out[j]@);
                let p = strings_view(old_out[pos as int]@);
                let xv = strings_view(x@);
                if comps_lt(a, xv) {
                    if j == pos {
                        lemma_comps_lt_asymmetric(xv, a);
                    } else {
                        lemma_comps_lt_transitive(a, xv, p);
                        assert(!comps_lt(p, a));
                        assert(!comps_lt(strings_view(old_out[j]@), strings_view(old_out[pos as int]@)));
                    }
                }
            }
        }
        out.insert(pos, x);
        proof {
            assert forall|i: int, j: int| 0 <= i < j < out@.len() implies !comps_lt(
                strings_view(#[trigger] out@[j]@),
                strings_view(#[trigger] out@[i]@),
            ) by {
                if j < pos {
                } else if j == pos {
                } else if i == pos {
                    assert(out@[j] == old_out[j - 1]);
                } else if i < pos {
                    assert(out@[j] == old_out[j - 1]);
                } else {
                    assert(out@[j] == old_out[j - 1]);
                    assert(out@[i] == old_out[i - 1]);
                }
            }
        }
    }
    out
}

} // verus!
