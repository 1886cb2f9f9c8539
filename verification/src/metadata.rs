use vstd::prelude::*;
use crate::filetypes::FileType;

verus! {

/// What a snapshot reads of an entry's metadata (taken without following a
/// final symbolic link).
#[derive(Clone, Copy, Debug)]
pub struct FileMeta {
    /// The full `st_mode` word: permission bits and file-type bits.
    pub mode: u32,
    /// Seconds since the Unix epoch of the last modification (`st_mtime`).
    pub mtime: i64,
    /// The entry is a directory.
    pub is_dir: bool,
    /// The entry is a symbolic link.
    pub is_symlink: bool,
}

/// The kind of an entry: a symbolic link is a link whatever it points to, a
/// directory is a directory, and everything else is recorded as a file.
pub open spec fn kind_of(meta: FileMeta) -> FileType {
    if meta.is_symlink {
        FileType::Symlink
    } else if meta.is_dir {
        FileType::Directory
    } else {
        FileType::File
    }
}

/// The mode word of an entry, as recorded in a snapshot.
pub fn extract_mode(meta: &FileMeta) -> (r: Option<u32>)
    ensures
        r == Some(meta.mode),
{
    Some(meta.mode)
}

/// The modification time of an entry, as recorded in a snapshot: the signed
/// seconds reinterpreted as an unsigned 64-bit number.
pub fn extract_mtime(meta: &FileMeta) -> (r: Option<u64>)
    ensures
        r == Some(meta.mtime as u64),
        meta.mtime >= 0 ==> r->0 == meta.mtime,
        meta.mtime < 0 ==> r->0 == meta.mtime + 0x1_0000_0000_0000_0000,
{
    let t: i64 = meta.mtime;
    proof {
        assert(t >= 0 ==> (t as u64) as int == t as int) by (bit_vector);
        assert(t < 0 ==> (t as u64) as int == t as int + 0x1_0000_0000_0000_0000) by (bit_vector);
    }
    Some(t as u64)
}

/// The kind of the entry that `meta` describes.
pub fn file_type_of(meta: &FileMeta) -> (t: FileType)
    ensures
        t == kind_of(*meta),
        meta.is_symlink ==> t == FileType::Symlink,
        !meta.is_symlink && meta.is_dir ==> t == FileType::Directory,
        !meta.is_symlink && !meta.is_dir ==> t == FileType::File,
{
    if meta.is_symlink {
        FileType::Symlink
    } else if meta.is_dir {
        FileType::Directory
    } else {
        FileType::File
    }
}

} // verus!
