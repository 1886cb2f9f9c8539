use vstd::prelude::*;
use crate::delta::PatchOp;
use crate::text::opt_chars;

verus! {

/// What the file system must do, at the path that a patch step names below
/// the root, to carry the step out.
#[derive(Debug)]
pub enum FsAction {
    /// Create the directory and any missing parents (`create_dir`).
    CreateDirAll,
    /// Remove the directory with everything in it, if the path exists
    /// (`delete_dir`).
    RemoveDirAllIfPresent,
    /// Create any missing parents, then create the file empty, truncating it
    /// if it exists (`create_file`: a patch does not carry contents).
    CreateEmptyFile,
    /// Remove the file, if the path exists (`delete_file`).
    RemoveFileIfPresent,
    /// Create any missing parents, then truncate the file or create it empty
    /// (`modify_file`).
    TruncateFile,
    /// Set the permission bits (`chmod` with a mode).
    SetMode(u32),
    /// Set the modification time to these seconds since the epoch, with no
    /// fraction (`utimes` with a time).
    SetMtime(i64),
    /// Nothing (`chmod` or `utimes` that carries no value).
    Nothing,
    /// Remove the entry if the path exists, create any missing parents, then
    /// create a symbolic link to the target (`symlink`).
    ReplaceWithSymlink(String),
}

/// A patch step whose operation is none of the known ones.
#[derive(Debug)]
pub struct UnknownOp {
    pub op: String,
}

impl UnknownOp {
    /// The error message: `Unknown op: ` and the operation's name.
    pub fn message(&self) -> (s: String)
        ensures
            s@ == "Unknown op: "@ + self.op@,
    {
        let mut s = String::from_str("Unknown op: ");
        s.append(self.op.as_str());
        s
    }
}

/// The operations that a patch may hold.
pub open spec fn known_op(name: Seq<char>) -> bool {
    ||| name == "create_dir"@
    ||| name == "delete_dir"@
    ||| name == "create_file"@
    ||| name == "delete_file"@
    ||| name == "modify_file"@
    ||| name == "chmod"@
    ||| name == "utimes"@
    ||| name == "symlink"@
}

/// The seconds that `utimes` sets: the unsigned time reinterpreted as a
/// signed 64-bit number.
pub open spec fn mtime_seconds(t: u64) -> i64 {
    t as i64
}

/// The target that a `symlink` step links to: the empty path when the step
/// carries none.
pub open spec fn link_target(target: Option<String>) -> Seq<char> {
    match opt_chars(target) {
        Some(x) => x,
        None => Seq::empty(),
    }
}

/// What the file system must do for the patch step `op`, or the error for an
/// operation that is not known.
pub fn plan_op(op: &PatchOp) -> (r: Result<FsAction, UnknownOp>)
    ensures
        op.op@ == "create_dir"@ ==> r matches Ok(FsAction::CreateDirAll),
        op.op@ == "delete_dir"@ ==> r matches Ok(FsAction::RemoveDirAllIfPresent),
        op.op@ == "create_file"@ ==> r matches Ok(FsAction::CreateEmptyFile),
        op.op@ == "delete_file"@ ==> r matches Ok(FsAction::RemoveFileIfPresent),
        op.op@ == "modify_file"@ ==> r matches Ok(FsAction::TruncateFile),
        op.op@ == "chmod"@ ==> match op.mode {
            Some(m) => r matches Ok(FsAction::SetMode(x)) && x == m,
            None => r matches Ok(FsAction::Nothing),
        },
        op.op@ == "utimes"@ ==> match op.mtime {
            Some(t) => r matches Ok(FsAction::SetMtime(x)) && x == mtime_seconds(t) && x as int == if t
                <= 0x7fff_ffff_ffff_ffff {
                t as int
            } else {
                t as int - 0x1_0000_0000_0000_0000
            },
            None => r matches Ok(FsAction::Nothing),
        },
        op.op@ == "symlink"@ ==> (r matches Ok(FsAction::ReplaceWithSymlink(t)) && t@ == link_target(op.target)),
        op.op@ == "symlink"@ ==> match op.target {
            Some(tt) => r matches Ok(FsAction::ReplaceWithSymlink(t)) && t@ == tt@,
            None => r matches Ok(FsAction::ReplaceWithSymlink(t)) && t@.len() == 0,
        },
        !known_op(op.op@) ==> (r matches Err(e) && e.op@ == op.op@),
{
    proof {
        reveal_strlit("create_dir");
        reveal_strlit("delete_dir");
        reveal_strlit("create_file");
        reveal_strlit("delete_file");
        reveal_strlit("modify_file");
        reveal_strlit("chmod");
        reveal_strlit("utimes");
        reveal_strlit("symlink");
        assert("create_dir"@[0] == 'c' && "delete_dir"@[0] == 'd');
        assert("create_file"@[0] == 'c' && "delete_file"@[0] == 'd' && "modify_file"@[0] == 'm');
        assert("create_dir"@.len() == 10 && "delete_dir"@.len() == 10);
        assert("create_file"@.len() == 11 && "delete_file"@.len() == 11 && "modify_file"@.len() == 11);
        assert("chmod"@.len() == 5 && "utimes"@.len() == 6 && "symlink"@.len() == 7);
    }
    let name = &op.op;
    if *name == String::from_str("create_dir") {
        Ok(FsAction::CreateDirAll)
    } else if *name == String::from_str("delete_dir") {
        Ok(FsAction::RemoveDirAllIfPresent)
    } else if *name == String::from_str("create_file") {
        Ok(FsAction::CreateEmptyFile)
    } else if *name == String::from_str("delete_file") {
        Ok(FsAction::RemoveFileIfPresent)
    } else if *name == String::from_str("modify_file") {
        Ok(FsAction::TruncateFile)
    } else if *name == String::from_str("chmod") {
        match op.mode {
            Some(m) => Ok(FsAction::SetMode(m)),
            None => Ok(FsAction::Nothing),
        }
    } else if *name == String::from_str("utimes") {
        match op.mtime {
            Some(t) => {
                proof {
                    assert(t <= 0x7fff_ffff_ffff_ffff ==> (t as i64) as int == t as int) by (bit_vector);
                    assert(t > 0x7fff_ffff_ffff_ffff ==> (t as i64) as int == t as int - 0x1_0000_0000_0000_0000)
                        by (bit_vector);
                }
                Ok(FsAction::SetMtime(#[verifier::truncate] (t as i64)))
            },
            None => Ok(FsAction::Nothing),
        }
    } else if *name == String::from_str("symlink") {
        let target = match &op.target {
            Some(t) => t.clone(),
            None => String::new(),
        };
        Ok(FsAction::ReplaceWithSymlink(target))
    } else {
        Err(UnknownOp { op: name.clone() })
    }
}

} // verus!
