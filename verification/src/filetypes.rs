use vstd::prelude::*;

verus! {

/// The three kinds of entries that a snapshot records.
#[derive(Clone, Copy, Debug, PartialEq, Eq, Structural)]
pub enum FileType {
    File,
    Directory,
    Symlink,
}

impl FileType {
    /// The name of the kind, as it is shown to users.
    pub open spec fn display_name(self) -> Seq<char> {
        match self {
            FileType::File => "File"@,
            FileType::Directory => "Directory"@,
            FileType::Symlink => "Symlink"@,
        }
    }

    /// The name of the kind: `File`, `Directory` or `Symlink`.
    pub fn to_string(&self) -> (s: String)
        ensures
            s@ == self.display_name(),
    {
        match self {
            FileType::File => String::from_str("File"),
            FileType::Directory => String::from_str("Directory"),
            FileType::Symlink => String::from_str("Symlink"),
        }
    }
}

} // verus!
