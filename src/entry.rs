use vstd::prelude::*;

verus! {

/// What a directory entry is, read without following a symbolic link.
#[derive(Copy, Clone, PartialEq, Eq, Structural, Debug)]
pub enum EntryKind {
    File,
    Dir,
    Symlink,
    Other,
}

/// One child of a directory, as read from the filesystem.
pub struct Entry {
    /// The base name.
    pub name: String,
    /// The path as reached from the root of the listing.
    pub path: String,
    pub kind: EntryKind,
    /// Whether the entry is a file that may be executed.
    pub executable: bool,
    /// Size in bytes, following a symbolic link; `None` where it could not
    /// be read.
    pub size: Option<u64>,
    /// Time of last modification, in nanoseconds from the Unix epoch.
    pub modified: i128,
    /// Time of last status change, in nanoseconds from the Unix epoch.
    pub changed: i128,
    /// For a symbolic link, its target as written in the link; `None` where
    /// it could not be read.
    pub link_target: Option<String>,
}

impl Entry {
    pub open spec fn is_dir(&self) -> bool {
        self.kind == EntryKind::Dir
    }

    /// Whether the base name marks the entry as hidden.
    pub open spec fn is_hidden(&self) -> bool {
        self.name@.len() > 0 && self.name@[0] == '.'
    }
}

} // verus!
