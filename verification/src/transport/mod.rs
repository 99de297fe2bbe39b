//! What the two sides of a sync tell each other about files.
use vstd::prelude::*;

pub mod local;
pub mod protocol;
pub mod ssh;
pub mod ssh_config;

verus! {

/// What stands at a path.
#[derive(Clone, Copy, Debug, PartialEq, Eq, Structural)]
pub enum EntryKind {
    File,
    Dir,
    Symlink,
}

/// One file, directory or symbolic link of a tree.
#[derive(Clone, Debug)]
pub struct FileEntry {
    /// Relative to the root of the tree.
    pub rel_path: String,
    /// Bytes, for a file.
    pub len: u64,
    /// Milliseconds since 1970.
    pub mtime: i64,
    pub kind: EntryKind,
    /// Unix permission bits.
    pub mode: u32,
}

/// An entry, with its path as a sequence of characters.
#[verifier::ext_equal]
pub struct EntryView {
    pub rel_path: Seq<char>,
    pub len: u64,
    pub mtime: i64,
    pub kind: EntryKind,
    pub mode: u32,
}

impl View for FileEntry {
    type V = EntryView;

    open spec fn view(&self) -> EntryView {
        EntryView {
            rel_path: self.rel_path@,
            len: self.len,
            mtime: self.mtime,
            kind: self.kind,
            mode: self.mode,
        }
    }
}

/// The views of a list of entries.
pub open spec fn entry_views(v: Seq<FileEntry>) -> Seq<EntryView> {
    Seq::new(v.len(), |i: int| v[i]@)
}

} // verus!
