//! What the backing storage held when a request arrived.
//!
//! The filesystem core never touches the disk itself. Its caller looks at the
//! storage paths that a request may depend on and records what it found in a
//! `Snapshot`; the core then decides from the snapshot alone.

use vstd::prelude::*;
use crate::table::StrMap;

verus! {

/// The kinds of file that the core tells apart.
#[derive(Clone, Copy, Debug, PartialEq, Eq, Structural)]
pub enum FileKind {
    Directory,
    RegularFile,
    Symlink,
}

/// The storage paths that exist, each with its kind.
pub struct Snapshot {
    found: StrMap<FileKind>,
}

impl View for Snapshot {
    type V = Map<Seq<char>, FileKind>;

    closed spec fn view(&self) -> Map<Seq<char>, FileKind> {
        self.found@
    }
}

impl Snapshot {
    /// Each path is recorded once.
    pub closed spec fn wf(&self) -> bool {
        self.found.wf()
    }

    /// A snapshot in which no path exists.
    pub fn new() -> (s: Self)
        ensures
            s.wf(),
            s@ == Map::<Seq<char>, FileKind>::empty(),
    {
        Snapshot { found: StrMap::new() }
    }

    /// Records that `path` exists and is of kind `kind`.
    pub fn record(&mut self, path: &str, kind: FileKind)
        requires
            old(self).wf(),
        ensures
            final(self).wf(),
            final(self)@ == old(self)@.insert(path@, kind),
    {
        self.found.insert(path.to_owned(), kind);
    }

    /// Records that `path` does not exist.
    pub fn forget(&mut self, path: &str)
        requires
            old(self).wf(),
        ensures
            final(self).wf(),
            final(self)@ == old(self)@.remove(path@),
    {
        let _gone = self.found.remove(path);
    }

    /// Whether `path` exists.
    pub fn contains(&self, path: &str) -> (r: bool)
        requires
            self.wf(),
        ensures
            r == self@.contains_key(path@),
    {
        self.found.contains_key(path)
    }

    /// The kind of the file at `path`, if there is one.
    pub fn kind(&self, path: &str) -> (r: Option<FileKind>)
        requires
            self.wf(),
        ensures
            r == if self@.contains_key(path@) {
                Some(self@[path@])
            } else {
                None
            },
    {
        match self.found.get(path) {
            Some(k) => Some(*k),
            None => None,
        }
    }

    /// Whether `path` is a directory.
    pub fn is_dir(&self, path: &str) -> (r: bool)
        requires
            self.wf(),
        ensures
            r == (self@.contains_key(path@) && self@[path@] == FileKind::Directory),
    {
        match self.found.get(path) {
            Some(k) => *k == FileKind::Directory,
            None => false,
        }
    }

    /// Whether `path` is a regular file.
    pub fn is_file(&self, path: &str) -> (r: bool)
        requires
            self.wf(),
        ensures
            r == (self@.contains_key(path@) && self@[path@] == FileKind::RegularFile),
    {
        match self.found.get(path) {
            Some(k) => *k == FileKind::RegularFile,
            None => false,
        }
    }
}

} // verus!
