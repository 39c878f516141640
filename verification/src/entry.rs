//! A directory entry: a file or a directory.

use vstd::prelude::*;

verus! {

use crate::dir::Dir;
use crate::file::File;
use crate::metadata::Metadata;

/// A decoded directory entry.
pub enum Entry {
    /// A regular file.
    FileKind(File),
    /// A directory.
    DirKind(Dir),
}

impl Entry {
    /// The name of the file or directory corresponding to this entry.
    pub fn name(&self) -> (r: &String)
        ensures
            r@ == crate::dir::entry_name_chars(self),
    {
        match self {
            Entry::FileKind(file) => file.name(),
            Entry::DirKind(dir) => dir.name(),
        }
    }

    /// The metadata associated with the entry.
    pub fn metadata(&self) -> (r: &Metadata)
        ensures
            *r == match self {
                Entry::FileKind(f) => f.meta_(),
                Entry::DirKind(d) => d.meta_(),
            },
    {
        match self {
            Entry::FileKind(file) => file.meta(),
            Entry::DirKind(dir) => dir.meta(),
        }
    }

    /// If `self` is a file, returns `Some` of a reference to the file.
    /// Otherwise returns `None`.
    pub fn as_file(&self) -> (r: Option<&File>)
        ensures
            match self {
                Entry::FileKind(f) => r matches Some(rf) && *rf == f,
                Entry::DirKind(_) => r is None,
            },
    {
        match self {
            Entry::FileKind(file) => Some(file),
            Entry::DirKind(_) => None,
        }
    }

    /// If `self` is a directory, returns `Some` of a reference to the
    /// directory. Otherwise returns `None`.
    pub fn as_dir(&self) -> (r: Option<&Dir>)
        ensures
            match self {
                Entry::FileKind(_) => r is None,
                Entry::DirKind(d) => r matches Some(rd) && *rd == d,
            },
    {
        match self {
            Entry::FileKind(_) => None,
            Entry::DirKind(dir) => Some(dir),
        }
    }

    /// If `self` is a file, returns `Some` of the file. Otherwise
    /// returns `None`.
    pub fn into_file(self) -> (r: Option<File>)
        ensures
            match self {
                Entry::FileKind(f) => r matches Some(rf) && rf == f,
                Entry::DirKind(_) => r is None,
            },
    {
        match self {
            Entry::FileKind(file) => Some(file),
            Entry::DirKind(_) => None,
        }
    }

    /// If `self` is a directory, returns `Some` of the directory.
    /// Otherwise returns `None`.
    pub fn into_dir(self) -> (r: Option<Dir>)
        ensures
            match self {
                Entry::FileKind(_) => r is None,
                Entry::DirKind(d) => r matches Some(rd) && rd == d,
            },
    {
        match self {
            Entry::FileKind(_) => None,
            Entry::DirKind(dir) => Some(dir),
        }
    }
}

} // verus!
