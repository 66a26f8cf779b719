//! What the library asks of a file system: reading a tree, and deleting
//! from it. The library itself touches no disk; whoever uses it brings an
//! implementation of these traits.

use vstd::prelude::*;
use crate::models::{Failure, FileInfo, SimpleFileKind};

verus! {

/// Read-only access to a tree of files.
pub trait FileSystem {
    /// The directory in which a scan starts.
    fn current_directory(&self) -> Result<FileInfo, Failure>;

    /// The children of `file`, in the order in which the directory lists
    /// them.
    fn list_files(&self, file: &FileInfo) -> Result<Vec<FileInfo>, Failure>;

    /// The number of bytes that `file` takes, everything below it included.
    fn file_size(&self, file: &FileInfo) -> Result<u64, Failure>;
}

/// The destructive side of a file system.
pub trait FileSystemClean {
    /// Deletes `file`: a directory with everything below it, a file alone.
    fn remove_file(&self, file: &FileInfo) -> Result<(), Failure>;
}

/// How an entry is deleted.
#[derive(Debug, Clone, Copy, PartialEq, Eq, Structural)]
pub enum RemovalMode {
    /// With everything below it.
    Recursive,
    /// Alone.
    Single,
}

/// How `file` is to be deleted: a directory with everything below it, a
/// file alone.
pub fn removal_mode(file: &FileInfo) -> (mode: RemovalMode)
    ensures
        mode == if file.kind == SimpleFileKind::Directory {
            RemovalMode::Recursive
        } else {
            RemovalMode::Single
        },
{
    match file.kind {
        SimpleFileKind::Directory => RemovalMode::Recursive,
        SimpleFileKind::File => RemovalMode::Single,
    }
}

/// A [`FileSystemClean`] that deletes nothing and always reports success.
pub struct MockFileSystemClean;

impl FileSystemClean for MockFileSystemClean {
    fn remove_file(&self, _file: &FileInfo) -> (result: Result<(), Failure>)
        ensures
            result is Ok,
    {
        Ok(())
    }
}

} // verus!
