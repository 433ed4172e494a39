//! Filesystem resources: errors and the comparisons of the filesystem checkers.
use vstd::prelude::*;

use crate::resource::{ResourceChecker, ResourceCheckerObj};
use crate::stamp::{is_file_stamp, FileContent, FileStamp, FileStamper, Timestamp};

verus! {

/// Kinds of filesystem errors.
#[derive(Clone, Copy, PartialEq, Eq, Hash, Debug)]
pub enum ErrorKind {
    NotFound,
    PermissionDenied,
    AlreadyExists,
    InvalidInput,
    Unsupported,
    Other,
}

/// Filesystem resource error, holding the kind of the error.
#[derive(Clone, Copy, PartialEq, Eq, Hash, Debug)]
pub struct FsError(pub ErrorKind);

impl FsError {
    /// Creates an error of `kind`.
    pub fn new(kind: ErrorKind) -> (r: FsError)
        ensures
            r.0 == kind,
    {
        FsError(kind)
    }

    /// The kind of this error.
    pub fn kind(&self) -> (r: ErrorKind)
        ensures
            r == self.0,
    {
        self.0
    }
}

/// Filesystem checker that compares the last modified dates of files and directories.
#[derive(Clone, Copy, PartialEq, Eq, Structural, Hash, Debug, Default)]
pub struct ModifiedChecker;

impl ModifiedChecker {
    /// The stamper of this checker.
    pub fn stamper(&self) -> (r: FileStamper)
        ensures
            r == FileStamper::Modified,
    {
        FileStamper::Modified
    }

    /// Stamps a path that `exists`, was last `modified`, and has `content`, as this checker does.
    pub fn stamp(&self, exists: bool, modified: Option<Timestamp>, content: &FileContent) -> (r: FileStamp)
        ensures
            is_file_stamp(FileStamper::Modified, exists, modified, *content, r),
    {
        FileStamper::Modified.stamp(exists, modified, content)
    }
}

impl ResourceChecker for ModifiedChecker {
    open spec fn spec_obj(&self) -> ResourceCheckerObj {
        ResourceCheckerObj::Modified
    }

    fn to_obj(&self) -> (r: ResourceCheckerObj) {
        ResourceCheckerObj::Modified
    }
}

/// Filesystem checker that compares whether files and directories exist.
#[derive(Clone, Copy, PartialEq, Eq, Structural, Hash, Debug, Default)]
pub struct ExistsChecker;

impl ExistsChecker {
    /// The stamper of this checker.
    pub fn stamper(&self) -> (r: FileStamper)
        ensures
            r == FileStamper::Exists,
    {
        FileStamper::Exists
    }

    /// Stamps a path that `exists`, was last `modified`, and has `content`, as this checker does.
    pub fn stamp(&self, exists: bool, modified: Option<Timestamp>, content: &FileContent) -> (r: FileStamp)
        ensures
            is_file_stamp(FileStamper::Exists, exists, modified, *content, r),
    {
        FileStamper::Exists.stamp(exists, modified, content)
    }
}

impl ResourceChecker for ExistsChecker {
    open spec fn spec_obj(&self) -> ResourceCheckerObj {
        ResourceCheckerObj::Exists
    }

    fn to_obj(&self) -> (r: ResourceCheckerObj) {
        ResourceCheckerObj::Exists
    }
}

/// Filesystem checker that compares digests of file contents and directory listings.
#[derive(Clone, Copy, PartialEq, Eq, Structural, Hash, Debug, Default)]
pub struct HashChecker;

impl HashChecker {
    /// The stamper of this checker.
    pub fn stamper(&self) -> (r: FileStamper)
        ensures
            r == FileStamper::Hash,
    {
        FileStamper::Hash
    }

    /// Stamps a path that `exists`, was last `modified`, and has `content`, as this checker does.
    pub fn stamp(&self, exists: bool, modified: Option<Timestamp>, content: &FileContent) -> (r: FileStamp)
        ensures
            is_file_stamp(FileStamper::Hash, exists, modified, *content, r),
    {
        FileStamper::Hash.stamp(exists, modified, content)
    }
}

impl ResourceChecker for HashChecker {
    open spec fn spec_obj(&self) -> ResourceCheckerObj {
        ResourceCheckerObj::Hash
    }

    fn to_obj(&self) -> (r: ResourceCheckerObj) {
        ResourceCheckerObj::Hash
    }
}

} // verus!
