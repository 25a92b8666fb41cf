//! The ways in which an operation on the file system fails.

use vstd::prelude::*;
use vstd::string::*;

verus! {

/// Why an operation on the file system failed.
#[derive(Clone, Copy, Debug, PartialEq, Eq, Structural)]
pub enum FsError {
    /// A path was empty where it must name something.
    InvalidPath,
    /// A path leads through a name, or ends at one, that is not there.
    NotFound,
    /// A path leads through a file, or ends at one where a directory is asked for.
    NotADirectory,
    /// A path ends at a directory where a file is asked for.
    NotAFile,
    /// A file was to be put where a directory stands.
    DirectoryAlreadyExists,
    /// A node was to be moved to a name that is taken.
    FileAlreadyExists,
    /// No chain of revisions within the budget leads from the older ratchet
    /// state to the newer one.
    NoIntermediateRatchet,
    /// The block store holds no block under a content address.
    CIDNotFoundInBlockstore,
    /// Bytes that should have been a content address are none.
    InvalidCid,
}

impl FsError {
    /// The text of the error as contracts speak of it.
    pub open spec fn spec_message(self) -> Seq<char> {
        match self {
            FsError::InvalidPath => "Invalid WNFS path"@,
            FsError::NotFound => "Cannot find a file or directory"@,
            FsError::NotADirectory => "Expected a directory"@,
            FsError::NotAFile => "Expected a file"@,
            FsError::DirectoryAlreadyExists => "Directory already exists"@,
            FsError::FileAlreadyExists => "File already exists"@,
            FsError::NoIntermediateRatchet => "Cannot find an intermediate ratchet"@,
            FsError::CIDNotFoundInBlockstore => "Cannot find the CID in the block store"@,
            FsError::InvalidCid => "Invalid content address"@,
        }
    }

    /// The error in words.
    pub fn message(&self) -> (text: String)
        ensures
            text@ == self.spec_message(),
    {
        match self {
            FsError::InvalidPath => String::from_str("Invalid WNFS path"),
            FsError::NotFound => String::from_str("Cannot find a file or directory"),
            FsError::NotADirectory => String::from_str("Expected a directory"),
            FsError::NotAFile => String::from_str("Expected a file"),
            FsError::DirectoryAlreadyExists => String::from_str("Directory already exists"),
            FsError::FileAlreadyExists => String::from_str("File already exists"),
            FsError::NoIntermediateRatchet => String::from_str(
                "Cannot find an intermediate ratchet",
            ),
            FsError::CIDNotFoundInBlockstore => String::from_str(
                "Cannot find the CID in the block store",
            ),
            FsError::InvalidCid => String::from_str("Invalid content address"),
        }
    }
}

} // verus!
