//! The nodes of a public tree.

use vstd::prelude::*;
use std::rc::Rc;
use crate::common::cid::Cid;
use crate::common::metadata::Metadata;
use crate::common::name_map::{NameMap, Shared};
use crate::common::share::share_rc;
use crate::error::FsError;

verus! {

/// The version of the layout of a node.
#[derive(Clone, Copy, Debug, PartialEq, Eq, Structural)]
pub struct Version {
    pub major: u64,
    pub minor: u64,
    pub patch: u64,
}

/// A file of a public tree: the address of its content, and its times.
#[derive(Debug, PartialEq, Eq)]
pub struct PublicFile {
    pub metadata: Metadata,
    pub userland: Cid,
    pub previous: Vec<Cid>,
}

/// A directory of a public tree: its entries by name, and its times.
#[derive(Debug, PartialEq, Eq)]
pub struct PublicDirectory {
    pub version: Version,
    pub metadata: Metadata,
    pub userland: NameMap<PublicNode>,
    pub previous: Vec<Cid>,
}

/// A node of a public tree.
#[derive(Debug, PartialEq, Eq)]
pub enum PublicNode {
    File(Rc<PublicFile>),
    Dir(Rc<PublicDirectory>),
}

impl Shared for PublicNode {
    fn share(&self) -> (other: Self) {
        match self {
            PublicNode::File(file) => PublicNode::File(share_rc(file)),
            PublicNode::Dir(dir) => PublicNode::Dir(share_rc(dir)),
        }
    }
}

/// The addresses in a list, as plain values.
pub open spec fn addresses(cids: Seq<Cid>) -> Seq<Seq<u8>> {
    Seq::new(cids.len(), |i: int| cids[i]@)
}

/// A list of its own of the same addresses.
pub fn duplicate_cids(cids: &Vec<Cid>) -> (copy: Vec<Cid>)
    ensures
        addresses(copy@) == addresses(cids@),
{
    let mut copy: Vec<Cid> = Vec::new();
    let mut i: usize = 0;
    while i < cids.len()
        invariant
            i <= cids@.len(),
            copy@.len() == i,
            forall|j: int| 0 <= j < i ==> copy@[j]@ == cids@[j]@,
        decreases cids@.len() - i,
    {
        copy.push(cids[i].duplicate());
        i = i + 1;
    }
    copy
}

impl PublicFile {
    /// A file made at `time` with the content at `userland`.
    pub fn new(time: i64, userland: Cid) -> (file: PublicFile)
        ensures
            file.metadata == (Metadata { created: Some(time), modified: Some(time) }),
            file.userland == userland,
            file.previous@ == Seq::<Cid>::empty(),
    {
        PublicFile { metadata: Metadata::new(time), userland, previous: Vec::new() }
    }

    /// The addresses of the revisions that this one follows.
    pub fn get_previous(&self) -> (previous: &Vec<Cid>)
        ensures
            *previous == self.previous,
    {
        &self.previous
    }

    /// The times of the file.
    pub fn get_metadata(&self) -> (metadata: &Metadata)
        ensures
            *metadata == self.metadata,
    {
        &self.metadata
    }

    /// The address of the content.
    pub fn get_content_cid(&self) -> (cid: &Cid)
        ensures
            *cid == self.userland,
    {
        &self.userland
    }

    /// A file of its own with the same times, content and earlier revisions.
    pub fn duplicate(&self) -> (copy: PublicFile)
        ensures
            copy.metadata == self.metadata,
            copy.userland@ == self.userland@,
            addresses(copy.previous@) == addresses(self.previous@),
    {
        PublicFile {
            metadata: self.metadata,
            userland: self.userland.duplicate(),
            previous: duplicate_cids(&self.previous),
        }
    }
}

impl PublicNode {
    /// The times of the node as contracts speak of them.
    pub open spec fn spec_metadata(&self) -> Metadata {
        match self {
            PublicNode::File(file) => file.metadata,
            PublicNode::Dir(dir) => dir.metadata,
        }
    }

    /// The times of the node.
    pub fn get_metadata(&self) -> (metadata: Metadata)
        ensures
            metadata == self.spec_metadata(),
    {
        match self {
            PublicNode::File(file) => file.metadata,
            PublicNode::Dir(dir) => dir.metadata,
        }
    }

    /// Whether the node is a directory.
    pub fn is_dir(&self) -> (dir: bool)
        ensures
            dir == (self is Dir),
    {
        match self {
            PublicNode::Dir(_) => true,
            PublicNode::File(_) => false,
        }
    }

    /// Whether the node is a file.
    pub fn is_file(&self) -> (file: bool)
        ensures
            file == (self is File),
    {
        match self {
            PublicNode::Dir(_) => false,
            PublicNode::File(_) => true,
        }
    }

    /// The node as a directory.
    pub fn as_dir(&self) -> (dir: Result<Rc<PublicDirectory>, FsError>)
        ensures
            dir == (match self {
                PublicNode::Dir(d) => Ok::<Rc<PublicDirectory>, FsError>(*d),
                PublicNode::File(_) => Err(FsError::NotADirectory),
            }),
    {
        match self {
            PublicNode::Dir(dir) => Ok(share_rc(dir)),
            PublicNode::File(_) => Err(FsError::NotADirectory),
        }
    }

    /// The node as a file.
    pub fn as_file(&self) -> (file: Result<Rc<PublicFile>, FsError>)
        ensures
            file == (match self {
                PublicNode::File(f) => Ok::<Rc<PublicFile>, FsError>(*f),
                PublicNode::Dir(_) => Err(FsError::NotAFile),
            }),
    {
        match self {
            PublicNode::File(file) => Ok(share_rc(file)),
            PublicNode::Dir(_) => Err(FsError::NotAFile),
        }
    }

    /// Whether `later` is this node with its time of change set to `time`.
    pub open spec fn touched(&self, time: i64, later: PublicNode) -> bool {
        match (*self, later) {
            (PublicNode::File(before), PublicNode::File(after)) => {
                &&& after.metadata == (Metadata {
                    created: before.metadata.created,
                    modified: Some(time),
                })
                &&& after.userland@ == before.userland@
                &&& addresses(after.previous@) == addresses(before.previous@)
            },
            (PublicNode::Dir(before), PublicNode::Dir(after)) => {
                &&& after.metadata == (Metadata {
                    created: before.metadata.created,
                    modified: Some(time),
                })
                &&& after.version == before.version
                &&& after.userland@ == before.userland@
                &&& addresses(after.previous@) == addresses(before.previous@)
            },
            _ => false,
        }
    }

    /// The node with its time of change set to `time`.
    pub fn upsert_mtime(&self, time: i64) -> (later: PublicNode)
        ensures
            self.touched(time, later),
    {
        match self {
            PublicNode::File(file) => {
                let mut file = file.duplicate();
                file.metadata.upsert_mtime(time);
                PublicNode::File(Rc::new(file))
            },
            PublicNode::Dir(dir) => {
                let mut dir = dir.duplicate();
                dir.metadata.upsert_mtime(time);
                PublicNode::Dir(Rc::new(dir))
            },
        }
    }
}

impl PublicDirectory {
    /// Whether this is a directory as it is made at `time`: without entries
    /// and without earlier revisions.
    pub open spec fn is_new(&self, time: i64) -> bool {
        &&& self.version == (Version { major: 0, minor: 2, patch: 0 })
        &&& self.metadata == (Metadata { created: Some(time), modified: Some(time) })
        &&& self.userland@ == Map::<Seq<char>, PublicNode>::empty()
        &&& self.previous@ == Seq::<Cid>::empty()
    }

    /// Whether this directory is `other` but for its entries.
    pub open spec fn same_but_entries(&self, other: PublicDirectory) -> bool {
        &&& self.version == other.version
        &&& self.metadata == other.metadata
        &&& addresses(self.previous@) == addresses(other.previous@)
    }

    /// A directory without entries, made at `time`.
    pub fn new(time: i64) -> (dir: PublicDirectory)
        ensures
            dir.is_new(time),
    {
        PublicDirectory {
            version: Version { major: 0, minor: 2, patch: 0 },
            metadata: Metadata::new(time),
            userland: NameMap::new(),
            previous: Vec::new(),
        }
    }

    /// The addresses of the revisions that this one follows.
    pub fn get_previous(&self) -> (previous: &Vec<Cid>)
        ensures
            *previous == self.previous,
    {
        &self.previous
    }

    /// The times of the directory.
    pub fn get_metadata(&self) -> (metadata: &Metadata)
        ensures
            *metadata == self.metadata,
    {
        &self.metadata
    }

    /// A directory of its own with the same entries, each node shared with
    /// this one.
    pub fn duplicate(&self) -> (copy: PublicDirectory)
        ensures
            copy.same_but_entries(*self),
            copy.userland@ == self.userland@,
            copy.userland.names() == self.userland.names(),
            copy.userland.values() == self.userland.values(),
    {
        PublicDirectory {
            version: self.version,
            metadata: self.metadata,
            userland: self.userland.duplicate(),
            previous: duplicate_cids(&self.previous),
        }
    }
}

} // verus!
