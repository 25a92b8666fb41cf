//! The nodes of a private tree.

use vstd::prelude::*;
use std::rc::Rc;
use crate::common::metadata::Metadata;
use crate::common::name_map::{NameMap, Shared};
use crate::common::share::share_rc;
use crate::error::FsError;
use crate::common::digest::sha3_256;
use crate::common::random::random_bytes;
use crate::private::header::{PrivateNodeHeader, PrivateRef};
use crate::private::ratchet::{ratchet_origin, ratchet_successor};

verus! {

/// A file of a private tree.
#[derive(Debug)]
pub struct PrivateFile {
    pub header: PrivateNodeHeader,
    pub metadata: Metadata,
    pub content: Vec<u8>,
}

/// A directory of a private tree. Its entries say where in the forest each
/// child is found.
#[derive(Debug)]
pub struct PrivateDirectory {
    pub header: PrivateNodeHeader,
    pub metadata: Metadata,
    pub entries: NameMap<PrivateRef>,
}

/// A node of a private tree.
#[derive(Debug)]
pub enum PrivateNode {
    Dir(Rc<PrivateDirectory>),
    File(Rc<PrivateFile>),
}

impl Shared for PrivateNode {
    fn share(&self) -> (other: Self) {
        match self {
            PrivateNode::Dir(dir) => PrivateNode::Dir(share_rc(dir)),
            PrivateNode::File(file) => PrivateNode::File(share_rc(file)),
        }
    }
}

impl PrivateNode {
    /// The header of the node as contracts speak of it.
    pub open spec fn spec_header(&self) -> PrivateNodeHeader {
        match self {
            PrivateNode::Dir(dir) => dir.header,
            PrivateNode::File(file) => file.header,
        }
    }

    /// The times of the node as contracts speak of them.
    pub open spec fn spec_metadata(&self) -> Metadata {
        match self {
            PrivateNode::Dir(dir) => dir.metadata,
            PrivateNode::File(file) => file.metadata,
        }
    }

    /// The times of the node.
    pub fn get_metadata(&self) -> (metadata: Metadata)
        ensures
            metadata == self.spec_metadata(),
    {
        match self {
            PrivateNode::Dir(dir) => dir.metadata,
            PrivateNode::File(file) => file.metadata,
        }
    }

    /// Whether `later` is this node with its time of change set to `time`.
    pub open spec fn touched(&self, time: i64, later: PrivateNode) -> bool {
        match (*self, later) {
            (PrivateNode::File(before), PrivateNode::File(after)) => {
                &&& after.metadata == (Metadata {
                    created: before.metadata.created,
                    modified: Some(time),
                })
                &&& after.header == before.header
                &&& after.content@ == before.content@
            },
            (PrivateNode::Dir(before), PrivateNode::Dir(after)) => {
                &&& after.metadata == (Metadata {
                    created: before.metadata.created,
                    modified: Some(time),
                })
                &&& after.header == before.header
                &&& after.entries@ == before.entries@
            },
            _ => false,
        }
    }

    /// The node with its time of change set to `time`.
    pub fn upsert_mtime(&self, time: i64) -> (later: PrivateNode)
        ensures
            self.touched(time, later),
    {
        match self {
            PrivateNode::File(file) => {
                let mut file = file.duplicate();
                file.metadata.upsert_mtime(time);
                PrivateNode::File(Rc::new(file))
            },
            PrivateNode::Dir(dir) => {
                let mut dir = dir.duplicate();
                dir.metadata.upsert_mtime(time);
                PrivateNode::Dir(Rc::new(dir))
            },
        }
    }

    /// The header of the node.
    pub fn get_header(&self) -> (header: &PrivateNodeHeader)
        ensures
            *header == self.spec_header(),
    {
        match self {
            PrivateNode::Dir(dir) => &dir.header,
            PrivateNode::File(file) => &file.header,
        }
    }

    /// Whether the node is a directory.
    pub fn is_dir(&self) -> (dir: bool)
        ensures
            dir == (self is Dir),
    {
        match self {
            PrivateNode::Dir(_) => true,
            PrivateNode::File(_) => false,
        }
    }

    /// Whether the node is a file.
    pub fn is_file(&self) -> (file: bool)
        ensures
            file == (self is File),
    {
        match self {
            PrivateNode::Dir(_) => false,
            PrivateNode::File(_) => true,
        }
    }

    /// The node as a directory.
    pub fn as_dir(&self) -> (dir: Result<Rc<PrivateDirectory>, FsError>)
        ensures
            dir == (match self {
                PrivateNode::Dir(d) => Ok::<Rc<PrivateDirectory>, FsError>(*d),
                PrivateNode::File(_) => Err(FsError::NotADirectory),
            }),
    {
        match self {
            PrivateNode::Dir(dir) => Ok(share_rc(dir)),
            PrivateNode::File(_) => Err(FsError::NotADirectory),
        }
    }

    /// The node as a file.
    pub fn as_file(&self) -> (file: Result<Rc<PrivateFile>, FsError>)
        ensures
            file == (match self {
                PrivateNode::File(f) => Ok::<Rc<PrivateFile>, FsError>(*f),
                PrivateNode::Dir(_) => Err(FsError::NotAFile),
            }),
    {
        match self {
            PrivateNode::File(file) => Ok(share_rc(file)),
            PrivateNode::Dir(_) => Err(FsError::NotAFile),
        }
    }
}

impl PrivateDirectory {
    /// Whether this is a directory just made below a node with bare name
    /// `parent_bare_name`: it has no entries, its times are `time`, its bare
    /// name comes from the parent's and its own identifier, and its ratchet
    /// stands at the first state of a chain.
    pub open spec fn is_fresh(&self, parent_bare_name: Seq<u8>, time: i64) -> bool {
        &&& self.entries@ == Map::<Seq<char>, PrivateRef>::empty()
        &&& self.metadata == (Metadata { created: Some(time), modified: Some(time) })
        &&& self.header.bare_name@ == sha3_256(parent_bare_name + self.header.inumber@)
        &&& exists|seed: Seq<u8>| self.header.ratchet@ == ratchet_origin(seed)
    }

    /// Whether this is the revision that follows `earlier`: the same node
    /// one ratchet step on, with the same times.
    pub open spec fn follows_on(&self, earlier: PrivateDirectory) -> bool {
        &&& ratchet_successor(earlier.header.ratchet@) == Some(self.header.ratchet@)
        &&& self.header.inumber == earlier.header.inumber
        &&& self.header.bare_name == earlier.header.bare_name
        &&& self.metadata == earlier.metadata
    }

    /// An empty directory below a node with bare name `parent_bare_name`,
    /// with the identifier `inumber` and the ratchet chain that grows from
    /// `ratchet_seed`.
    pub fn with_seed(
        parent_bare_name: &[u8; 32],
        time: i64,
        ratchet_seed: &[u8; 32],
        inumber: [u8; 32],
    ) -> (dir: PrivateDirectory)
        ensures
            dir.is_fresh(parent_bare_name@, time),
            dir.header.inumber == inumber,
            dir.header.ratchet@ == ratchet_origin(ratchet_seed@),
    {
        PrivateDirectory {
            header: PrivateNodeHeader::with_seed(parent_bare_name, ratchet_seed, inumber),
            metadata: Metadata::new(time),
            entries: NameMap::new(),
        }
    }

    /// An empty directory below a node with bare name `parent_bare_name`,
    /// with an identifier and a ratchet chain drawn at random.
    pub fn new(parent_bare_name: &[u8; 32], time: i64) -> (dir: PrivateDirectory)
        ensures
            dir.is_fresh(parent_bare_name@, time),
    {
        let ratchet_seed = random_bytes();
        let inumber = random_bytes();
        PrivateDirectory::with_seed(parent_bare_name, time, &ratchet_seed, inumber)
    }

    /// Moves the directory on to its next revision.
    pub fn advance_ratchet(&mut self)
        ensures
            final(self).follows_on(*old(self)),
            final(self).entries == old(self).entries,
    {
        self.header.advance_ratchet();
    }

    /// A directory of its own with the same header, times and entries.
    pub fn duplicate(&self) -> (copy: PrivateDirectory)
        ensures
            copy.header == self.header,
            copy.metadata == self.metadata,
            copy.entries@ == self.entries@,
    {
        PrivateDirectory {
            header: self.header.share(),
            metadata: self.metadata,
            entries: self.entries.duplicate(),
        }
    }
}

impl PrivateFile {
    /// A file with the given content below a node with bare name
    /// `parent_bare_name`, with the identifier `inumber` and the ratchet
    /// chain that grows from `ratchet_seed`.
    pub fn with_seed(
        parent_bare_name: &[u8; 32],
        time: i64,
        content: Vec<u8>,
        ratchet_seed: &[u8; 32],
        inumber: [u8; 32],
    ) -> (file: PrivateFile)
        ensures
            file.content == content,
            file.metadata == (Metadata { created: Some(time), modified: Some(time) }),
            file.header.inumber == inumber,
            file.header.ratchet@ == ratchet_origin(ratchet_seed@),
            file.header.bare_name@ == sha3_256(parent_bare_name@ + inumber@),
    {
        PrivateFile {
            header: PrivateNodeHeader::with_seed(parent_bare_name, ratchet_seed, inumber),
            metadata: Metadata::new(time),
            content,
        }
    }

    /// A file with the given content below a node with bare name
    /// `parent_bare_name`, with an identifier and a ratchet chain drawn at
    /// random.
    pub fn with_content(parent_bare_name: &[u8; 32], time: i64, content: Vec<u8>) -> (file:
        PrivateFile)
        ensures
            file.content == content,
            file.metadata == (Metadata { created: Some(time), modified: Some(time) }),
            file.header.bare_name@ == sha3_256(parent_bare_name@ + file.header.inumber@),
    {
        let ratchet_seed = random_bytes();
        let inumber = random_bytes();
        PrivateFile::with_seed(parent_bare_name, time, content, &ratchet_seed, inumber)
    }

    /// A file of its own with the same header, times and content.
    pub fn duplicate(&self) -> (copy: PrivateFile)
        ensures
            copy.header == self.header,
            copy.metadata == self.metadata,
            copy.content@ == self.content@,
    {
        PrivateFile {
            header: self.header.share(),
            metadata: self.metadata,
            content: self.content.clone(),
        }
    }

    /// The bytes of the file.
    pub fn get_content(&self) -> (content: Vec<u8>)
        ensures
            content@ == self.content@,
    {
        self.content.clone()
    }
}

} // verus!
