//! Finding, making and changing nodes in a public tree.
//!
//! A tree is a value. Every change gives a new root and leaves the old tree
//! as it was; the new tree shares with the old one every node that the
//! change did not touch.

use vstd::prelude::*;
use vstd::slice::slice_subrange;
use std::rc::Rc;
use crate::common::cid::Cid;
use crate::common::metadata::Metadata;
use crate::common::name_map::{in_order, Shared};
use crate::common::pathnodes::listed_names;
use crate::common::pathnodes::{
    descend, lemma_descend_len, names_of, PathNodes, PathNodesResult,
};
use crate::common::share::{held, share_rc};
use crate::error::FsError;
use crate::public::node::{addresses, PublicDirectory, PublicFile, PublicNode};

verus! {

/// What an operation on a public tree gives back.
#[derive(Debug)]
pub struct PublicOpResult<T> {
    /// The root of the tree after the operation.
    pub root_dir: Rc<PublicDirectory>,
    /// What the operation was asked for.
    pub result: T,
}

/// Whether `dir` and the directories below it along the names of `nodes`
/// are what fixing up gives from level `level` on: each is the directory of
/// `nodes` at its level but for one entry, the one under the name taken
/// there, which holds the directory of the next level; and below the last
/// level stands the tail of `nodes` itself.
pub open spec fn commits(
    nodes: PathNodes<PublicDirectory>,
    level: int,
    dir: Rc<PublicDirectory>,
) -> bool
    decreases nodes.path@.len() - level,
{
    if level >= nodes.path@.len() {
        dir == nodes.tail
    } else {
        let parent = nodes.path@[level].0;
        let name = nodes.path@[level].1@;
        &&& dir.same_but_entries(*parent)
        &&& dir.userland@.contains_key(name)
        &&& dir.userland@[name] matches PublicNode::Dir(child)
        &&& dir.userland@ == parent.userland@.insert(name, PublicNode::Dir(child))
        &&& commits(nodes, level + 1, child)
    }
}

impl PublicDirectory {
    /// The node under `name`, as contracts speak of it.
    pub open spec fn spec_lookup_node(&self, name: Seq<char>) -> Option<PublicNode> {
        if self.userland@.contains_key(name) {
            Some(self.userland@[name])
        } else {
            None
        }
    }

    /// The directory to which `name` leads from `dir`, if it leads to one.
    pub open spec fn spec_child(dir: PublicDirectory, name: Seq<char>) -> Option<PublicDirectory> {
        match dir.spec_lookup_node(name) {
            Some(PublicNode::Dir(child)) => Some(*child),
            _ => None,
        }
    }

    /// The way down a public tree as a function of directory and name.
    pub open spec fn child() -> spec_fn(PublicDirectory, Seq<char>) -> Option<PublicDirectory> {
        |dir: PublicDirectory, name: Seq<char>| PublicDirectory::spec_child(dir, name)
    }

    /// The directory that `path` leads to from this one, where every name of
    /// it leads to a directory.
    pub open spec fn spec_reach(&self, path: Seq<Seq<char>>) -> Option<PublicDirectory> {
        let found = descend(PublicDirectory::child(), *self, path);
        if found.len() == path.len() + 1 {
            Some(found.last())
        } else {
            None
        }
    }

    /// Whether a file stands in the way of `path` from this directory.
    pub open spec fn blocked_by_file(&self, path: Seq<Seq<char>>) -> bool {
        let found = descend(PublicDirectory::child(), *self, path);
        found.len() <= path.len() && found.last().spec_lookup_node(path[found.len() - 1]) is Some
    }

    /// Why `path` does not lead to a directory, where it does not: a file
    /// stands in the way, or a name on the way is not there.
    pub open spec fn reach_failure(&self, path: Seq<Seq<char>>) -> FsError {
        if self.blocked_by_file(path) {
            FsError::NotADirectory
        } else {
            FsError::NotFound
        }
    }

    /// Whether `nodes` is the way along `path` from this directory with what
    /// was missing of it made anew at `time`: the directories that the path
    /// leads through as far as they are there, then new, empty ones.
    #[verifier::opaque]
    pub open spec fn reaches_or_creates(
        &self,
        path: Seq<Seq<char>>,
        time: i64,
        nodes: PathNodes<PublicDirectory>,
    ) -> bool {
        let found = descend(PublicDirectory::child(), *self, path);
        &&& nodes.names() == path
        &&& forall|i: int| 0 <= i < found.len() ==> #[trigger] nodes.dirs()[i] == found[i]
        &&& forall|i: int|
            found.len() <= i <= path.len() ==> (#[trigger] nodes.dirs()[i]).is_new(time)
    }

    /// Where a way was reached or made: it has a directory for each name of
    /// the path, starts at this directory, and ends in the directory that the
    /// path leads to, where it leads to one, and in a new one where not.
    pub proof fn lemma_reaches_or_creates(
        &self,
        path: Seq<Seq<char>>,
        time: i64,
        nodes: PathNodes<PublicDirectory>,
    )
        requires
            self.reaches_or_creates(path, time, nodes),
        ensures
            nodes.path@.len() == path.len(),
            nodes.names() == path,
            nodes.dirs()[0] == *self,
            match self.spec_reach(path) {
                Some(end) => *nodes.tail == end,
                None => nodes.tail.is_new(time),
            },
    {
        reveal(PublicDirectory::reaches_or_creates);
        lemma_descend_len(PublicDirectory::child(), *self, path);
        assert(nodes.dirs()[path.len() as int] == *nodes.tail);
    }

    /// The node that the directory holds under `path_segment`.
    pub fn lookup_node(&self, path_segment: &str) -> (node: Option<PublicNode>)
        ensures
            node == self.spec_lookup_node(path_segment@),
    {
        match self.userland.get(path_segment) {
            Some(node) => Some(node.share()),
            None => None,
        }
    }

    /// Follows `path_segments` down from this directory, as far as each name
    /// leads to a directory, and says where and why the way ended.
    pub fn get_path_nodes(self: Rc<Self>, path_segments: &[String]) -> (result: PathNodesResult<
        PublicDirectory,
    >)
        ensures
            match result {
                PathNodesResult::Complete(nodes) => {
                    &&& nodes.follows(PublicDirectory::child(), *self, names_of(path_segments@))
                    &&& nodes.path@.len() == path_segments@.len()
                },
                PathNodesResult::MissingLink(nodes, segment) => {
                    &&& nodes.follows(PublicDirectory::child(), *self, names_of(path_segments@))
                    &&& nodes.path@.len() < path_segments@.len()
                    &&& segment@ == path_segments@[nodes.path@.len() as int]@
                    &&& nodes.tail.spec_lookup_node(segment@) is None
                },
                PathNodesResult::NotADirectory(nodes, segment) => {
                    &&& nodes.follows(PublicDirectory::child(), *self, names_of(path_segments@))
                    &&& nodes.path@.len() < path_segments@.len()
                    &&& segment@ == path_segments@[nodes.path@.len() as int]@
                    &&& nodes.tail.spec_lookup_node(segment@) matches Some(PublicNode::File(_))
                },
            },
    {
        let ghost child = PublicDirectory::child();
        let ghost path = names_of(path_segments@);
        let ghost root = held(self);
        let mut working_node = share_rc(&self);
        let mut path_nodes: Vec<(Rc<PublicDirectory>, String)> = Vec::new();
        let mut i: usize = 0;
        proof {
            assert(path.skip(0) =~= path);
        }
        while i < path_segments.len()
            invariant
                i <= path_segments@.len(),
                path_nodes@.len() == i,
                root == held(self),
                path == names_of(path_segments@),
                child == PublicDirectory::child(),
                forall|j: int| 0 <= j < i ==> (#[trigger] path_nodes@[j]).1@ == path[j],
                descend(child, root, path) == Seq::new(i as nat, |j: int| *path_nodes@[j].0)
                    + descend(child, *working_node, path.skip(i as int)),
            decreases path_segments@.len() - i,
        {
            let segment = &path_segments[i];
            let ghost before = Seq::new(i as nat, |j: int| *path_nodes@[j].0);
            proof {
                assert(path.skip(i as int).skip(1) =~= path.skip(i + 1));
            }
            match working_node.lookup_node(segment.as_str()) {
                Some(PublicNode::Dir(directory)) => {
                    path_nodes.push((share_rc(&working_node), segment.clone()));
                    working_node = directory;
                },
                Some(PublicNode::File(_)) => {
                    let nodes = PathNodes { path: path_nodes, tail: working_node };
                    proof {
                        assert(nodes.dirs() =~= before + seq![*working_node]);
                        assert(nodes.names() =~= path.take(i as int));
                    }
                    return PathNodesResult::NotADirectory(nodes, segment.clone());
                },
                None => {
                    let nodes = PathNodes { path: path_nodes, tail: working_node };
                    proof {
                        assert(nodes.dirs() =~= before + seq![*working_node]);
                        assert(nodes.names() =~= path.take(i as int));
                    }
                    return PathNodesResult::MissingLink(nodes, segment.clone());
                },
            }
            i = i + 1;
        }
        let ghost before = Seq::new(i as nat, |j: int| *path_nodes@[j].0);
        let nodes = PathNodes { path: path_nodes, tail: working_node };
        proof {
            assert(nodes.dirs() =~= before + seq![*working_node]);
            assert(nodes.names() =~= path.take(i as int));
        }
        PathNodesResult::Complete(nodes)
    }

    /// A chain of new, empty directories made at `time`, one for each name
    /// and one more for the way to end in. It is not part of any tree.
    pub fn create_path_nodes(path_segments: &[String], time: i64) -> (nodes: PathNodes<
        PublicDirectory,
    >)
        ensures
            nodes.names() == names_of(path_segments@),
            forall|i: int| 0 <= i <= path_segments@.len() ==> (#[trigger] nodes.dirs()[i]).is_new(time),
    {
        let mut path: Vec<(Rc<PublicDirectory>, String)> = Vec::new();
        let mut i: usize = 0;
        while i < path_segments.len()
            invariant
                i <= path_segments@.len(),
                path@.len() == i,
                forall|j: int| 0 <= j < i ==> (#[trigger] path@[j]).1@ == path_segments@[j]@,
                forall|j: int| 0 <= j < i ==> (#[trigger] path@[j]).0.is_new(time),
            decreases path_segments@.len() - i,
        {
            path.push((Rc::new(PublicDirectory::new(time)), path_segments[i].clone()));
            i = i + 1;
        }
        let nodes = PathNodes { path, tail: Rc::new(PublicDirectory::new(time)) };
        proof {
            assert forall|i: int| 0 <= i <= path_segments@.len() implies (
            #[trigger] nodes.dirs()[i]).is_new(time) by {
            }
        }
        nodes
    }

    /// Follows `path_segments` down from this directory and makes new, empty
    /// directories, stamped with `time`, for what is missing of the way.
    /// Fails with `NotADirectory` where a file stands in the way.
    pub fn get_or_create_path_nodes(self: Rc<Self>, path_segments: &[String], time: i64) -> (result:
        Result<PathNodes<PublicDirectory>, FsError>)
        ensures
            match result {
                Ok(nodes) => !self.blocked_by_file(names_of(path_segments@))
                    && self.reaches_or_creates(names_of(path_segments@), time, nodes),
                Err(e) => e == FsError::NotADirectory && self.blocked_by_file(
                    names_of(path_segments@),
                ),
            },
    {
        let ghost path = names_of(path_segments@);
        let ghost found = descend(PublicDirectory::child(), held(self), path);
        proof {
            reveal(PublicDirectory::reaches_or_creates);
            lemma_descend_len(PublicDirectory::child(), held(self), path);
        }
        match share_rc(&self).get_path_nodes(path_segments) {
            PathNodesResult::Complete(nodes) => {
                proof {
                    assert(nodes.names() =~= path);
                }
                Ok(nodes)
            },
            PathNodesResult::NotADirectory(partial, _) => {
                Err(FsError::NotADirectory)
            },
            PathNodesResult::MissingLink(path_so_far, missing_link) => {
                let total = path_segments.len();
                let reached = path_so_far.path.len();
                let missing_path = slice_subrange(path_segments, reached + 1, total);
                let created = Self::create_path_nodes(missing_path, time);
                proof {
                    assert(created.names().len() == names_of(missing_path@).len());
                }
                let ghost so_far = path_so_far;
                let PathNodes { path: mut way, tail: last_found } = path_so_far;
                let PathNodes { path: mut made, tail } = created;
                let ghost created = PathNodes { path: made, tail };
                way.push((last_found, missing_link));
                way.append(&mut made);
                let nodes = PathNodes { path: way, tail };
                proof {
                    assert forall|i: int| 0 <= i < path.len() implies nodes.names()[i]
                        == path[i] by {
                        if i < reached {
                            assert(so_far.names()[i] == path.take(reached as int)[i]);
                        } else if i > reached {
                            assert(created.names()[i - reached - 1] == names_of(missing_path@)[i
                                - reached - 1]);
                        }
                    }
                    assert(nodes.names() =~= path);
                    assert forall|i: int| 0 <= i < found.len() implies #[trigger] nodes.dirs()[i]
                        == found[i] by {
                    }
                    assert forall|i: int| found.len() <= i <= path.len() implies (
                    #[trigger] nodes.dirs()[i]).is_new(time) by {
                        assert(nodes.dirs()[i] == created.dirs()[i - reached - 1]);
                    }
                }
                Ok(nodes)
            },
        }
    }

    /// Makes the ancestors of a changed directory refer to it: copies every
    /// directory on the way, from the deepest to the root, and puts into
    /// each copy, under the name taken there, the directory of the next
    /// level. Hands back the new root.
    ///
    /// The directories of `path_nodes` stay as they were, and every entry of
    /// theirs but the one on the way is shared with the copies.
    pub fn fix_up_path_nodes(path_nodes: PathNodes<PublicDirectory>) -> (root: Rc<PublicDirectory>)
        ensures
            commits(path_nodes, 0, root),
    {
        let mut working_dir = share_rc(&path_nodes.tail);
        let mut i: usize = path_nodes.path.len();
        while i > 0
            invariant
                i <= path_nodes.path@.len(),
                commits(path_nodes, i as int, working_dir),
            decreases i,
        {
            i = i - 1;
            let mut dir = path_nodes.path[i].0.duplicate();
            dir.userland.insert(path_nodes.path[i].1.clone(), PublicNode::Dir(share_rc(&working_dir)));
            let dir = Rc::new(dir);
            working_dir = dir;
        }
        working_dir
    }
}

impl PublicDirectory {
    /// Whether `root` is this tree with the directory at `path` replaced by
    /// `new_tail`: `old_tail` is the directory that stood at `path`, or a new,
    /// empty one made at `time` at the end of a way of new, empty
    /// directories where the path did not lead that far; and `root` and the
    /// directories below it along `path` are copies of the ones on the way
    /// that differ from them in the one entry that leads on, with `new_tail`
    /// at the end.
    #[verifier::opaque]
    pub open spec fn rebuilt_along(
        &self,
        path: Seq<Seq<char>>,
        time: i64,
        old_tail: Rc<PublicDirectory>,
        new_tail: Rc<PublicDirectory>,
        root: Rc<PublicDirectory>,
    ) -> bool {
        exists|nodes: PathNodes<PublicDirectory>|
            #![all_triggers]
            {
                &&& self.reaches_or_creates(path, time, nodes)
                &&& nodes.tail == old_tail
                &&& commits(PathNodes { path: nodes.path, tail: new_tail }, 0, root)
            }
    }

    /// The node at `path` below this directory: this directory for the empty
    /// path; otherwise what the directory that the path leads to but for its
    /// last name holds under that name.
    pub open spec fn spec_get_node(self: Rc<Self>, path: Seq<Seq<char>>) -> Result<
        Option<PublicNode>,
        FsError,
    > {
        if path.len() == 0 {
            Ok(Some(PublicNode::Dir(self)))
        } else {
            match self.spec_reach(path.drop_last()) {
                Some(parent) => Ok(parent.spec_lookup_node(path.last())),
                None => Err(self.reach_failure(path.drop_last())),
            }
        }
    }

    /// The directory that `path_segments` leads to from this one, with the
    /// way to it.
    fn reach(self: Rc<Self>, path_segments: &[String]) -> (found: Result<
        PathNodes<PublicDirectory>,
        FsError,
    >)
        ensures
            match found {
                Ok(nodes) => {
                    &&& self.spec_reach(names_of(path_segments@)) == Some(*nodes.tail)
                    &&& nodes.follows(PublicDirectory::child(), *self, names_of(path_segments@))
                    &&& nodes.path@.len() == path_segments@.len()
                    &&& forall|time: i64|
                        self.reaches_or_creates(names_of(path_segments@), time, nodes)
                },
                Err(e) => self.spec_reach(names_of(path_segments@)) is None && e
                    == self.reach_failure(names_of(path_segments@)),
            },
    {
        proof {
            lemma_descend_len(PublicDirectory::child(), held(self), names_of(path_segments@));
        }
        match self.get_path_nodes(path_segments) {
            PathNodesResult::Complete(nodes) => {
                proof {
                    reveal(PublicDirectory::reaches_or_creates);
                    assert(nodes.names() =~= names_of(path_segments@));
                }
                Ok(nodes)
            },
            PathNodesResult::MissingLink(partial, _) => {
                proof {
                    assert(partial.dirs().last() == *partial.tail);
                }
                Err(FsError::NotFound)
            },
            PathNodesResult::NotADirectory(partial, _) => {
                proof {
                    assert(partial.dirs().last() == *partial.tail);
                }
                Err(FsError::NotADirectory)
            },
        }
    }

    /// Follows a path and hands out the node at its end, if the directory
    /// before the end has one under the last name. Fails with
    /// `NotADirectory` where a file stands in the way, and with `NotFound`
    /// where a name on the way is not there.
    pub fn get_node(self: Rc<Self>, path_segments: &[String]) -> (found: Result<
        PublicOpResult<Option<PublicNode>>,
        FsError,
    >)
        ensures
            match found {
                Ok(r) => self.spec_get_node(names_of(path_segments@)) == Ok::<
                    Option<PublicNode>,
                    FsError,
                >(r.result) && r.root_dir == self,
                Err(e) => self.spec_get_node(names_of(path_segments@)) == Err::<
                    Option<PublicNode>,
                    FsError,
                >(e),
            },
    {
        if path_segments.len() == 0 {
            let node = PublicNode::Dir(share_rc(&self));
            return Ok(PublicOpResult { root_dir: self, result: Some(node) });
        }
        let last = path_segments.len() - 1;
        let parent_path = slice_subrange(path_segments, 0, last);
        proof {
            assert(names_of(parent_path@) =~= names_of(path_segments@).drop_last());
        }
        match share_rc(&self).reach(parent_path) {
            Ok(nodes) => {
                let result = nodes.tail.lookup_node(path_segments[last].as_str());
                Ok(PublicOpResult { root_dir: self, result })
            },
            Err(e) => Err(e),
        }
    }

    /// The address of the content of the file at `path`, as contracts speak of it.
    pub open spec fn spec_read(&self, path: Seq<Seq<char>>) -> Result<Seq<u8>, FsError> {
        if path.len() == 0 {
            Err(FsError::InvalidPath)
        } else {
            match self.spec_reach(path.drop_last()) {
                Some(parent) => match parent.spec_lookup_node(path.last()) {
                    Some(PublicNode::File(file)) => Ok(file.userland@),
                    Some(PublicNode::Dir(_)) => Err(FsError::NotAFile),
                    None => Err(FsError::NotFound),
                },
                None => Err(self.reach_failure(path.drop_last())),
            }
        }
    }

    /// Reads the file at a path: hands out the address of its content. Fails
    /// with `InvalidPath` for the empty path, with `NotADirectory` where a
    /// file stands in the way, with `NotFound` where the path leads to
    /// nothing, and with `NotAFile` where it leads to a directory.
    pub fn read(self: Rc<Self>, path_segments: &[String]) -> (found: Result<
        PublicOpResult<Cid>,
        FsError,
    >)
        ensures
            match found {
                Ok(r) => self.spec_read(names_of(path_segments@)) == Ok::<Seq<u8>, FsError>(
                    r.result@,
                ) && r.root_dir == self,
                Err(e) => self.spec_read(names_of(path_segments@)) == Err::<Seq<u8>, FsError>(e),
            },
    {
        if path_segments.len() == 0 {
            return Err(FsError::InvalidPath);
        }
        let last = path_segments.len() - 1;
        let parent_path = slice_subrange(path_segments, 0, last);
        proof {
            assert(names_of(parent_path@) =~= names_of(path_segments@).drop_last());
        }
        match share_rc(&self).reach(parent_path) {
            Ok(nodes) => match nodes.tail.lookup_node(path_segments[last].as_str()) {
                Some(PublicNode::File(file)) => Ok(
                    PublicOpResult { root_dir: self, result: file.userland.duplicate() },
                ),
                Some(PublicNode::Dir(_)) => Err(FsError::NotAFile),
                None => Err(FsError::NotFound),
            },
            Err(e) => Err(e),
        }
    }

    /// Whether `listing` names the entries of `dir` in directory order, each
    /// with the times of its node: it has one row for each entry, the names
    /// ascend from row to row, and each row holds the times of the node that
    /// the directory has under its name.
    pub open spec fn lists(dir: PublicDirectory, listing: Seq<(String, Metadata)>) -> bool {
        &&& listed_names(listing) == dir.userland.names()
        &&& in_order(listed_names(listing))
        &&& dir.userland@.dom().finite()
        &&& listing.len() == dir.userland@.dom().len()
        &&& forall|i: int|
            0 <= i < listing.len() ==> {
                &&& dir.userland@.contains_key((#[trigger] listing[i]).0@)
                &&& listing[i].1 == dir.userland@[listing[i].0@].spec_metadata()
            }
    }

    /// Lists the directory at a path: the names of its entries in directory
    /// order, each with the times of its node. Fails with `NotADirectory`
    /// where a file stands in the way or at the end of the path, and with
    /// `NotFound` where a name of the path is not there.
    pub fn ls(self: Rc<Self>, path_segments: &[String]) -> (found: Result<
        PublicOpResult<Vec<(String, Metadata)>>,
        FsError,
    >)
        ensures
            match found {
                Ok(r) => {
                    &&& self.spec_reach(names_of(path_segments@)) matches Some(dir)
                    &&& PublicDirectory::lists(dir, r.result@)
                    &&& r.root_dir == self
                },
                Err(e) => self.spec_reach(names_of(path_segments@)) is None && e
                    == self.reach_failure(names_of(path_segments@)),
            },
    {
        let nodes = match share_rc(&self).reach(path_segments) {
            Ok(nodes) => nodes,
            Err(e) => {
                return Err(e);
            },
        };
        let dir = &nodes.tail;
        let mut result: Vec<(String, Metadata)> = Vec::new();
        let mut i: usize = 0;
        let count = dir.userland.len();
        while i < count
            invariant
                i <= count,
                count == dir.userland.names().len(),
                dir.userland.names().len() == dir.userland.values().len(),
                result@.len() == i,
                forall|j: int|
                    0 <= j < i ==> {
                        &&& (#[trigger] result@[j]).0@ == dir.userland.names()[j]
                        &&& result@[j].1 == dir.userland.values()[j].spec_metadata()
                    },
            decreases count - i,
        {
            result.push((dir.userland.name_at(i).clone(), dir.userland.value_at(i).get_metadata()));
            i = i + 1;
        }
        proof {
            use_type_invariant(&dir.userland);
            dir.userland.lemma_names();
            assert(listed_names(result@) =~= dir.userland.names());
        }
        Ok(PublicOpResult { root_dir: self, result })
    }

    /// Makes the directories of a path that are not there yet, stamped with
    /// `time`, and hands back the root of the tree that has them. Fails with
    /// `NotADirectory` where a file stands in the way.
    pub fn mkdir(self: Rc<Self>, path_segments: &[String], time: i64) -> (made: Result<
        PublicOpResult<()>,
        FsError,
    >)
        ensures
            match made {
                Ok(r) => !self.blocked_by_file(names_of(path_segments@)) && exists|
                    tail: Rc<PublicDirectory>,
                |
                    #![all_triggers]
                    self.rebuilt_along(names_of(path_segments@), time, tail, tail, r.root_dir),
                Err(e) => e == FsError::NotADirectory && self.blocked_by_file(
                    names_of(path_segments@),
                ),
            },
    {
        let nodes = match self.get_or_create_path_nodes(path_segments, time) {
            Ok(nodes) => nodes,
            Err(e) => {
                return Err(e);
            },
        };
        let ghost way = nodes;
        let root_dir = Self::fix_up_path_nodes(nodes);
        proof {
            reveal(PublicDirectory::rebuilt_along);
            assert(self.rebuilt_along(
                names_of(path_segments@),
                time,
                way.tail,
                way.tail,
                root_dir,
            ));
        }
        Ok(PublicOpResult { root_dir, result: () })
    }

    /// Why a file cannot be written at `path`, if it cannot: the path is
    /// empty, a file stands in the way, or a directory stands at its end.
    pub open spec fn write_refusal(&self, path: Seq<Seq<char>>) -> Option<FsError> {
        if path.len() == 0 {
            Some(FsError::InvalidPath)
        } else if self.blocked_by_file(path.drop_last()) {
            Some(FsError::NotADirectory)
        } else {
            match self.spec_reach(path.drop_last()) {
                Some(parent) => match parent.spec_lookup_node(path.last()) {
                    Some(PublicNode::Dir(_)) => Some(FsError::DirectoryAlreadyExists),
                    _ => None,
                },
                None => None,
            }
        }
    }

    /// Whether `later` is `dir` with the file under `name` written at `time`:
    /// its content is at `content`, its time of change is `time`, and it
    /// keeps what else the file had that stood there, or is new where none
    /// stood there. Every other entry is the one of `dir`.
    pub open spec fn file_written(
        dir: PublicDirectory,
        name: Seq<char>,
        content: Seq<u8>,
        time: i64,
        later: PublicDirectory,
    ) -> bool {
        &&& later.same_but_entries(dir)
        &&& later.userland@.contains_key(name)
        &&& later.userland@ == dir.userland@.insert(name, later.userland@[name])
        &&& later.userland@[name] matches PublicNode::File(file)
        &&& file.userland@ == content
        &&& match dir.spec_lookup_node(name) {
            Some(PublicNode::File(before)) => {
                &&& file.metadata == (Metadata {
                    created: before.metadata.created,
                    modified: Some(time),
                })
                &&& addresses(file.previous@) == addresses(before.previous@)
            },
            _ => {
                &&& file.metadata == (Metadata { created: Some(time), modified: Some(time) })
                &&& file.previous@ == Seq::<Cid>::empty()
            },
        }
    }

    /// Whether `root` is this tree with a file written at `path`: the tree
    /// with the directory that `path` leads to but for its last name, made
    /// anew where it was missing, replaced by that directory with the file
    /// written.
    pub open spec fn written(
        &self,
        path: Seq<Seq<char>>,
        content: Seq<u8>,
        time: i64,
        root: Rc<PublicDirectory>,
    ) -> bool {
        exists|old_tail: Rc<PublicDirectory>, new_tail: Rc<PublicDirectory>|
            #![all_triggers]
            {
                &&& self.rebuilt_along(path.drop_last(), time, old_tail, new_tail, root)
                &&& PublicDirectory::file_written(*old_tail, path.last(), content, time, *new_tail)
            }
    }

    /// Writes a file at a path: makes the directories that are missing, and
    /// puts under the last name a file with the content at `content_cid`,
    /// in place of the file that stands there, whose time of making it
    /// keeps. Fails with `InvalidPath` for the empty path, with
    /// `NotADirectory` where a file stands in the way, and with
    /// `DirectoryAlreadyExists` where a directory stands at the end of the
    /// path.
    pub fn write(self: Rc<Self>, path_segments: &[String], content_cid: Cid, time: i64) -> (written:
        Result<PublicOpResult<()>, FsError>)
        ensures
            match written {
                Ok(r) => self.write_refusal(names_of(path_segments@)) is None && self.written(
                    names_of(path_segments@),
                    content_cid@,
                    time,
                    r.root_dir,
                ),
                Err(e) => self.write_refusal(names_of(path_segments@)) == Some(e),
            },
    {
        if path_segments.len() == 0 {
            return Err(FsError::InvalidPath);
        }
        let last = path_segments.len() - 1;
        let directory_path = slice_subrange(path_segments, 0, last);
        let filename = &path_segments[last];
        let ghost path = names_of(path_segments@);
        proof {
            assert(names_of(directory_path@) =~= path.drop_last());
        }
        let nodes = match share_rc(&self).get_or_create_path_nodes(directory_path, time) {
            Ok(nodes) => nodes,
            Err(e) => {
                return Err(e);
            },
        };
        proof {
            self.lemma_reaches_or_creates(path.drop_last(), time, nodes);
        }
        let mut directory = nodes.tail.duplicate();
        let file = match directory.lookup_node(filename.as_str()) {
            Some(PublicNode::File(file_before)) => {
                let mut file = file_before.duplicate();
                file.userland = content_cid;
                file.metadata.upsert_mtime(time);
                file
            },
            Some(PublicNode::Dir(_)) => {
                return Err(FsError::DirectoryAlreadyExists);
            },
            None => PublicFile::new(time, content_cid),
        };
        directory.userland.insert(filename.clone(), PublicNode::File(Rc::new(file)));
        let PathNodes { path: way, tail: old_tail } = nodes;
        let new_tail = Rc::new(directory);
        let changed = PathNodes { path: way, tail: share_rc(&new_tail) };
        let root_dir = Self::fix_up_path_nodes(changed);
        proof {
            reveal(PublicDirectory::rebuilt_along);
            assert(self.rebuilt_along(path.drop_last(), time, old_tail, new_tail, root_dir));
        }
        Ok(PublicOpResult { root_dir, result: () })
    }

    /// Why nothing can be removed at `path`, if nothing can: the path is
    /// empty, a file stands in the way, or the path leads to nothing.
    pub open spec fn rm_refusal(&self, path: Seq<Seq<char>>) -> Option<FsError> {
        if path.len() == 0 {
            Some(FsError::InvalidPath)
        } else {
            match self.spec_reach(path.drop_last()) {
                Some(parent) => match parent.spec_lookup_node(path.last()) {
                    Some(_) => None,
                    None => Some(FsError::NotFound),
                },
                None => Some(self.reach_failure(path.drop_last())),
            }
        }
    }

    /// Whether `root` is this tree without the node at `path`, and `removed`
    /// is that node.
    #[verifier::opaque]
    pub open spec fn removed_at(
        &self,
        path: Seq<Seq<char>>,
        root: Rc<PublicDirectory>,
        removed: PublicNode,
    ) -> bool {
        exists|old_tail: Rc<PublicDirectory>, new_tail: Rc<PublicDirectory>|
            #![all_triggers]
            {
                &&& self.rebuilt_along(path.drop_last(), 0, old_tail, new_tail, root)
                &&& self.spec_reach(path.drop_last()) == Some(*old_tail)
                &&& new_tail.same_but_entries(*old_tail)
                &&& new_tail.userland@ == old_tail.userland@.remove(path.last())
                &&& old_tail.spec_lookup_node(path.last()) == Some(removed)
            }
    }

    /// Takes the node at a path out of the tree and hands it out with the
    /// root of the tree that is left. Fails with `InvalidPath` for the empty
    /// path, with `NotADirectory` where a file stands in the way, and with
    /// `NotFound` where the path leads to nothing.
    pub fn rm(self: Rc<Self>, path_segments: &[String]) -> (taken: Result<
        PublicOpResult<PublicNode>,
        FsError,
    >)
        ensures
            match taken {
                Ok(r) => self.rm_refusal(names_of(path_segments@)) is None && self.removed_at(
                    names_of(path_segments@),
                    r.root_dir,
                    r.result,
                ),
                Err(e) => self.rm_refusal(names_of(path_segments@)) == Some(e),
            },
    {
        if path_segments.len() == 0 {
            return Err(FsError::InvalidPath);
        }
        let last = path_segments.len() - 1;
        let directory_path = slice_subrange(path_segments, 0, last);
        let node_name = &path_segments[last];
        let ghost path = names_of(path_segments@);
        proof {
            assert(names_of(directory_path@) =~= path.drop_last());
        }
        let nodes = match share_rc(&self).reach(directory_path) {
            Ok(nodes) => nodes,
            Err(e) => {
                return Err(e);
            },
        };
        let mut directory = nodes.tail.duplicate();
        let removed_node = match directory.userland.remove(node_name.as_str()) {
            Some(node) => node,
            None => {
                return Err(FsError::NotFound);
            },
        };
        let PathNodes { path: way, tail: old_tail } = nodes;
        let new_tail = Rc::new(directory);
        let changed = PathNodes { path: way, tail: share_rc(&new_tail) };
        let root_dir = Self::fix_up_path_nodes(changed);
        proof {
            reveal(PublicDirectory::rebuilt_along);
            reveal(PublicDirectory::removed_at);
            assert(self.rebuilt_along(path.drop_last(), 0, old_tail, new_tail, root_dir));
        }
        Ok(PublicOpResult { root_dir, result: removed_node })
    }
}

impl PublicDirectory {
    /// Why a node cannot be put at `path`, if it cannot: a file stands in
    /// the way, a name on the way is not there, or the last name is taken.
    pub open spec fn placing_refusal(&self, path: Seq<Seq<char>>) -> Option<FsError> {
        match self.spec_reach(path.drop_last()) {
            Some(parent) => if parent.userland@.contains_key(path.last()) {
                Some(FsError::FileAlreadyExists)
            } else {
                None
            },
            None => Some(self.reach_failure(path.drop_last())),
        }
    }

    /// Whether `root` is this tree with `node`, its time of change set to
    /// `time`, put at `path`.
    #[verifier::opaque]
    pub open spec fn placed_at(
        &self,
        path: Seq<Seq<char>>,
        time: i64,
        node: PublicNode,
        root: Rc<PublicDirectory>,
    ) -> bool {
        exists|old_tail: Rc<PublicDirectory>, new_tail: Rc<PublicDirectory>|
            #![all_triggers]
            {
                &&& self.rebuilt_along(path.drop_last(), time, old_tail, new_tail, root)
                &&& self.spec_reach(path.drop_last()) == Some(*old_tail)
                &&& new_tail.same_but_entries(*old_tail)
                &&& new_tail.userland@.contains_key(path.last())
                &&& new_tail.userland@ == old_tail.userland@.insert(
                    path.last(),
                    new_tail.userland@[path.last()],
                )
                &&& node.touched(time, new_tail.userland@[path.last()])
            }
    }

    /// Puts `node`, its time of change set to `time`, at a path where
    /// nothing stands yet.
    fn place(self: Rc<Self>, path_segments: &[String], time: i64, node: PublicNode) -> (placed: Result<
        Rc<PublicDirectory>,
        FsError,
    >)
        requires
            path_segments@.len() > 0,
        ensures
            match placed {
                Ok(root) => self.placing_refusal(names_of(path_segments@)) is None
                    && self.placed_at(names_of(path_segments@), time, node, root),
                Err(e) => self.placing_refusal(names_of(path_segments@)) == Some(e),
            },
    {
        let last = path_segments.len() - 1;
        let directory_path = slice_subrange(path_segments, 0, last);
        let filename = &path_segments[last];
        let ghost path = names_of(path_segments@);
        proof {
            assert(names_of(directory_path@) =~= path.drop_last());
        }
        let nodes = match share_rc(&self).reach(directory_path) {
            Ok(nodes) => nodes,
            Err(e) => {
                return Err(e);
            },
        };
        let mut directory = nodes.tail.duplicate();
        if directory.userland.contains_key(filename.as_str()) {
            return Err(FsError::FileAlreadyExists);
        }
        directory.userland.insert(filename.clone(), node.upsert_mtime(time));
        let PathNodes { path: way, tail: old_tail } = nodes;
        let new_tail = Rc::new(directory);
        let changed = PathNodes { path: way, tail: share_rc(&new_tail) };
        let root_dir = Self::fix_up_path_nodes(changed);
        proof {
            reveal(PublicDirectory::rebuilt_along);
            reveal(PublicDirectory::placed_at);
            assert(self.rebuilt_along(path.drop_last(), time, old_tail, new_tail, root_dir));
        }
        Ok(root_dir)
    }

    /// Moves the node at one path to another, where nothing stands yet, and
    /// sets its time of change to `time`.
    ///
    /// Fails with `InvalidPath` where a path is empty, with `NotADirectory`
    /// where a file stands in the way of a path, with `NotFound` where the
    /// first path leads to nothing or a name on the way of the second, in
    /// the tree without the node, is not there, and with `FileAlreadyExists`
    /// where the name at the end of the second path is taken.
    pub fn basic_mv(
        self: Rc<Self>,
        path_segments_from: &[String],
        path_segments_to: &[String],
        time: i64,
    ) -> (moved: Result<PublicOpResult<()>, FsError>)
        ensures
            path_segments_to@.len() == 0 ==> (moved matches Err(e) && e == FsError::InvalidPath),
            path_segments_to@.len() > 0 && self.rm_refusal(names_of(path_segments_from@)) is Some
                ==> (moved matches Err(e) && self.rm_refusal(names_of(path_segments_from@))
                == Some(e)),
            path_segments_to@.len() > 0 && self.rm_refusal(names_of(path_segments_from@)) is None
                ==> exists|without: Rc<PublicDirectory>, node: PublicNode|
                #![all_triggers]
                {
                    &&& self.removed_at(names_of(path_segments_from@), without, node)
                    &&& match moved {
                        Ok(r) => without.placing_refusal(names_of(path_segments_to@)) is None
                            && without.placed_at(
                            names_of(path_segments_to@),
                            time,
                            node,
                            r.root_dir,
                        ),
                        Err(e) => without.placing_refusal(names_of(path_segments_to@)) == Some(e),
                    }
                },
    {
        if path_segments_to.len() == 0 {
            return Err(FsError::InvalidPath);
        }
        let PublicOpResult { root_dir: without, result: removed_node } = match self.rm(
            path_segments_from,
        ) {
            Ok(taken) => taken,
            Err(e) => {
                return Err(e);
            },
        };
        match share_rc(&without).place(path_segments_to, time, removed_node) {
            Ok(root_dir) => Ok(PublicOpResult { root_dir, result: () }),
            Err(e) => Err(e),
        }
    }
}

/// In a tree that was rebuilt along a path, the path leads to the directory
/// that was put at its end.
pub proof fn lemma_rebuilt_resolves(
    dir: PublicDirectory,
    path: Seq<Seq<char>>,
    time: i64,
    old_tail: Rc<PublicDirectory>,
    new_tail: Rc<PublicDirectory>,
    root: Rc<PublicDirectory>,
)
    requires
        dir.rebuilt_along(path, time, old_tail, new_tail, root),
    ensures
        root.spec_reach(path) == Some(*new_tail),
{
    reveal(PublicDirectory::rebuilt_along);
    let nodes = choose|nodes: PathNodes<PublicDirectory>|
        #![all_triggers]
        {
            &&& dir.reaches_or_creates(path, time, nodes)
            &&& nodes.tail == old_tail
            &&& commits(PathNodes { path: nodes.path, tail: new_tail }, 0, root)
        };
    let changed = PathNodes { path: nodes.path, tail: new_tail };
    dir.lemma_reaches_or_creates(path, time, nodes);
    lemma_commit_then_resolve(changed, 0, root);
    assert(changed.names() =~= nodes.names());
    assert(changed.names().skip(0) =~= path);
}

/// A tree that was rebuilt along a path holds, under every name of its root
/// but the first name of the path, the very node that the old tree holds
/// there: what the change did not touch is shared, and the old tree is as it
/// was.
pub proof fn lemma_rebuilt_shares(
    dir: PublicDirectory,
    path: Seq<Seq<char>>,
    time: i64,
    old_tail: Rc<PublicDirectory>,
    new_tail: Rc<PublicDirectory>,
    root: Rc<PublicDirectory>,
    name: Seq<char>,
)
    requires
        dir.rebuilt_along(path, time, old_tail, new_tail, root),
        path.len() > 0,
        name != path[0],
    ensures
        root.spec_lookup_node(name) == dir.spec_lookup_node(name),
{
    reveal(PublicDirectory::rebuilt_along);
    let nodes = choose|nodes: PathNodes<PublicDirectory>|
        #![all_triggers]
        {
            &&& dir.reaches_or_creates(path, time, nodes)
            &&& nodes.tail == old_tail
            &&& commits(PathNodes { path: nodes.path, tail: new_tail }, 0, root)
        };
    let changed = PathNodes { path: nodes.path, tail: new_tail };
    dir.lemma_reaches_or_creates(path, time, nodes);
    assert(nodes.names()[0] == path[0]);
    assert(nodes.dirs()[0] == *nodes.path@[0].0);
    lemma_commit_shares(changed, 0, root, name);
}

/// What was written is read: in the tree that a write gives, the path of the
/// write leads to a file with the content that was written.
pub proof fn lemma_write_then_read(
    dir: PublicDirectory,
    path: Seq<Seq<char>>,
    content: Seq<u8>,
    time: i64,
    root: Rc<PublicDirectory>,
)
    requires
        path.len() > 0,
        dir.written(path, content, time, root),
    ensures
        root.spec_read(path) == Ok::<Seq<u8>, FsError>(content),
{
    let (old_tail, new_tail) = choose|
        old_tail: Rc<PublicDirectory>,
        new_tail: Rc<PublicDirectory>,
    |
        #![all_triggers]
        {
            &&& dir.rebuilt_along(path.drop_last(), time, old_tail, new_tail, root)
            &&& PublicDirectory::file_written(*old_tail, path.last(), content, time, *new_tail)
        };
    lemma_rebuilt_resolves(dir, path.drop_last(), time, old_tail, new_tail, root);
}

/// After fixing up, the names of the way lead from the new root, level by
/// level, to the tail that was committed.
pub proof fn lemma_commit_then_resolve(
    nodes: PathNodes<PublicDirectory>,
    level: int,
    dir: Rc<PublicDirectory>,
)
    requires
        0 <= level <= nodes.path@.len(),
        commits(nodes, level, dir),
    ensures
        descend(PublicDirectory::child(), *dir, nodes.names().skip(level)).len()
            == nodes.path@.len() - level + 1,
        descend(PublicDirectory::child(), *dir, nodes.names().skip(level)).last() == *nodes.tail,
        dir.spec_reach(nodes.names().skip(level)) == Some(*nodes.tail),
    decreases nodes.path@.len() - level,
{
    let rest = nodes.names().skip(level);
    if level < nodes.path@.len() {
        let name = nodes.path@[level].1@;
        let child = dir.userland@[name]->Dir_0;
        assert(rest.skip(1) =~= nodes.names().skip(level + 1));
        lemma_commit_then_resolve(nodes, level + 1, child);
    }
}

/// Fixing up touches one entry at each level and nothing else: under every
/// other name the new directory holds the very node that the old one holds,
/// and the old directory is as it was.
pub proof fn lemma_commit_shares(
    nodes: PathNodes<PublicDirectory>,
    level: int,
    dir: Rc<PublicDirectory>,
    name: Seq<char>,
)
    requires
        0 <= level < nodes.path@.len(),
        commits(nodes, level, dir),
        name != nodes.path@[level].1@,
    ensures
        dir.spec_lookup_node(name) == nodes.path@[level].0.spec_lookup_node(name),
{
}

} // verus!
