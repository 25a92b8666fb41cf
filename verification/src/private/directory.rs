//! Finding nodes in a private tree.

use vstd::prelude::*;
use std::rc::Rc;
use crate::common::name_map::{in_order, Shared};
use crate::common::pathnodes::{
    descend, lemma_descend_len, listed_names, names_of, PathNodes, PathNodesResult,
};
use crate::common::share::{held, share_rc};
use crate::private::forest::PrivateForest;
use crate::private::header::{revision_hash, PrivateNodeHeader, PrivateRef};
use crate::common::metadata::Metadata;
use crate::error::FsError;
use crate::common::digest::sha3_256;
use crate::private::ratchet::{advance, ratchet_key};
use vstd::slice::slice_subrange;
use crate::private::node::{PrivateDirectory, PrivateFile, PrivateNode};
use crate::private::ratchet::ratchet_successor;

verus! {

/// The newest revision that the forest holds of a node: `found` is the
/// revision at ratchet state `state`, and the search goes on, for `fuel`
/// steps at most, as long as the forest holds a revision at the state
/// that follows.
pub open spec fn latest_revision(
    forest: PrivateForest,
    bare_name: Seq<u8>,
    state: Seq<char>,
    found: PrivateNode,
    fuel: nat,
) -> PrivateNode
    decreases fuel,
{
    if fuel == 0 {
        found
    } else {
        match ratchet_successor(state) {
            Some(next) => match forest.lookup(revision_hash(bare_name, next)) {
                Some(newer) => latest_revision(forest, bare_name, next, newer, (fuel - 1) as nat),
                None => found,
            },
            None => found,
        }
    }
}

impl PrivateNode {
    /// The newest revision of this node in `forest`, as contracts speak of it.
    pub open spec fn spec_search_latest(&self, forest: PrivateForest) -> PrivateNode {
        latest_revision(
            forest,
            self.spec_header().bare_name@,
            self.spec_header().ratchet@,
            *self,
            forest.entries().len(),
        )
    }

    /// The newest revision of this node that `forest` holds: the one found
    /// by stepping the node's ratchet for as long as the forest holds a
    /// revision at the next state. The node itself, where the forest holds
    /// none that is newer.
    pub fn search_latest(&self, forest: &PrivateForest) -> (latest: PrivateNode)
        ensures
            latest == self.spec_search_latest(*forest),
    {
        let header = self.get_header();
        let mut probe = header.share();
        let mut found = self.share();
        let mut fuel = forest.len();
        while fuel > 0
            invariant
                probe.bare_name == header.bare_name,
                self.spec_search_latest(*forest) == latest_revision(
                    *forest,
                    header.bare_name@,
                    probe.ratchet@,
                    found,
                    fuel as nat,
                ),
            decreases fuel,
        {
            let mut next = probe.share();
            next.advance_ratchet();
            match forest.get(&next.get_private_ref()) {
                Some(newer) => {
                    found = newer;
                    probe = next;
                    fuel = fuel - 1;
                },
                None => {
                    return found;
                },
            }
        }
        found
    }
}

impl PrivateDirectory {
    /// The node under `name`, as contracts speak of it.
    pub open spec fn spec_lookup_node(
        &self,
        name: Seq<char>,
        search_latest: bool,
        forest: PrivateForest,
    ) -> Option<PrivateNode> {
        if self.entries@.contains_key(name) {
            match forest.lookup(self.entries@[name].saturated_name_hash@) {
                Some(node) => Some(
                    if search_latest {
                        node.spec_search_latest(forest)
                    } else {
                        node
                    },
                ),
                None => None,
            }
        } else {
            None
        }
    }

    /// The directory to which `name` leads from `dir`, if it leads to one.
    pub open spec fn spec_child(
        dir: PrivateDirectory,
        name: Seq<char>,
        search_latest: bool,
        forest: PrivateForest,
    ) -> Option<PrivateDirectory> {
        match dir.spec_lookup_node(name, search_latest, forest) {
            Some(PrivateNode::Dir(child)) => Some(*child),
            _ => None,
        }
    }

    /// The way down a private tree as a function of directory and name.
    pub open spec fn child_by(search_latest: bool, forest: PrivateForest) -> spec_fn(
        PrivateDirectory,
        Seq<char>,
    ) -> Option<PrivateDirectory> {
        |dir: PrivateDirectory, name: Seq<char>|
            PrivateDirectory::spec_child(dir, name, search_latest, forest)
    }

    /// The node that the entry under `path_segment` points to: the revision
    /// that the entry names or, with `search_latest`, the newest revision of
    /// that node in the forest. `None` where the directory has no such entry
    /// or the forest does not hold what the entry names.
    pub fn lookup_node(&self, path_segment: &str, search_latest: bool, forest: &PrivateForest) -> (node:
        Option<PrivateNode>)
        ensures
            node == self.spec_lookup_node(path_segment@, search_latest, *forest),
    {
        match self.entries.get(path_segment) {
            Some(private_ref) => match forest.get(private_ref) {
                Some(node) => {
                    if search_latest {
                        Some(node.search_latest(forest))
                    } else {
                        Some(node)
                    }
                },
                None => None,
            },
            None => None,
        }
    }

    /// Follows `path_segments` down from this directory, as far as each name
    /// leads to a directory, and says where and why the way ended.
    pub fn get_path_nodes(
        self: Rc<Self>,
        path_segments: &[String],
        search_latest: bool,
        forest: &PrivateForest,
    ) -> (result: PathNodesResult<PrivateDirectory>)
        ensures
            match result {
                PathNodesResult::Complete(nodes) => {
                    &&& nodes.follows(
                        PrivateDirectory::child_by(search_latest, *forest),
                        *self,
                        names_of(path_segments@),
                    )
                    &&& nodes.path@.len() == path_segments@.len()
                },
                PathNodesResult::MissingLink(nodes, segment) => {
                    &&& nodes.follows(
                        PrivateDirectory::child_by(search_latest, *forest),
                        *self,
                        names_of(path_segments@),
                    )
                    &&& nodes.path@.len() < path_segments@.len()
                    &&& segment@ == path_segments@[nodes.path@.len() as int]@
                    &&& nodes.tail.spec_lookup_node(segment@, search_latest, *forest) is None
                },
                PathNodesResult::NotADirectory(nodes, segment) => {
                    &&& nodes.follows(
                        PrivateDirectory::child_by(search_latest, *forest),
                        *self,
                        names_of(path_segments@),
                    )
                    &&& nodes.path@.len() < path_segments@.len()
                    &&& segment@ == path_segments@[nodes.path@.len() as int]@
                    &&& nodes.tail.spec_lookup_node(
                        segment@,
                        search_latest,
                        *forest,
                    ) matches Some(PrivateNode::File(_))
                },
            },
    {
        let ghost child = PrivateDirectory::child_by(search_latest, *forest);
        let ghost path = names_of(path_segments@);
        let ghost root = held(self);
        let mut working = share_rc(&self);
        let mut passed: Vec<(Rc<PrivateDirectory>, String)> = Vec::new();
        let mut i: usize = 0;
        proof {
            assert(path.skip(0) =~= path);
        }
        while i < path_segments.len()
            invariant
                i <= path_segments@.len(),
                passed@.len() == i,
                root == held(self),
                path == names_of(path_segments@),
                child == PrivateDirectory::child_by(search_latest, *forest),
                forall|j: int| 0 <= j < i ==> (#[trigger] passed@[j]).1@ == path[j],
                descend(child, root, path) == Seq::new(i as nat, |j: int| *passed@[j].0) + descend(
                    child,
                    *working,
                    path.skip(i as int),
                ),
            decreases path_segments@.len() - i,
        {
            let segment = &path_segments[i];
            let ghost before = Seq::new(i as nat, |j: int| *passed@[j].0);
            proof {
                assert(path.skip(i as int).skip(1) =~= path.skip(i + 1));
            }
            match working.lookup_node(segment.as_str(), search_latest, forest) {
                Some(PrivateNode::Dir(directory)) => {
                    passed.push((share_rc(&working), segment.clone()));
                    working = directory;
                },
                Some(PrivateNode::File(_)) => {
                    let nodes = PathNodes { path: passed, tail: working };
                    proof {
                        assert(nodes.dirs() =~= before + seq![*working]);
                        assert(nodes.names() =~= path.take(i as int));
                    }
                    return PathNodesResult::NotADirectory(nodes, segment.clone());
                },
                None => {
                    let nodes = PathNodes { path: passed, tail: working };
                    proof {
                        assert(nodes.dirs() =~= before + seq![*working]);
                        assert(nodes.names() =~= path.take(i as int));
                    }
                    return PathNodesResult::MissingLink(nodes, segment.clone());
                },
            }
            i = i + 1;
        }
        let ghost before = Seq::new(i as nat, |j: int| *passed@[j].0);
        let nodes = PathNodes { path: passed, tail: working };
        proof {
            assert(nodes.dirs() =~= before + seq![*working]);
            assert(nodes.names() =~= path.take(i as int));
        }
        PathNodesResult::Complete(nodes)
    }
}


/// What an operation on a private tree gives back.
#[derive(Debug)]
pub struct PrivateOpResult<T> {
    /// The root of the tree after the operation.
    pub root_dir: Rc<PrivateDirectory>,
    /// The forest after the operation.
    pub forest: Rc<PrivateForest>,
    /// What the operation was asked for.
    pub result: T,
}

/// Whether `private_ref` is what it takes to find the revision that `header`
/// stands at.
pub open spec fn points_at(private_ref: PrivateRef, header: PrivateNodeHeader) -> bool {
    &&& private_ref.saturated_name_hash@ == header@.hash()
    &&& ratchet_key(header.ratchet@) == Some(private_ref.ratchet_key@)
}

/// Whether `later` is the revision of `parent` that follows it and has, under
/// `name`, an entry that points at `child`, and otherwise the entries of
/// `parent`.
pub open spec fn relinked(
    later: PrivateDirectory,
    parent: PrivateDirectory,
    name: Seq<char>,
    child: PrivateDirectory,
) -> bool {
    &&& later.follows_on(parent)
    &&& later.entries@.contains_key(name)
    &&& points_at(later.entries@[name], child.header)
    &&& later.entries@ == parent.entries@.insert(name, later.entries@[name])
}

/// A directory as the forest files it.
pub open spec fn filed(dir: Rc<PrivateDirectory>) -> (Seq<u8>, PrivateNode) {
    (dir.header@.hash(), PrivateNode::Dir(dir))
}

/// Whether `root` and `after` are what fixing up `nodes` in `forest` gives:
/// every directory on the way has a next revision, each pointing at the
/// next revision of the one below it, `root` is that of the first, and
/// `after` holds what `forest` held and then these revisions, the deepest
/// first.
#[verifier::opaque]
pub open spec fn fixed_up(
    nodes: PathNodes<PrivateDirectory>,
    forest: PrivateForest,
    root: Rc<PrivateDirectory>,
    after: PrivateForest,
) -> bool {
    exists|dirs: Seq<Rc<PrivateDirectory>>|
        #![all_triggers]
        {
            &&& dirs.len() == nodes.path@.len() + 1
            &&& dirs[0] == root
            &&& dirs.last().follows_on(*nodes.tail)
            &&& dirs.last().entries@ == nodes.tail.entries@
            &&& forall|i: int|
                0 <= i < nodes.path@.len() ==> relinked(
                    *dirs[i],
                    *nodes.path@[i].0,
                    nodes.path@[i].1@,
                    *dirs[i + 1],
                )
            &&& after.entries() == forest.entries() + Seq::new(
                dirs.len(),
                |j: int| filed(dirs[dirs.len() - 1 - j]),
            )
        }
}

/// What fixing up always comes to: the new root is the next revision of the
/// first directory on the way, and the new forest is the old one with one
/// more revision for each directory on the way.
pub proof fn lemma_fixed_up_root(
    nodes: PathNodes<PrivateDirectory>,
    forest: PrivateForest,
    root: Rc<PrivateDirectory>,
    after: PrivateForest,
)
    requires
        fixed_up(nodes, forest, root, after),
    ensures
        root.follows_on(nodes.dirs()[0]),
        after.entries().len() == forest.entries().len() + nodes.path@.len() + 1,
        after.entries().take(forest.entries().len() as int) == forest.entries(),
{
    reveal(fixed_up);
    let dirs = choose|dirs: Seq<Rc<PrivateDirectory>>|
        #![all_triggers]
        {
            &&& dirs.len() == nodes.path@.len() + 1
            &&& dirs[0] == root
            &&& dirs.last().follows_on(*nodes.tail)
            &&& dirs.last().entries@ == nodes.tail.entries@
            &&& forall|i: int|
                0 <= i < nodes.path@.len() ==> relinked(
                    *dirs[i],
                    *nodes.path@[i].0,
                    nodes.path@[i].1@,
                    *dirs[i + 1],
                )
            &&& after.entries() == forest.entries() + Seq::new(
                dirs.len(),
                |j: int| filed(dirs[dirs.len() - 1 - j]),
            )
        };
}

impl PrivateDirectory {
    /// A chain of new, empty directories, one for each name and one more
    /// for the way to end in, the first below a node with bare name
    /// `parent_bare_name`.
    fn create_path_nodes(path_segments: &[String], time: i64, parent_bare_name: &[u8; 32]) -> (nodes:
        PathNodes<PrivateDirectory>)
        ensures
            nodes.names() == names_of(path_segments@),
            nodes.dirs()[0].is_fresh(parent_bare_name@, time),
            forall|i: int|
                1 <= i <= path_segments@.len() ==> (#[trigger] nodes.dirs()[i]).is_fresh(
                    nodes.dirs()[i - 1].header.bare_name@,
                    time,
                ),
    {
        let mut tail = Rc::new(PrivateDirectory::new(parent_bare_name, time));
        let mut path: Vec<(Rc<PrivateDirectory>, String)> = Vec::new();
        let mut i: usize = 0;
        while i < path_segments.len()
            invariant
                i <= path_segments@.len(),
                path@.len() == i,
                forall|j: int| 0 <= j < i ==> (#[trigger] path@[j]).1@ == path_segments@[j]@,
                i == 0 ==> tail.is_fresh(parent_bare_name@, time),
                i > 0 ==> path@[0].0.is_fresh(parent_bare_name@, time),
                i > 0 ==> tail.is_fresh(path@[i - 1].0.header.bare_name@, time),
                forall|j: int|
                    1 <= j < i ==> (#[trigger] path@[j]).0.is_fresh(
                        path@[j - 1].0.header.bare_name@,
                        time,
                    ),
            decreases path_segments@.len() - i,
        {
            let next = Rc::new(PrivateDirectory::new(&tail.header.bare_name, time));
            path.push((tail, path_segments[i].clone()));
            tail = next;
            i = i + 1;
        }
        let nodes = PathNodes { path, tail };
        proof {
            assert forall|i: int| 1 <= i <= path_segments@.len() implies (
            #[trigger] nodes.dirs()[i]).is_fresh(nodes.dirs()[i - 1].header.bare_name@, time) by {
            }
        }
        nodes
    }

    /// Whether `nodes` is the way along `path` from this directory with
    /// what was missing of it made anew: the directories that the path
    /// leads through as far as they are there, then new, empty ones.
    #[verifier::opaque]
    pub open spec fn reaches_or_creates(
        &self,
        path: Seq<Seq<char>>,
        search_latest: bool,
        time: i64,
        forest: PrivateForest,
        nodes: PathNodes<PrivateDirectory>,
    ) -> bool {
        let found = descend(PrivateDirectory::child_by(search_latest, forest), *self, path);
        &&& nodes.names() == path
        &&& forall|i: int| 0 <= i < found.len() ==> #[trigger] nodes.dirs()[i] == found[i]
        &&& forall|i: int|
            found.len() <= i <= path.len() ==> (#[trigger] nodes.dirs()[i]).is_fresh(
                nodes.dirs()[i - 1].header.bare_name@,
                time,
            )
    }

    /// Where a way was reached or made: it has a directory for each name of
    /// the path, starts at this directory, and ends in the directory that the
    /// path leads to, where it leads to one, and in an empty one where not.
    pub proof fn lemma_reaches_or_creates(
        &self,
        path: Seq<Seq<char>>,
        search_latest: bool,
        time: i64,
        forest: PrivateForest,
        nodes: PathNodes<PrivateDirectory>,
    )
        requires
            self.reaches_or_creates(path, search_latest, time, forest, nodes),
        ensures
            nodes.path@.len() == path.len(),
            nodes.dirs()[0] == *self,
            match self.spec_reach(path, search_latest, forest) {
                Some(end) => *nodes.tail == end,
                None => nodes.tail.entries@ == Map::<Seq<char>, PrivateRef>::empty(),
            },
    {
        reveal(PrivateDirectory::reaches_or_creates);
        let found = descend(PrivateDirectory::child_by(search_latest, forest), *self, path);
        lemma_descend_len(PrivateDirectory::child_by(search_latest, forest), *self, path);
        assert(nodes.dirs()[path.len() as int] == *nodes.tail);
    }

    /// Whether a file stands in the way of `path` from this directory.
    pub open spec fn blocked_by_file(
        &self,
        path: Seq<Seq<char>>,
        search_latest: bool,
        forest: PrivateForest,
    ) -> bool {
        let found = descend(PrivateDirectory::child_by(search_latest, forest), *self, path);
        found.len() <= path.len() && found.last().spec_lookup_node(
            path[found.len() - 1],
            search_latest,
            forest,
        ) is Some
    }

    /// Follows `path_segments` down from this directory and makes new, empty
    /// directories, stamped with `time`, for what is missing of the way.
    /// Fails with `NotADirectory` where a file stands in the way.
    pub fn get_or_create_path_nodes(
        self: Rc<Self>,
        path_segments: &[String],
        search_latest: bool,
        time: i64,
        forest: &PrivateForest,
    ) -> (result: Result<PathNodes<PrivateDirectory>, FsError>)
        ensures
            match result {
                Ok(nodes) => !self.blocked_by_file(
                    names_of(path_segments@),
                    search_latest,
                    *forest,
                ) && self.reaches_or_creates(
                    names_of(path_segments@),
                    search_latest,
                    time,
                    *forest,
                    nodes,
                ),
                Err(e) => e == FsError::NotADirectory && self.blocked_by_file(
                    names_of(path_segments@),
                    search_latest,
                    *forest,
                ),
            },
    {
        let ghost path = names_of(path_segments@);
        let ghost found = descend(
            PrivateDirectory::child_by(search_latest, *forest),
            held(self),
            path,
        );
        proof {
            reveal(PrivateDirectory::reaches_or_creates);
            lemma_descend_len(PrivateDirectory::child_by(search_latest, *forest), held(self), path);
        }
        match share_rc(&self).get_path_nodes(path_segments, search_latest, forest) {
            PathNodesResult::Complete(nodes) => {
                proof {
                    assert(nodes.names() =~= path);
                }
                Ok(nodes)
            },
            PathNodesResult::NotADirectory(partial, _) => {
                Err(FsError::NotADirectory)
            },
            PathNodesResult::MissingLink(path_so_far, missing_link) => {
                let total = path_segments.len();
                let reached = path_so_far.path.len();
                let missing_path = slice_subrange(path_segments, reached + 1, total);
                let created = Self::create_path_nodes(
                    missing_path,
                    time,
                    &path_so_far.tail.header.bare_name,
                );
                proof {
                    assert(created.names().len() == names_of(missing_path@).len());
                }
                let ghost so_far = path_so_far;
                let PathNodes { path: mut way, tail: last_found } = path_so_far;
                let PathNodes { path: mut made, tail } = created;
                let ghost created = PathNodes { path: made, tail };
                way.push((last_found, missing_link));
                way.append(&mut made);
                let nodes = PathNodes { path: way, tail };
                proof {
                    assert forall|i: int| 0 <= i < path.len() implies nodes.names()[i]
                        == path[i] by {
                        if i < reached {
                            assert(so_far.names()[i] == path.take(reached as int)[i]);
                        } else if i > reached {
                            assert(created.names()[i - reached - 1] == names_of(missing_path@)[i
                                - reached - 1]);
                        }
                    }
                    assert(nodes.names() =~= path);
                    assert forall|i: int| 0 <= i < found.len() implies #[trigger] nodes.dirs()[i]
                        == found[i] by {
                    }
                    assert forall|i: int| found.len() <= i <= path.len() implies (
                    #[trigger] nodes.dirs()[i]).is_fresh(
                        nodes.dirs()[i - 1].header.bare_name@,
                        time,
                    ) by {
                        let k = i - reached - 1;
                        assert(nodes.dirs()[i] == created.dirs()[k]);
                    }
                }
                Ok(nodes)
            },
        }
    }

    /// Gives every directory of `path_nodes` its next revision, each with an
    /// entry that points at the next revision of the one below it, and
    /// files these revisions in the forest. Hands back the new root and the
    /// new forest; the directories of `path_nodes` and `forest` stay as they
    /// were.
    pub fn fix_up_path_nodes(path_nodes: PathNodes<PrivateDirectory>, forest: Rc<PrivateForest>) -> (fixed:
        (Rc<PrivateDirectory>, Rc<PrivateForest>))
        ensures
            fixed_up(path_nodes, *forest, fixed.0, *fixed.1),
    {
        reveal(fixed_up);
        let mut working_forest = share_rc(&forest);
        let mut copy = path_nodes.tail.duplicate();
        copy.advance_ratchet();
        let mut working_child_dir = Rc::new(copy);
        let ghost mut dirs: Seq<Rc<PrivateDirectory>> = seq![working_child_dir];
        let mut i: usize = path_nodes.path.len();
        let ghost levels = path_nodes.path@.len();
        while i > 0
            invariant
                i <= levels,
                levels == path_nodes.path@.len(),
                dirs.len() == levels - i + 1,
                dirs[0] == working_child_dir,
                dirs.last().follows_on(*path_nodes.tail),
                dirs.last().entries@ == path_nodes.tail.entries@,
                forall|l: int|
                    i <= l < levels ==> relinked(
                        *#[trigger] dirs[l - i],
                        *path_nodes.path@[l].0,
                        path_nodes.path@[l].1@,
                        *dirs[l - i + 1],
                    ),
                working_forest.entries() == forest.entries() + Seq::new(
                    (dirs.len() - 1) as nat,
                    |j: int| filed(dirs[dirs.len() - 1 - j]),
                ),
            decreases i,
        {
            i = i - 1;
            let parent = &path_nodes.path[i].0;
            let segment = &path_nodes.path[i].1;
            let mut later = parent.duplicate();
            later.advance_ratchet();
            let child_private_ref = working_child_dir.header.get_private_ref();
            later.entries.insert(segment.clone(), child_private_ref);
            let later = Rc::new(later);
            working_forest = working_forest.put(
                &child_private_ref,
                &PrivateNode::Dir(share_rc(&working_child_dir)),
            );
            let ghost earlier = dirs;
            proof {
                dirs = seq![later] + dirs;
                assert forall|l: int| i <= l < levels implies relinked(
                    *#[trigger] dirs[l - i],
                    *path_nodes.path@[l].0,
                    path_nodes.path@[l].1@,
                    *dirs[l - i + 1],
                ) by {
                    if l > i {
                        assert(dirs[l - i] == earlier[l - (i + 1)]);
                    }
                }
                assert(working_forest.entries() =~= forest.entries() + Seq::new(
                    (dirs.len() - 1) as nat,
                    |j: int| filed(dirs[dirs.len() - 1 - j]),
                )) by {
                    let now = Seq::new(
                        (dirs.len() - 1) as nat,
                        |j: int| filed(dirs[dirs.len() - 1 - j]),
                    );
                    let was = Seq::new(
                        (earlier.len() - 1) as nat,
                        |j: int| filed(earlier[earlier.len() - 1 - j]),
                    );
                    assert(now =~= was.push(filed(earlier[0]))) by {
                        assert forall|j: int| 0 <= j < now.len() implies now[j] == was.push(
                            filed(earlier[0]),
                        )[j] by {
                        }
                    }
                }
            }
            working_child_dir = later;
        }
        working_forest = working_forest.put(
            &working_child_dir.header.get_private_ref(),
            &PrivateNode::Dir(share_rc(&working_child_dir)),
        );
        proof {
            let all = Seq::new(dirs.len(), |j: int| filed(dirs[dirs.len() - 1 - j]));
            let but_root = Seq::new(
                (dirs.len() - 1) as nat,
                |j: int| filed(dirs[dirs.len() - 1 - j]),
            );
            assert(all =~= but_root.push(filed(dirs[0])));
            assert forall|l: int| 0 <= l < levels implies relinked(
                *dirs[l],
                *path_nodes.path@[l].0,
                path_nodes.path@[l].1@,
                *dirs[l + 1],
            ) by {
                assert(dirs[l] == dirs[l - 0]);
            }
        }
        (working_child_dir, working_forest)
    }
}


impl PrivateDirectory {
    /// The directory that `path` leads to from this one, where every name of
    /// it leads to a directory.
    pub open spec fn spec_reach(
        &self,
        path: Seq<Seq<char>>,
        search_latest: bool,
        forest: PrivateForest,
    ) -> Option<PrivateDirectory> {
        let found = descend(PrivateDirectory::child_by(search_latest, forest), *self, path);
        if found.len() == path.len() + 1 {
            Some(found.last())
        } else {
            None
        }
    }

    /// Why `path` does not lead to a directory, where it does not: a file
    /// stands in the way, or a name on the way leads to nothing.
    pub open spec fn reach_failure(
        &self,
        path: Seq<Seq<char>>,
        search_latest: bool,
        forest: PrivateForest,
    ) -> FsError {
        if self.blocked_by_file(path, search_latest, forest) {
            FsError::NotADirectory
        } else {
            FsError::NotFound
        }
    }

    /// The directory that `path_segments` leads to from this one.
    fn reach(self: Rc<Self>, path_segments: &[String], search_latest: bool, forest: &PrivateForest) -> (found:
        Result<PathNodes<PrivateDirectory>, FsError>)
        ensures
            match found {
                Ok(nodes) => {
                    &&& self.spec_reach(names_of(path_segments@), search_latest, *forest) == Some(
                        *nodes.tail,
                    )
                    &&& nodes.follows(
                        PrivateDirectory::child_by(search_latest, *forest),
                        *self,
                        names_of(path_segments@),
                    )
                    &&& nodes.path@.len() == path_segments@.len()
                    &&& forall|time: i64|
                        self.reaches_or_creates(
                            names_of(path_segments@),
                            search_latest,
                            time,
                            *forest,
                            nodes,
                        )
                },
                Err(e) => self.spec_reach(names_of(path_segments@), search_latest, *forest)
                    is None && e == self.reach_failure(
                    names_of(path_segments@),
                    search_latest,
                    *forest,
                ),
            },
    {
        proof {
            lemma_descend_len(
                PrivateDirectory::child_by(search_latest, *forest),
                held(self),
                names_of(path_segments@),
            );
        }
        match self.get_path_nodes(path_segments, search_latest, forest) {
            PathNodesResult::Complete(nodes) => {
                proof {
                    reveal(PrivateDirectory::reaches_or_creates);
                    assert(nodes.names() =~= names_of(path_segments@));
                }
                Ok(nodes)
            },
            PathNodesResult::MissingLink(partial, _) => {
                proof {
                    assert(partial.dirs().last() == *partial.tail);
                }
                Err(FsError::NotFound)
            },
            PathNodesResult::NotADirectory(partial, _) => {
                proof {
                    assert(partial.dirs().last() == *partial.tail);
                }
                Err(FsError::NotADirectory)
            },
        }
    }

    /// The node at `path` below this directory, as contracts speak of it: this
    /// directory for the empty path; otherwise what the directory that the
    /// path leads to but for its last name has under that name.
    pub open spec fn spec_get_node(
        self: Rc<Self>,
        path: Seq<Seq<char>>,
        search_latest: bool,
        forest: PrivateForest,
    ) -> Result<Option<PrivateNode>, FsError> {
        if path.len() == 0 {
            Ok(Some(PrivateNode::Dir(self)))
        } else {
            match self.spec_reach(path.drop_last(), search_latest, forest) {
                Some(parent) => Ok(parent.spec_lookup_node(path.last(), search_latest, forest)),
                None => Err(self.reach_failure(path.drop_last(), search_latest, forest)),
            }
        }
    }

    /// Follows a path and hands out the node at its end, if the directory
    /// before the end has one under the last name. Fails with
    /// `NotADirectory` where a file stands in the way, and with `NotFound`
    /// where a name on the way leads to nothing.
    pub fn get_node(
        self: Rc<Self>,
        path_segments: &[String],
        search_latest: bool,
        forest: Rc<PrivateForest>,
    ) -> (found: Result<PrivateOpResult<Option<PrivateNode>>, FsError>)
        ensures
            match found {
                Ok(r) => self.spec_get_node(names_of(path_segments@), search_latest, *forest)
                    == Ok::<Option<PrivateNode>, FsError>(r.result) && r.root_dir == self
                    && r.forest == forest,
                Err(e) => self.spec_get_node(names_of(path_segments@), search_latest, *forest)
                    == Err::<Option<PrivateNode>, FsError>(e),
            },
    {
        if path_segments.len() == 0 {
            let node = PrivateNode::Dir(share_rc(&self));
            return Ok(PrivateOpResult { root_dir: self, forest, result: Some(node) });
        }
        let last = path_segments.len() - 1;
        let parent_path = slice_subrange(path_segments, 0, last);
        proof {
            assert(names_of(parent_path@) =~= names_of(path_segments@).drop_last());
        }
        match share_rc(&self).reach(parent_path, search_latest, &forest) {
            Ok(nodes) => {
                let result = nodes.tail.lookup_node(
                    path_segments[last].as_str(),
                    search_latest,
                    &forest,
                );
                Ok(PrivateOpResult { root_dir: self, forest, result })
            },
            Err(e) => Err(e),
        }
    }

    /// The bytes of the file at `path` below this directory, as contracts speak
    /// of them.
    pub open spec fn spec_read(
        &self,
        path: Seq<Seq<char>>,
        search_latest: bool,
        forest: PrivateForest,
    ) -> Result<Seq<u8>, FsError> {
        if path.len() == 0 {
            Err(FsError::InvalidPath)
        } else {
            match self.spec_reach(path.drop_last(), search_latest, forest) {
                Some(parent) => match parent.spec_lookup_node(path.last(), search_latest, forest) {
                    Some(PrivateNode::File(file)) => Ok(file.content@),
                    Some(PrivateNode::Dir(_)) => Err(FsError::NotAFile),
                    None => Err(FsError::NotFound),
                },
                None => Err(self.reach_failure(path.drop_last(), search_latest, forest)),
            }
        }
    }

    /// Reads the file at a path. Fails with `InvalidPath` for the empty
    /// path, with `NotADirectory` where a file stands in the way, with
    /// `NotFound` where the path leads to nothing, and with `NotAFile` where
    /// it leads to a directory.
    pub fn read(
        self: Rc<Self>,
        path_segments: &[String],
        search_latest: bool,
        forest: Rc<PrivateForest>,
    ) -> (found: Result<PrivateOpResult<Vec<u8>>, FsError>)
        ensures
            match found {
                Ok(r) => self.spec_read(names_of(path_segments@), search_latest, *forest) == Ok::<
                    Seq<u8>,
                    FsError,
                >(r.result@) && r.root_dir == self && r.forest == forest,
                Err(e) => self.spec_read(names_of(path_segments@), search_latest, *forest) == Err::<
                    Seq<u8>,
                    FsError,
                >(e),
            },
    {
        if path_segments.len() == 0 {
            return Err(FsError::InvalidPath);
        }
        let last = path_segments.len() - 1;
        let parent_path = slice_subrange(path_segments, 0, last);
        proof {
            assert(names_of(parent_path@) =~= names_of(path_segments@).drop_last());
        }
        match share_rc(&self).reach(parent_path, search_latest, &forest) {
            Ok(nodes) => match nodes.tail.lookup_node(
                path_segments[last].as_str(),
                search_latest,
                &forest,
            ) {
                Some(PrivateNode::File(file)) => Ok(
                    PrivateOpResult { root_dir: self, forest, result: file.get_content() },
                ),
                Some(PrivateNode::Dir(_)) => Err(FsError::NotAFile),
                None => Err(FsError::NotFound),
            },
            Err(e) => Err(e),
        }
    }

    /// Whether `listing` names the entries of `dir` in directory order, each
    /// with the times of the node it points to: it has one row for each
    /// entry, the names ascend from row to row, and each row holds the times
    /// of the node found under its name.
    pub open spec fn lists(
        dir: PrivateDirectory,
        search_latest: bool,
        forest: PrivateForest,
        listing: Seq<(String, Metadata)>,
    ) -> bool {
        &&& listed_names(listing) == dir.entries.names()
        &&& in_order(listed_names(listing))
        &&& dir.entries@.dom().finite()
        &&& listing.len() == dir.entries@.dom().len()
        &&& forall|i: int|
            0 <= i < listing.len() ==> {
                &&& dir.entries@.contains_key((#[trigger] listing[i]).0@)
                &&& dir.spec_lookup_node(listing[i].0@, search_latest, forest) matches Some(node)
                &&& listing[i].1 == node.spec_metadata()
            }
    }

    /// Whether the forest holds the node of every entry of `dir`.
    pub open spec fn all_found(dir: PrivateDirectory, search_latest: bool, forest: PrivateForest) -> bool {
        forall|name: Seq<char>|
            dir.entries@.contains_key(name) ==> (#[trigger] dir.spec_lookup_node(
                name,
                search_latest,
                forest,
            )) is Some
    }

    /// Lists the directory at a path: the names of its entries in directory
    /// order, each with the times of its node. Fails with `NotADirectory`
    /// where a file stands in the way or at the end of the path, and with
    /// `NotFound` where a name of the path leads to nothing, and where the
    /// forest does not hold the node of an entry.
    #[verifier::loop_isolation(false)]
    pub fn ls(
        self: Rc<Self>,
        path_segments: &[String],
        search_latest: bool,
        forest: Rc<PrivateForest>,
    ) -> (found: Result<PrivateOpResult<Vec<(String, Metadata)>>, FsError>)
        ensures
            match found {
                Ok(r) => {
                    &&& self.spec_reach(
                        names_of(path_segments@),
                        search_latest,
                        *forest,
                    ) matches Some(dir)
                    &&& PrivateDirectory::lists(dir, search_latest, *forest, r.result@)
                    &&& PrivateDirectory::all_found(dir, search_latest, *forest)
                    &&& r.root_dir == self
                    &&& r.forest == forest
                },
                Err(e) => match self.spec_reach(names_of(path_segments@), search_latest, *forest) {
                    Some(dir) => e == FsError::NotFound && !PrivateDirectory::all_found(
                        dir,
                        search_latest,
                        *forest,
                    ),
                    None => e == self.reach_failure(
                        names_of(path_segments@),
                        search_latest,
                        *forest,
                    ),
                },
            },
    {
        let nodes = match share_rc(&self).reach(path_segments, search_latest, &forest) {
            Ok(nodes) => nodes,
            Err(e) => {
                return Err(e);
            },
        };
        let dir = &nodes.tail;
        proof {
            use_type_invariant(&dir.entries);
            dir.entries.lemma_names();
        }
        let mut result: Vec<(String, Metadata)> = Vec::new();
        let mut i: usize = 0;
        while i < dir.entries.len()
            invariant
                i <= dir.entries.names().len(),
                result@.len() == i,
                forall|j: int|
                    0 <= j < i ==> {
                        &&& (#[trigger] result@[j]).0@ == dir.entries.names()[j]
                        &&& dir.spec_lookup_node(
                            dir.entries.names()[j],
                            search_latest,
                            *forest,
                        ) matches Some(node)
                        &&& result@[j].1 == node.spec_metadata()
                    },
            decreases dir.entries.names().len() - i,
        {
            let name = dir.entries.name_at(i);
            match dir.lookup_node(name.as_str(), search_latest, &forest) {
                Some(node) => {
                    result.push((name.clone(), node.get_metadata()));
                },
                None => {
                    proof {
                        assert(dir.entries@.contains_key(dir.entries.names()[i as int]));
                    }
                    return Err(FsError::NotFound);
                },
            }
            i = i + 1;
        }
        proof {
            assert(listed_names(result@) =~= dir.entries.names());
            assert forall|name: Seq<char>| dir.entries@.contains_key(name) implies (
            #[trigger] dir.spec_lookup_node(name, search_latest, held(forest))) is Some by {
                let k = dir.entries.names().index_of(name);
                assert(result@[k].0@ == dir.entries.names()[k]);
            }
        }
        Ok(PrivateOpResult { root_dir: self, forest, result })
    }

    /// Makes the directories of a path that are not there yet, and gives
    /// every directory on the way its next revision. Fails with
    /// `NotADirectory` where a file stands in the way.
    pub fn mkdir(
        self: Rc<Self>,
        path_segments: &[String],
        search_latest: bool,
        time: i64,
        forest: Rc<PrivateForest>,
    ) -> (made: Result<PrivateOpResult<()>, FsError>)
        ensures
            match made {
                Ok(r) => !self.blocked_by_file(names_of(path_segments@), search_latest, *forest)
                    && exists|nodes: PathNodes<PrivateDirectory>|
                    #![all_triggers]
                    self.reaches_or_creates(
                        names_of(path_segments@),
                        search_latest,
                        time,
                        *forest,
                        nodes,
                    ) && fixed_up(nodes, *forest, r.root_dir, *r.forest),
                Err(e) => e == FsError::NotADirectory && self.blocked_by_file(
                    names_of(path_segments@),
                    search_latest,
                    *forest,
                ),
            },
    {
        let nodes = match self.get_or_create_path_nodes(
            path_segments,
            search_latest,
            time,
            &forest,
        ) {
            Ok(nodes) => nodes,
            Err(e) => {
                return Err(e);
            },
        };
        let ghost way = nodes;
        let (root_dir, forest) = Self::fix_up_path_nodes(nodes, forest);
        Ok(PrivateOpResult { root_dir, forest, result: () })
    }

    /// Why a file cannot be written at `path`, if it cannot: the path is
    /// empty, a file stands in the way, or a directory stands at its end.
    pub open spec fn write_refusal(
        &self,
        path: Seq<Seq<char>>,
        search_latest: bool,
        forest: PrivateForest,
    ) -> Option<FsError> {
        if path.len() == 0 {
            Some(FsError::InvalidPath)
        } else if self.blocked_by_file(path.drop_last(), search_latest, forest) {
            Some(FsError::NotADirectory)
        } else {
            match self.spec_reach(path.drop_last(), search_latest, forest) {
                Some(parent) => match parent.spec_lookup_node(path.last(), search_latest, forest) {
                    Some(PrivateNode::Dir(_)) => Some(FsError::DirectoryAlreadyExists),
                    _ => None,
                },
                None => None,
            }
        }
    }

    /// Whether `root` and `after` are this tree and `forest` with the
    /// directory at `path` replaced by `new_tail`: `old_tail` is the
    /// directory that stood at `path`, or a new, empty one at the end of a
    /// way of new, empty directories where the path did not lead that far;
    /// and `root` and `after` are what fixing up that way gives with
    /// `new_tail` at its end.
    #[verifier::opaque]
    pub open spec fn rebuilt_along(
        &self,
        path: Seq<Seq<char>>,
        search_latest: bool,
        time: i64,
        forest: PrivateForest,
        old_tail: Rc<PrivateDirectory>,
        new_tail: Rc<PrivateDirectory>,
        root: Rc<PrivateDirectory>,
        after: PrivateForest,
    ) -> bool {
        exists|nodes: PathNodes<PrivateDirectory>|
            #![all_triggers]
            {
                &&& self.reaches_or_creates(path, search_latest, time, forest, nodes)
                &&& nodes.tail == old_tail
                &&& fixed_up(PathNodes { path: nodes.path, tail: new_tail }, forest, root, after)
            }
    }

    /// Whether `file` is what a write at `time` of `content` puts under
    /// `name` in `dir`: the file that stands there, one ratchet step on, with
    /// the new content and time of change; or, where none stands there, a
    /// new file below `dir`.
    pub open spec fn file_for(
        dir: PrivateDirectory,
        name: Seq<char>,
        search_latest: bool,
        forest: PrivateForest,
        content: Seq<u8>,
        time: i64,
        file: PrivateFile,
    ) -> bool {
        &&& file.content@ == content
        &&& file.metadata.modified == Some(time)
        &&& match dir.spec_lookup_node(name, search_latest, forest) {
            Some(PrivateNode::File(before)) => {
                &&& ratchet_successor(before.header.ratchet@) == Some(file.header.ratchet@)
                &&& file.header.inumber == before.header.inumber
                &&& file.header.bare_name == before.header.bare_name
                &&& file.metadata.created == before.metadata.created
            },
            _ => {
                &&& file.metadata.created == Some(time)
                &&& file.header.bare_name@ == sha3_256(
                    dir.header.bare_name@ + file.header.inumber@,
                )
            },
        }
    }

    /// Whether `later` is `dir` with the entry under `name` pointing at the
    /// revision that `header` stands at, and nothing else changed.
    pub open spec fn entry_put(
        dir: PrivateDirectory,
        name: Seq<char>,
        header: PrivateNodeHeader,
        later: PrivateDirectory,
    ) -> bool {
        &&& later.header == dir.header
        &&& later.metadata == dir.metadata
        &&& later.entries@.contains_key(name)
        &&& points_at(later.entries@[name], header)
        &&& later.entries@ == dir.entries@.insert(name, later.entries@[name])
    }

    /// The file that a write puts under `filename` in `directory`: the file
    /// that stands there, at its next revision and with the new content, or a
    /// new file. There is none where a directory stands there.
    fn file_to_write(
        directory: &PrivateDirectory,
        filename: &String,
        search_latest: bool,
        time: i64,
        content: Vec<u8>,
        forest: &PrivateForest,
    ) -> (file: Result<PrivateFile, FsError>)
        ensures
            match file {
                Ok(file) => {
                    &&& !(directory.spec_lookup_node(
                        filename@,
                        search_latest,
                        *forest,
                    ) matches Some(PrivateNode::Dir(_)))
                    &&& PrivateDirectory::file_for(
                        *directory,
                        filename@,
                        search_latest,
                        *forest,
                        content@,
                        time,
                        file,
                    )
                },
                Err(e) => {
                    &&& e == FsError::DirectoryAlreadyExists
                    &&& directory.spec_lookup_node(
                        filename@,
                        search_latest,
                        *forest,
                    ) matches Some(PrivateNode::Dir(_))
                },
            },
    {
        match directory.lookup_node(filename.as_str(), search_latest, forest) {
            Some(PrivateNode::File(file_before)) => {
                let mut file = file_before.duplicate();
                file.content = content;
                file.metadata.upsert_mtime(time);
                file.header.advance_ratchet();
                Ok(file)
            },
            Some(PrivateNode::Dir(_)) => Err(FsError::DirectoryAlreadyExists),
            None => Ok(PrivateFile::with_content(&directory.header.bare_name, time, content)),
        }
    }

    /// Writes a file at a path: makes the directories that are missing, puts
    /// the content into the file that stands there, at its next revision, or
    /// into a new file, and gives every directory on the way its next
    /// revision.
    ///
    /// The new forest holds what the old one held, then the new revisions
    /// of the directories on the way, the deepest first, and last the file.
    pub fn write(
        self: Rc<Self>,
        path_segments: &[String],
        search_latest: bool,
        time: i64,
        content: Vec<u8>,
        forest: Rc<PrivateForest>,
    ) -> (written: Result<PrivateOpResult<()>, FsError>)
        ensures
            match written {
                Ok(r) => {
                    &&& self.write_refusal(names_of(path_segments@), search_latest, *forest) is None
                    &&& r.root_dir.follows_on(*self)
                    &&& r.forest.entries().len() == forest.entries().len() + path_segments@.len()
                        + 1
                    &&& r.forest.entries().take(forest.entries().len() as int) == forest.entries()
                    &&& r.forest.entries().last().1 matches PrivateNode::File(file)
                    &&& r.forest.entries().last().0 == file.header@.hash()
                    &&& file.content@ == content@
                    &&& file.metadata.modified == Some(time)
                    &&& exists|
                        old_tail: Rc<PrivateDirectory>,
                        new_tail: Rc<PrivateDirectory>,
                        fixed: PrivateForest,
                    |
                        #![all_triggers]
                        {
                            &&& self.rebuilt_along(
                                names_of(path_segments@).drop_last(),
                                search_latest,
                                time,
                                *forest,
                                old_tail,
                                new_tail,
                                r.root_dir,
                                fixed,
                            )
                            &&& PrivateDirectory::file_for(
                                *old_tail,
                                names_of(path_segments@).last(),
                                search_latest,
                                *forest,
                                content@,
                                time,
                                *file,
                            )
                            &&& PrivateDirectory::entry_put(
                                *old_tail,
                                names_of(path_segments@).last(),
                                file.header,
                                *new_tail,
                            )
                            &&& r.forest.entries() == fixed.entries().push(
                                r.forest.entries().last(),
                            )
                        }
                },
                Err(e) => self.write_refusal(names_of(path_segments@), search_latest, *forest)
                    == Some(e),
            },
    {
        if path_segments.len() == 0 {
            return Err(FsError::InvalidPath);
        }
        let last = path_segments.len() - 1;
        let directory_path = slice_subrange(path_segments, 0, last);
        let filename = &path_segments[last];
        let ghost path = names_of(path_segments@);
        proof {
            assert(names_of(directory_path@) =~= path.drop_last());
        }
        let nodes = match share_rc(&self).get_or_create_path_nodes(
            directory_path,
            search_latest,
            time,
            &forest,
        ) {
            Ok(nodes) => nodes,
            Err(e) => {
                return Err(e);
            },
        };
        proof {
            self.lemma_reaches_or_creates(
                path.drop_last(),
                search_latest,
                time,
                held(forest),
                nodes,
            );
        }
        let mut directory = nodes.tail.duplicate();
        let file = match Self::file_to_write(&directory, filename, search_latest, time, content, &forest) {
            Ok(file) => file,
            Err(e) => {
                return Err(e);
            },
        };
        let child_private_ref = file.header.get_private_ref();
        directory.entries.insert(filename.clone(), child_private_ref);
        let PathNodes { path: way, tail: old_tail } = nodes;
        let new_tail = Rc::new(directory);
        let changed = PathNodes { path: way, tail: share_rc(&new_tail) };
        let ghost changed_nodes = changed;
        let (root_dir, fixed_forest) = Self::fix_up_path_nodes(changed, share_rc(&forest));
        let file = Rc::new(file);
        let after = fixed_forest.put(&child_private_ref, &PrivateNode::File(share_rc(&file)));
        proof {
            lemma_fixed_up_root(changed_nodes, held(forest), root_dir, held(fixed_forest));
            reveal(PrivateDirectory::rebuilt_along);
            assert(self.rebuilt_along(
                path.drop_last(),
                search_latest,
                time,
                held(forest),
                old_tail,
                new_tail,
                root_dir,
                held(fixed_forest),
            ));
        }
        Ok(PrivateOpResult { root_dir, forest: after, result: () })
    }
}


impl PrivateDirectory {
    /// Why nothing can be removed at `path`, if nothing can: the path is
    /// empty, a file stands in the way, or the path leads to nothing that
    /// the forest holds.
    pub open spec fn rm_refusal(
        &self,
        path: Seq<Seq<char>>,
        search_latest: bool,
        forest: PrivateForest,
    ) -> Option<FsError> {
        if path.len() == 0 {
            Some(FsError::InvalidPath)
        } else {
            match self.spec_reach(path.drop_last(), search_latest, forest) {
                Some(parent) => match parent.spec_lookup_node(path.last(), false, forest) {
                    Some(_) => None,
                    None => Some(FsError::NotFound),
                },
                None => Some(self.reach_failure(path.drop_last(), search_latest, forest)),
            }
        }
    }

    /// Whether `root` and `after` are this tree and `forest` without the
    /// entry at `path`, and `node` is the node that the entry pointed to.
    #[verifier::opaque]
    pub open spec fn removed_at(
        &self,
        path: Seq<Seq<char>>,
        search_latest: bool,
        forest: PrivateForest,
        root: Rc<PrivateDirectory>,
        after: PrivateForest,
        node: PrivateNode,
    ) -> bool {
        exists|old_tail: Rc<PrivateDirectory>, new_tail: Rc<PrivateDirectory>|
            #![all_triggers]
            {
                &&& self.rebuilt_along(
                    path.drop_last(),
                    search_latest,
                    0,
                    forest,
                    old_tail,
                    new_tail,
                    root,
                    after,
                )
                &&& self.spec_reach(path.drop_last(), search_latest, forest) == Some(*old_tail)
                &&& old_tail.spec_lookup_node(path.last(), false, forest) == Some(node)
                &&& new_tail.header == old_tail.header
                &&& new_tail.metadata == old_tail.metadata
                &&& new_tail.entries@ == old_tail.entries@.remove(path.last())
            }
    }

    /// Takes the entry at a path out of its directory, gives every directory
    /// on the way its next revision, and hands out the node that the entry
    /// pointed to. Fails with `InvalidPath` for the empty path, with
    /// `NotADirectory` where a file stands in the way, and with `NotFound`
    /// where the path leads to nothing that the forest holds.
    ///
    /// The new forest holds what the old one held and then the new
    /// revisions of the directories on the way.
    pub fn rm(
        self: Rc<Self>,
        path_segments: &[String],
        search_latest: bool,
        forest: Rc<PrivateForest>,
    ) -> (taken: Result<PrivateOpResult<PrivateNode>, FsError>)
        ensures
            match taken {
                Ok(r) => {
                    &&& self.rm_refusal(names_of(path_segments@), search_latest, *forest) is None
                    &&& self.spec_reach(
                        names_of(path_segments@).drop_last(),
                        search_latest,
                        *forest,
                    ) matches Some(parent)
                    &&& parent.spec_lookup_node(
                        names_of(path_segments@).last(),
                        false,
                        *forest,
                    ) == Some(r.result)
                    &&& r.root_dir.follows_on(*self)
                    &&& r.forest.entries().len() == forest.entries().len() + path_segments@.len()
                    &&& r.forest.entries().take(forest.entries().len() as int) == forest.entries()
                    &&& self.removed_at(
                        names_of(path_segments@),
                        search_latest,
                        *forest,
                        r.root_dir,
                        *r.forest,
                        r.result,
                    )
                },
                Err(e) => self.rm_refusal(names_of(path_segments@), search_latest, *forest)
                    == Some(e),
            },
    {
        if path_segments.len() == 0 {
            return Err(FsError::InvalidPath);
        }
        let last = path_segments.len() - 1;
        let directory_path = slice_subrange(path_segments, 0, last);
        let node_name = &path_segments[last];
        let ghost path = names_of(path_segments@);
        proof {
            assert(names_of(directory_path@) =~= path.drop_last());
        }
        let nodes = match share_rc(&self).reach(directory_path, search_latest, &forest) {
            Ok(nodes) => nodes,
            Err(e) => {
                return Err(e);
            },
        };
        proof {
            lemma_descend_len(
                PrivateDirectory::child_by(search_latest, held(forest)),
                held(self),
                path.drop_last(),
            );
        }
        let removed_node = match nodes.tail.lookup_node(node_name.as_str(), false, &forest) {
            Some(node) => node,
            None => {
                return Err(FsError::NotFound);
            },
        };
        let mut directory = nodes.tail.duplicate();
        let _ = directory.entries.remove(node_name.as_str());
        let PathNodes { path: way, tail: old_tail } = nodes;
        let new_tail = Rc::new(directory);
        let changed = PathNodes { path: way, tail: share_rc(&new_tail) };
        let ghost changed_nodes = changed;
        let (root_dir, after) = Self::fix_up_path_nodes(changed, share_rc(&forest));
        proof {
            lemma_fixed_up_root(changed_nodes, held(forest), root_dir, held(after));
            reveal(PrivateDirectory::rebuilt_along);
            reveal(PrivateDirectory::removed_at);
            assert(self.rebuilt_along(
                path.drop_last(),
                search_latest,
                0,
                held(forest),
                old_tail,
                new_tail,
                root_dir,
                held(after),
            ));
        }
        Ok(PrivateOpResult { root_dir, forest: after, result: removed_node })
    }

    /// Why a node cannot be put at `path`, if it cannot: the path is empty,
    /// a file stands in the way, a name on the way leads to nothing, or the
    /// last name is taken.
    pub open spec fn placing_refusal(
        &self,
        path: Seq<Seq<char>>,
        search_latest: bool,
        forest: PrivateForest,
    ) -> Option<FsError> {
        if path.len() == 0 {
            Some(FsError::InvalidPath)
        } else {
            match self.spec_reach(path.drop_last(), search_latest, forest) {
                Some(parent) => if parent.entries@.contains_key(path.last()) {
                    Some(FsError::FileAlreadyExists)
                } else {
                    None
                },
                None => Some(self.reach_failure(path.drop_last(), search_latest, forest)),
            }
        }
    }

    /// Whether `root` and `after` are this tree and `forest` with an entry
    /// for `node` at `path`: the entry points at the revision that `node`
    /// stands at, and `after` holds, behind the new revisions of the
    /// directories on the way, the node with its time of change set to
    /// `time`.
    #[verifier::opaque]
    pub open spec fn placed_at(
        &self,
        path: Seq<Seq<char>>,
        search_latest: bool,
        time: i64,
        node: PrivateNode,
        forest: PrivateForest,
        root: Rc<PrivateDirectory>,
        after: PrivateForest,
    ) -> bool {
        exists|old_tail: Rc<PrivateDirectory>, new_tail: Rc<PrivateDirectory>, fixed: PrivateForest|
            #![all_triggers]
            {
                &&& self.rebuilt_along(
                    path.drop_last(),
                    search_latest,
                    time,
                    forest,
                    old_tail,
                    new_tail,
                    root,
                    fixed,
                )
                &&& self.spec_reach(path.drop_last(), search_latest, forest) == Some(*old_tail)
                &&& PrivateDirectory::entry_put(*old_tail, path.last(), node.spec_header(), *new_tail)
                &&& after.entries().len() == fixed.entries().len() + 1
                &&& after.entries() == fixed.entries().push(after.entries().last())
                &&& after.entries().last().0 == node.spec_header()@.hash()
                &&& node.touched(time, after.entries().last().1)
            }
    }

    /// Puts an entry for `node`, its time of change set to `time`, at a path
    /// where no entry stands yet, files the node, and gives every directory
    /// on the way its next revision.
    ///
    /// The new forest holds what the old one held, then the new revisions
    /// of the directories on the way, and last the node.
    pub fn place(
        self: Rc<Self>,
        path_segments: &[String],
        search_latest: bool,
        time: i64,
        node: &PrivateNode,
        forest: Rc<PrivateForest>,
    ) -> (placed: Result<PrivateOpResult<()>, FsError>)
        ensures
            match placed {
                Ok(r) => {
                    &&& self.placing_refusal(
                        names_of(path_segments@),
                        search_latest,
                        *forest,
                    ) is None
                    &&& r.root_dir.follows_on(*self)
                    &&& r.forest.entries().len() == forest.entries().len() + path_segments@.len()
                        + 1
                    &&& r.forest.entries().take(forest.entries().len() as int) == forest.entries()
                    &&& node.touched(time, r.forest.entries().last().1)
                    &&& r.forest.entries().last().0 == node.spec_header()@.hash()
                    &&& self.placed_at(
                        names_of(path_segments@),
                        search_latest,
                        time,
                        *node,
                        *forest,
                        r.root_dir,
                        *r.forest,
                    )
                },
                Err(e) => self.placing_refusal(names_of(path_segments@), search_latest, *forest)
                    == Some(e),
            },
    {
        if path_segments.len() == 0 {
            return Err(FsError::InvalidPath);
        }
        let last = path_segments.len() - 1;
        let directory_path = slice_subrange(path_segments, 0, last);
        let filename = &path_segments[last];
        let ghost path = names_of(path_segments@);
        proof {
            assert(names_of(directory_path@) =~= path.drop_last());
        }
        let nodes = match share_rc(&self).reach(directory_path, search_latest, &forest) {
            Ok(nodes) => nodes,
            Err(e) => {
                return Err(e);
            },
        };
        proof {
            lemma_descend_len(
                PrivateDirectory::child_by(search_latest, held(forest)),
                held(self),
                path.drop_last(),
            );
        }
        let mut directory = nodes.tail.duplicate();
        if directory.entries.contains_key(filename.as_str()) {
            return Err(FsError::FileAlreadyExists);
        }
        let moved = node.upsert_mtime(time);
        let private_ref = moved.get_header().get_private_ref();
        directory.entries.insert(filename.clone(), private_ref);
        let PathNodes { path: way, tail: old_tail } = nodes;
        let new_tail = Rc::new(directory);
        let changed = PathNodes { path: way, tail: share_rc(&new_tail) };
        let ghost changed_nodes = changed;
        let (root_dir, fixed) = Self::fix_up_path_nodes(changed, share_rc(&forest));
        let after = fixed.put(&private_ref, &moved);
        proof {
            lemma_fixed_up_root(changed_nodes, held(forest), root_dir, held(fixed));
            reveal(PrivateDirectory::rebuilt_along);
            assert(self.rebuilt_along(
                path.drop_last(),
                search_latest,
                time,
                held(forest),
                old_tail,
                new_tail,
                root_dir,
                held(fixed),
            ));
            reveal(PrivateDirectory::placed_at);
        }
        Ok(PrivateOpResult { root_dir, forest: after, result: () })
    }

    /// Moves the node at one path to another, where no entry stands yet, and
    /// sets its time of change to `time`: first takes it out, then puts it
    /// in, each as `rm` and `place` do.
    pub fn basic_mv(
        self: Rc<Self>,
        path_segments_from: &[String],
        path_segments_to: &[String],
        search_latest: bool,
        time: i64,
        forest: Rc<PrivateForest>,
    ) -> (moved: Result<PrivateOpResult<()>, FsError>)
        ensures
            path_segments_to@.len() == 0 ==> (moved matches Err(e) && e == FsError::InvalidPath),
            path_segments_to@.len() > 0 && self.rm_refusal(
                names_of(path_segments_from@),
                search_latest,
                *forest,
            ) is Some ==> (moved matches Err(e) && self.rm_refusal(
                names_of(path_segments_from@),
                search_latest,
                *forest,
            ) == Some(e)),
            moved matches Ok(r) ==> {
                &&& path_segments_to@.len() > 0
                &&& self.rm_refusal(names_of(path_segments_from@), search_latest, *forest) is None
                &&& ratchet_distance_two(*self, *r.root_dir)
                &&& r.forest.entries().take(forest.entries().len() as int) == forest.entries()
            },
            path_segments_to@.len() > 0 && self.rm_refusal(
                names_of(path_segments_from@),
                search_latest,
                *forest,
            ) is None ==> exists|
                without: Rc<PrivateDirectory>,
                without_forest: PrivateForest,
                node: PrivateNode,
            |
                #![all_triggers]
                {
                    &&& self.removed_at(
                        names_of(path_segments_from@),
                        search_latest,
                        *forest,
                        without,
                        without_forest,
                        node,
                    )
                    &&& match moved {
                        Ok(r) => without.placing_refusal(
                            names_of(path_segments_to@),
                            search_latest,
                            without_forest,
                        ) is None && without.placed_at(
                            names_of(path_segments_to@),
                            search_latest,
                            time,
                            node,
                            without_forest,
                            r.root_dir,
                            *r.forest,
                        ),
                        Err(e) => without.placing_refusal(
                            names_of(path_segments_to@),
                            search_latest,
                            without_forest,
                        ) == Some(e),
                    }
                },
    {
        if path_segments_to.len() == 0 {
            return Err(FsError::InvalidPath);
        }
        let PrivateOpResult { root_dir, forest: without, result: removed_node } = match self.rm(
            path_segments_from,
            search_latest,
            share_rc(&forest),
        ) {
            Ok(taken) => taken,
            Err(e) => {
                return Err(e);
            },
        };
        let ghost middle = root_dir;
        match root_dir.place(
            path_segments_to,
            search_latest,
            time,
            &removed_node,
            share_rc(&without),
        ) {
            Ok(r) => {
                proof {
                    let first = self.header.ratchet@;
                    let second = middle.header.ratchet@;
                    let third = r.root_dir.header.ratchet@;
                    assert(advance(second, 1) == advance(third, 0));
                }
                Ok(r)
            },
            Err(e) => Err(e),
        }
    }

    /// Puts the node at one path at another as well, where no entry stands
    /// yet, with its time of change set to `time`. Fails as `get_node` does
    /// on the first path, with `NotFound` where nothing stands there, and as
    /// `place` does.
    pub fn cp(
        self: Rc<Self>,
        path_segments_from: &[String],
        path_segments_to: &[String],
        search_latest: bool,
        time: i64,
        forest: Rc<PrivateForest>,
    ) -> (copied: Result<PrivateOpResult<()>, FsError>)
        ensures
            match self.spec_get_node(names_of(path_segments_from@), search_latest, *forest) {
                Ok(Some(node)) => match copied {
                    Ok(r) => {
                        &&& self.placing_refusal(
                            names_of(path_segments_to@),
                            search_latest,
                            *forest,
                        ) is None
                        &&& r.root_dir.follows_on(*self)
                        &&& r.forest.entries().take(forest.entries().len() as int)
                            == forest.entries()
                        &&& node.touched(time, r.forest.entries().last().1)
                        &&& self.placed_at(
                            names_of(path_segments_to@),
                            search_latest,
                            time,
                            node,
                            *forest,
                            r.root_dir,
                            *r.forest,
                        )
                    },
                    Err(e) => self.placing_refusal(
                        names_of(path_segments_to@),
                        search_latest,
                        *forest,
                    ) == Some(e),
                },
                Ok(None) => copied matches Err(e) && e == FsError::NotFound,
                Err(refused) => copied matches Err(e) && e == refused,
            },
    {
        let node = match share_rc(&self).get_node(
            path_segments_from,
            search_latest,
            share_rc(&forest),
        ) {
            Ok(found) => match found.result {
                Some(node) => node,
                None => {
                    return Err(FsError::NotFound);
                },
            },
            Err(e) => {
                return Err(e);
            },
        };
        self.place(path_segments_to, search_latest, time, &node, forest)
    }
}

/// Whether `later` is the same node as `earlier` two ratchet steps on.
pub open spec fn ratchet_distance_two(earlier: PrivateDirectory, later: PrivateDirectory) -> bool {
    &&& later.header.inumber == earlier.header.inumber
    &&& later.header.bare_name == earlier.header.bare_name
    &&& advance(earlier.header.ratchet@, 2) == Some(later.header.ratchet@)
}

} // verus!
