//! Walking back through the revisions of private nodes.

use vstd::prelude::*;
use std::rc::Rc;
use crate::common::name_map::Shared;
use crate::common::pathnodes::{descend, lemma_descend_len, names_of, PathNodes, PathNodesResult};
use crate::common::share::{held, share_rc};
use vstd::slice::slice_subrange;
use crate::error::FsError;
use crate::private::forest::{lemma_first_under_push, PrivateForest};
use crate::private::header::{HeaderModel, PrivateNodeHeader};
use crate::private::node::{PrivateDirectory, PrivateFile, PrivateNode};
use crate::private::ratchet::{
    advance, lemma_budget_decides, lemma_steps_between_same, lemma_steps_between_some,
    lemma_trail_descends, steps_between, trail,
    PreviousRatchets, Ratchet,
};

verus! {

/// The state of a walk back through the revisions of one node, as a plain
/// value.
pub struct NodeHistoryModel {
    /// The forest in which the revisions are looked up.
    pub forest: PrivateForest,
    /// The header of the revision that was handed out last, or of the node
    /// the walk started from.
    pub header: HeaderModel,
    /// The ratchet states still to be visited, the newest first.
    pub pending: Seq<Seq<char>>,
}

impl NodeHistoryModel {
    /// The walk back from the revision that `header` stands at to the one at
    /// `past`: it visits the states from the one before the header's back to
    /// `past` itself. There is none where `past` does not lead to the
    /// header's state within `budget` steps.
    pub open spec fn spanning(
        forest: PrivateForest,
        header: HeaderModel,
        past: Seq<char>,
        budget: nat,
    ) -> Option<NodeHistoryModel> {
        match steps_between(past, header.ratchet, budget) {
            Some(n) => Some(NodeHistoryModel { forest, header, pending: trail(past, n) }),
            None => None,
        }
    }

    /// What the next step hands out: the revision that the forest holds at
    /// the next state to visit. `None` where no state is left, and where
    /// the forest holds no revision at that state.
    pub open spec fn next_node(self) -> Option<PrivateNode> {
        if self.pending.len() == 0 {
            None
        } else {
            self.forest.lookup(self.header.at(self.pending[0]).hash())
        }
    }

    /// The walk after its next step.
    pub open spec fn stepped(self) -> NodeHistoryModel {
        if self.pending.len() == 0 {
            self
        } else {
            NodeHistoryModel {
                forest: self.forest,
                header: self.header.at(self.pending[0]),
                pending: self.pending.skip(1),
            }
        }
    }

    /// What the next step hands out where a directory is asked for.
    pub open spec fn next_dir(self) -> Result<Option<Rc<PrivateDirectory>>, FsError> {
        match self.next_node() {
            Some(PrivateNode::Dir(dir)) => Ok(Some(dir)),
            Some(PrivateNode::File(_)) => Err(FsError::NotADirectory),
            None => Ok(None),
        }
    }

    /// What the next step hands out where a file is asked for.
    pub open spec fn next_file(self) -> Result<Option<Rc<PrivateFile>>, FsError> {
        match self.next_node() {
            Some(PrivateNode::File(file)) => Ok(Some(file)),
            Some(PrivateNode::Dir(_)) => Err(FsError::NotAFile),
            None => Ok(None),
        }
    }

    /// What the walk hands out step by step until no state is left.
    pub open spec fn remaining_nodes(self) -> Seq<Option<PrivateNode>> {
        Seq::new(
            self.pending.len(),
            |i: int| self.forest.lookup(self.header.at(self.pending[i]).hash()),
        )
    }
}

impl NodeHistoryModel {
    /// The walk after `steps` steps.
    pub open spec fn after(self, steps: nat) -> NodeHistoryModel
        decreases steps,
    {
        if steps == 0 {
            self
        } else {
            self.stepped().after((steps - 1) as nat)
        }
    }

    /// The same walk over another forest.
    pub open spec fn over(self, forest: PrivateForest) -> NodeHistoryModel {
        NodeHistoryModel { forest, header: self.header, pending: self.pending }
    }
}

/// A walk opened at the very state that its node stands at has nothing to
/// hand out: the first step gives nothing and leaves the walk as it was.
pub proof fn lemma_noop_checkpoint(forest: PrivateForest, header: HeaderModel, budget: nat)
    ensures
        NodeHistoryModel::spanning(forest, header, header.ratchet, budget) matches Some(walk)
            && walk.pending.len() == 0 && walk.next_node() is None && walk.stepped() == walk,
{
    lemma_steps_between_same(header.ratchet, budget);
}

/// What a walk has come to after some of its steps: it has as many states
/// less to visit, and the forest and the node are the same.
pub proof fn lemma_after(walk: NodeHistoryModel, steps: nat)
    requires
        steps <= walk.pending.len(),
    ensures
        walk.after(steps).pending == walk.pending.skip(steps as int),
        walk.after(steps).forest == walk.forest,
        walk.after(steps).header.bare_name == walk.header.bare_name,
        walk.after(steps).header.inumber == walk.header.inumber,
    decreases steps,
{
    if steps > 0 {
        lemma_after(walk.stepped(), (steps - 1) as nat);
    }
}

/// A full walk: step after step it hands out what the forest holds at each
/// state on the way, in their order, as many times as there are states; the
/// step after the last hands out nothing and leaves the walk as it is.
pub proof fn lemma_full_walk(walk: NodeHistoryModel, steps: nat)
    requires
        steps <= walk.pending.len(),
    ensures
        walk.remaining_nodes().len() == walk.pending.len(),
        steps < walk.pending.len() ==> walk.after(steps).next_node() == walk.remaining_nodes()[steps as int],
        steps == walk.pending.len() ==> walk.after(steps).next_node() is None && walk.after(
            steps,
        ).stepped() == walk.after(steps),
{
    lemma_after(walk, steps);
}

/// A walk over a node that was written at every state on the way hands out
/// a node at every step: as many nodes as steps lead from the checkpoint to
/// the node's state, the newest first, and then nothing.
pub proof fn lemma_walk_counts_writes(
    forest: PrivateForest,
    header: HeaderModel,
    past: Seq<char>,
    budget: nat,
    writes: nat,
)
    requires
        steps_between(past, header.ratchet, budget) == Some(writes),
        forall|k: nat|
            k < writes ==> forest.lookup(
                header.at(#[trigger] advance(past, k).unwrap()).hash(),
            ) is Some,
    ensures
        NodeHistoryModel::spanning(forest, header, past, budget) matches Some(walk) && {
            &&& walk.pending.len() == writes
            &&& forall|i: nat|
                i < writes ==> (#[trigger] walk.after(i)).next_node() == forest.lookup(
                    header.at(advance(past, (writes - 1 - i) as nat).unwrap()).hash(),
                ) && walk.after(i).next_node() is Some
            &&& walk.after(writes).next_node() is None
        },
{
    let walk = NodeHistoryModel::spanning(forest, header, past, budget).unwrap();
    assert forall|i: nat| i < writes implies (#[trigger] walk.after(i)).next_node()
        == forest.lookup(header.at(advance(past, (writes - 1 - i) as nat).unwrap()).hash())
        && walk.after(i).next_node() is Some by {
        lemma_full_walk(walk, i);
    }
    lemma_full_walk(walk, writes);
}

/// The revision of a node that the forest holds at the state `steps` steps
/// from `past`, where it holds one that stands at that very state.
pub open spec fn written_at(
    forest: PrivateForest,
    header: HeaderModel,
    past: Seq<char>,
    steps: nat,
) -> Option<PrivateNode> {
    match advance(past, steps) {
        Some(state) => match forest.lookup(header.at(state).hash()) {
            Some(node) => if node.spec_header()@ == header.at(state) {
                Some(node)
            } else {
                None
            },
            None => None,
        },
        None => None,
    }
}

/// A node written at every step since the checkpoint is handed out once for
/// each write, the newest first, and then no more.
///
/// The node stands `writes` steps from the checkpoint, the chain does not
/// come to its state in fewer steps, the budget allows that many steps, and
/// at every state from the checkpoint up to the one before the node's the
/// forest holds the revision that stands there. Then the walk exists, its
/// step number `i` hands out the revision `i + 1` steps before the node, and
/// the step after the last hands out nothing.
pub proof fn lemma_walk_of_written_node(
    forest: PrivateForest,
    header: HeaderModel,
    past: Seq<char>,
    budget: nat,
    writes: nat,
)
    requires
        advance(past, writes) == Some(header.ratchet),
        forall|m: nat| m < writes ==> advance(past, m) != Some(header.ratchet),
        writes <= budget,
        forall|k: nat| k < writes ==> (#[trigger] written_at(forest, header, past, k)) is Some,
    ensures
        NodeHistoryModel::spanning(forest, header, past, budget) matches Some(walk) && {
            &&& walk.pending.len() == writes
            &&& forall|i: nat|
                i < writes ==> {
                    &&& (#[trigger] walk.after(i)).next_node() == written_at(
                        forest,
                        header,
                        past,
                        (writes - 1 - i) as nat,
                    )
                    &&& walk.after(i).next_node() matches Some(revision)
                    &&& Some(revision.spec_header().ratchet@) == advance(
                        past,
                        (writes - 1 - i) as nat,
                    )
                }
            &&& walk.after(writes).next_node() is None
        },
{
    lemma_budget_decides(past, header.ratchet, writes, budget);
    assert forall|k: nat| k < writes implies forest.lookup(
        header.at(#[trigger] advance(past, k).unwrap()).hash(),
    ) is Some by {
        assert(written_at(forest, header, past, k) is Some);
    }
    lemma_walk_counts_writes(forest, header, past, budget, writes);
    let walk = NodeHistoryModel::spanning(forest, header, past, budget).unwrap();
    assert forall|i: nat| i < writes implies {
        &&& (#[trigger] walk.after(i)).next_node() == written_at(
            forest,
            header,
            past,
            (writes - 1 - i) as nat,
        )
        &&& walk.after(i).next_node() matches Some(revision)
        &&& Some(revision.spec_header().ratchet@) == advance(past, (writes - 1 - i) as nat)
    } by {
        let k = (writes - 1 - i) as nat;
        assert(written_at(forest, header, past, k) is Some);
    }
}

/// What a walk hands out does not change where the forest is put to, as
/// far as the forest held it before: a revision that the walk found stays
/// the revision that it finds.
pub proof fn lemma_walk_survives_put(
    walk: NodeHistoryModel,
    after: PrivateForest,
    filed: (Seq<u8>, PrivateNode),
    i: int,
)
    requires
        after.entries() == walk.forest.entries().push(filed),
        0 <= i < walk.pending.len(),
    ensures
        walk.remaining_nodes()[i] is Some ==> walk.over(after).remaining_nodes()[i]
            == walk.remaining_nodes()[i],
        filed.0 != walk.header.at(walk.pending[i]).hash() ==> walk.over(after).remaining_nodes()[i]
            == walk.remaining_nodes()[i],
{
    lemma_first_under_push(walk.forest.entries(), filed, walk.header.at(walk.pending[i]).hash());
}

/// A walk back through the revisions of one private node, from the revision
/// of a given header to a past ratchet state of the same node.
pub struct PrivateNodeHistory {
    /// The forest as it was when the walk began.
    forest: Rc<PrivateForest>,
    /// The header of the revision after the one that comes next.
    header: PrivateNodeHeader,
    /// The ratchet states of the revisions still to come.
    ratchets: PreviousRatchets,
}

impl View for PrivateNodeHistory {
    type V = NodeHistoryModel;

    closed spec fn view(&self) -> NodeHistoryModel {
        NodeHistoryModel { forest: *self.forest, header: self.header@, pending: self.ratchets@ }
    }
}

impl PrivateNodeHistory {
    /// The walk back from `node` to its revision at `past_ratchet`.
    ///
    /// It exists where `past_ratchet` leads to the node's ratchet state in
    /// `discrepancy_budget` steps or fewer; the search for that number of
    /// steps takes no more steps than the budget allows.
    pub fn of(
        node: &PrivateNode,
        past_ratchet: &Ratchet,
        discrepancy_budget: usize,
        forest: Rc<PrivateForest>,
    ) -> (history: Result<Self, FsError>)
        ensures
            match history {
                Ok(h) => Some(h@) == NodeHistoryModel::spanning(
                    *forest,
                    node.spec_header()@,
                    past_ratchet@,
                    discrepancy_budget as nat,
                ),
                Err(e) => e == FsError::NoIntermediateRatchet && NodeHistoryModel::spanning(
                    *forest,
                    node.spec_header()@,
                    past_ratchet@,
                    discrepancy_budget as nat,
                ) is None,
            },
    {
        Self::from_header(node.get_header().share(), past_ratchet, discrepancy_budget, forest)
    }

    /// The walk back from the revision that `header` stands at to the one at
    /// `past_ratchet`. See `of`.
    pub fn from_header(
        header: PrivateNodeHeader,
        past_ratchet: &Ratchet,
        discrepancy_budget: usize,
        forest: Rc<PrivateForest>,
    ) -> (history: Result<Self, FsError>)
        ensures
            match history {
                Ok(h) => Some(h@) == NodeHistoryModel::spanning(
                    *forest,
                    header@,
                    past_ratchet@,
                    discrepancy_budget as nat,
                ),
                Err(e) => e == FsError::NoIntermediateRatchet && NodeHistoryModel::spanning(
                    *forest,
                    header@,
                    past_ratchet@,
                    discrepancy_budget as nat,
                ) is None,
            },
    {
        match PreviousRatchets::new(past_ratchet, &header.ratchet, discrepancy_budget) {
            Ok(ratchets) => Ok(PrivateNodeHistory { forest, header, ratchets }),
            Err(e) => Err(e),
        }
    }

    /// Steps the walk one revision back and hands out the node of that
    /// revision.
    ///
    /// Hands out `None` where no revision is left, and also where the forest
    /// holds no node at the revision stepped to: not every state of a
    /// ratchet was written.
    pub fn get_previous_node(&mut self) -> (node: Result<Option<PrivateNode>, FsError>)
        ensures
            node == Ok::<Option<PrivateNode>, FsError>(old(self)@.next_node()),
            final(self)@ == old(self)@.stepped(),
    {
        match self.ratchets.next() {
            None => Ok(None),
            Some(previous_ratchet) => {
                self.header.ratchet = previous_ratchet;
                Ok(self.forest.get(&self.header.get_private_ref()))
            },
        }
    }

    /// Like `get_previous_node`, for a node that is a directory; fails
    /// where the node of the revision is a file.
    pub fn get_previous_dir(&mut self) -> (dir: Result<Option<Rc<PrivateDirectory>>, FsError>)
        ensures
            dir == old(self)@.next_dir(),
            final(self)@ == old(self)@.stepped(),
    {
        match self.get_previous_node() {
            Ok(Some(PrivateNode::Dir(dir))) => Ok(Some(dir)),
            Ok(Some(PrivateNode::File(_))) => Err(FsError::NotADirectory),
            Ok(None) => Ok(None),
            Err(e) => Err(e),
        }
    }

    /// Like `get_previous_node`, for a node that is a file; fails where the
    /// node of the revision is a directory.
    pub fn get_previous_file(&mut self) -> (file: Result<Option<Rc<PrivateFile>>, FsError>)
        ensures
            file == old(self)@.next_file(),
            final(self)@ == old(self)@.stepped(),
    {
        match self.get_previous_node() {
            Ok(Some(PrivateNode::File(file))) => Ok(Some(file)),
            Ok(Some(PrivateNode::Dir(_))) => Err(FsError::NotAFile),
            Ok(None) => Ok(None),
            Err(e) => Err(e),
        }
    }
}


/// One level of the path to a node: a directory on the way, the walk
/// back through that directory's own revisions, and the name of the child
/// by which the path goes on from it. A plain value.
pub struct SegmentModel {
    pub dir: PrivateDirectory,
    pub history: NodeHistoryModel,
    pub name: Seq<char>,
}

/// The state of a walk back through the revisions of the node at a path, as
/// a plain value.
pub struct PathHistoryModel {
    /// The forest in which revisions are looked up.
    pub forest: PrivateForest,
    /// The budget for every search between two ratchet states.
    pub budget: nat,
    /// The levels of the path, from the root to the parent of the node.
    pub path: Seq<SegmentModel>,
    /// The walk back through the node's own revisions.
    pub target: NodeHistoryModel,
}

/// The directories set aside while an older ancestor is looked for, each with
/// the name by which the path goes on from it; the deepest first.
pub type SetAside = Seq<(PrivateDirectory, Seq<char>)>;

/// Takes levels off the deep end of `path` until one is met whose own walk
/// hands out an older directory; that level goes back with the older
/// directory in it, and the levels taken off before it are set aside.
///
/// Gives the path that is left and what was set aside, or, where no level
/// had anything left to hand out, the path, by then empty, and nothing.
pub open spec fn find_and_step(path: Seq<SegmentModel>, set_aside: SetAside) -> Result<
    (Seq<SegmentModel>, Option<SetAside>),
    FsError,
>
    decreases path.len(),
{
    if path.len() == 0 {
        Ok((path, None))
    } else {
        let level = path.last();
        match level.history.next_dir() {
            Err(e) => Err(e),
            Ok(Some(previous)) => Ok(
                (
                    path.drop_last().push(
                        SegmentModel {
                            dir: *previous,
                            history: level.history.stepped(),
                            name: level.name,
                        },
                    ),
                    Some(set_aside),
                ),
            ),
            Ok(None) => find_and_step(path.drop_last(), set_aside.push((level.dir, level.name))),
        }
    }
}

/// Puts the levels that were set aside back onto `path`, the shallowest
/// first, each with the revision of its directory that comes before the one
/// set aside and is found below the older directory now above it.
///
/// Gives the path as far as it was rebuilt, and whether it was rebuilt whole.
/// It is not where the older directory above has no directory under the
/// name, where the directory found there does not lead to the one set aside
/// within the budget, or where the forest holds no revision before the one
/// set aside.
pub open spec fn repopulate(
    forest: PrivateForest,
    budget: nat,
    path: Seq<SegmentModel>,
    set_aside: SetAside,
) -> Result<(Seq<SegmentModel>, bool), FsError>
    decreases set_aside.len(),
{
    if set_aside.len() == 0 {
        Ok((path, true))
    } else {
        let directory = set_aside.last().0;
        let name = set_aside.last().1;
        let ancestor = path.last();
        match ancestor.dir.spec_lookup_node(ancestor.name, false, forest) {
            Some(PrivateNode::Dir(older)) => match NodeHistoryModel::spanning(
                forest,
                directory.header@,
                older.header.ratchet@,
                budget,
            ) {
                None => Ok((path, false)),
                Some(history) => match history.next_dir() {
                    Err(e) => Err(e),
                    Ok(None) => Ok((path, false)),
                    Ok(Some(previous)) => repopulate(
                        forest,
                        budget,
                        path.push(
                            SegmentModel { dir: *previous, history: history.stepped(), name },
                        ),
                        set_aside.drop_last(),
                    ),
                },
            },
            _ => Ok((path, false)),
        }
    }
}

impl PathHistoryModel {
    /// The walk with another path and another walk for its node.
    pub open spec fn with(self, path: Seq<SegmentModel>, target: NodeHistoryModel) -> Self {
        PathHistoryModel { forest: self.forest, budget: self.budget, path, target }
    }

    /// One step back: the walk after the step and the node handed out, or
    /// the error that ends the step.
    ///
    /// The node's own walk is stepped first. Where it hands out nothing, the
    /// nearest ancestor with a revision left is stepped back, the path below
    /// it is rebuilt from that older ancestor down, and the node's walk
    /// starts anew from the node's revision found there. Nothing is handed
    /// out where no ancestor has a revision left, where the path cannot be
    /// rebuilt, where the older parent has no entry for the node, and where
    /// the node found there does not lead to the node within the budget.
    pub open spec fn step(self) -> Result<(PathHistoryModel, Option<PrivateNode>), FsError> {
        let target = self.target.stepped();
        match self.target.next_node() {
            Some(node) => Ok((self.with(self.path, target), Some(node))),
            None => match find_and_step(self.path, Seq::empty()) {
                Err(e) => Err(e),
                Ok((path, None)) => Ok((self.with(path, target), None)),
                Ok((path, Some(set_aside))) => match repopulate(
                    self.forest,
                    self.budget,
                    path,
                    set_aside,
                ) {
                    Err(e) => Err(e),
                    Ok((path, false)) => Ok((self.with(path, target), None)),
                    Ok((path, true)) => match path.last().dir.spec_lookup_node(
                        path.last().name,
                        false,
                        self.forest,
                    ) {
                        None => Ok((self.with(path, target), None)),
                        Some(older) => match NodeHistoryModel::spanning(
                            self.forest,
                            target.header,
                            older.spec_header().ratchet@,
                            self.budget,
                        ) {
                            None => Ok((self.with(path, target), None)),
                            Some(history) => Ok(
                                (self.with(path, history.stepped()), history.next_node()),
                            ),
                        },
                    },
                },
            },
        }
    }
}

/// The levels of a path at which no ancestor has a revision to go back to
/// yet: `dirs` are the directories on the way, `names` the names taken from
/// them.
pub open spec fn still_levels(
    forest: PrivateForest,
    dirs: Seq<PrivateDirectory>,
    names: Seq<Seq<char>>,
) -> Seq<SegmentModel> {
    Seq::new(
        names.len(),
        |i: int|
            SegmentModel {
                dir: dirs[i],
                history: NodeHistoryModel {
                    forest,
                    header: dirs[i].header@,
                    pending: Seq::empty(),
                },
                name: names[i],
            },
    )
}

/// The directories on the way from `directory` along `ancestors`, and the
/// walk from the newest revision of the node under `name` in the last of
/// them back to the revision that stands there.
///
/// Fails with `NotFound` where a name on the way, or `name` itself, is not
/// there, with `NotADirectory` where a name on the way is that of a file,
/// and with `NoIntermediateRatchet` where the newest revision lies further
/// from the one that stands there than the budget allows.
pub open spec fn target_walk(
    directory: PrivateDirectory,
    budget: nat,
    ancestors: Seq<Seq<char>>,
    name: Seq<char>,
    search_latest: bool,
    forest: PrivateForest,
) -> Result<(Seq<PrivateDirectory>, NodeHistoryModel), FsError> {
    let dirs = descend(PrivateDirectory::child_by(false, forest), directory, ancestors);
    if dirs.len() <= ancestors.len() {
        match dirs.last().spec_lookup_node(ancestors[dirs.len() - 1], false, forest) {
            None => Err(FsError::NotFound),
            Some(_) => Err(FsError::NotADirectory),
        }
    } else {
        match dirs.last().spec_lookup_node(name, false, forest) {
            None => Err(FsError::NotFound),
            Some(target) => {
                let latest = if search_latest {
                    target.spec_search_latest(forest)
                } else {
                    target
                };
                match NodeHistoryModel::spanning(
                    forest,
                    latest.spec_header()@,
                    target.spec_header().ratchet@,
                    budget,
                ) {
                    None => Err(FsError::NoIntermediateRatchet),
                    Some(history) => Ok((dirs, history)),
                }
            },
        }
    }
}

impl PathHistoryModel {
    /// The walk back through the revisions of the node at `path` below
    /// `directory`, as far back as the root's revision at ratchet state
    /// `past`.
    ///
    /// With an empty path it is the walk through the revisions of
    /// `directory` itself. Otherwise the node's own walk spans from its
    /// newest revision (with `search_latest`) to the revision now in the
    /// tree, every ancestor starts with nothing to go back to, and only the
    /// root's walk spans back to `past`.
    pub open spec fn opening(
        directory: PrivateDirectory,
        past: Seq<char>,
        budget: nat,
        path: Seq<Seq<char>>,
        search_latest: bool,
        forest: PrivateForest,
    ) -> Result<PathHistoryModel, FsError> {
        if path.len() == 0 {
            match NodeHistoryModel::spanning(forest, directory.header@, past, budget) {
                Some(target) => Ok(PathHistoryModel { forest, budget, path: Seq::empty(), target }),
                None => Err(FsError::NoIntermediateRatchet),
            }
        } else {
            match target_walk(directory, budget, path.drop_last(), path.last(), search_latest, forest) {
                Err(e) => Err(e),
                Ok((dirs, target)) => match NodeHistoryModel::spanning(
                    forest,
                    directory.header@,
                    past,
                    budget,
                ) {
                    None => Err(FsError::NoIntermediateRatchet),
                    Some(root_history) => Ok(
                        PathHistoryModel {
                            forest,
                            budget,
                            path: still_levels(forest, dirs, path).update(
                                0,
                                SegmentModel {
                                    dir: directory,
                                    history: root_history,
                                    name: path[0],
                                },
                            ),
                            target,
                        },
                    ),
                },
            }
        }
    }
}

/// Where no level of a path hands out a revision to go back to, every level
/// is taken off and nothing is found.
pub proof fn lemma_find_and_step_exhausted(path: Seq<SegmentModel>, set_aside: SetAside)
    requires
        forall|i: int| 0 <= i < path.len() ==> (#[trigger] path[i]).history.next_node() is None,
    ensures
        find_and_step(path, set_aside) == Ok::<(Seq<SegmentModel>, Option<SetAside>), FsError>(
            (Seq::empty(), None),
        ),
    decreases path.len(),
{
    if path.len() > 0 {
        let level = path.last();
        lemma_find_and_step_exhausted(path.drop_last(), set_aside.push((level.dir, level.name)));
    } else {
        assert(path =~= Seq::empty());
    }
}

/// A walk along a path, opened at the very state that the root stands at
/// and from the revision of the node that stands in the tree, has nothing to
/// hand out: its first step gives nothing.
pub proof fn lemma_path_noop_checkpoint(
    directory: PrivateDirectory,
    budget: nat,
    path: Seq<Seq<char>>,
    forest: PrivateForest,
)
    requires
        PathHistoryModel::opening(
            directory,
            directory.header.ratchet@,
            budget,
            path,
            false,
            forest,
        ) is Ok,
    ensures
        PathHistoryModel::opening(
            directory,
            directory.header.ratchet@,
            budget,
            path,
            false,
            forest,
        ).unwrap().step() matches Ok(stepped) && stepped.1 is None,
{
    let walk = PathHistoryModel::opening(
        directory,
        directory.header.ratchet@,
        budget,
        path,
        false,
        forest,
    ).unwrap();
    lemma_steps_between_same(directory.header.ratchet@, budget);
    if path.len() == 0 {
    } else {
        let found = target_walk(directory, budget, path.drop_last(), path.last(), false, forest);
        let dirs = found.unwrap().0;
        let target = dirs.last().spec_lookup_node(path.last(), false, forest).unwrap();
        lemma_steps_between_same(target.spec_header().ratchet@, budget);
        lemma_find_and_step_exhausted(walk.path, Seq::empty());
    }
}

/// As long as the node's own walk hands out a node, a step hands out that
/// node and leaves every level of the path as it is: what happened
/// anywhere else in the tree does not come into it.
pub proof fn lemma_target_first(walk: PathHistoryModel)
    requires
        walk.target.next_node() is Some,
    ensures
        walk.step() == Ok::<(PathHistoryModel, Option<PrivateNode>), FsError>(
            (walk.with(walk.path, walk.target.stepped()), walk.target.next_node()),
        ),
{
}

/// A walk along the empty path is the walk through the revisions of the
/// root itself: each step hands out what the root's own walk hands out.
pub proof fn lemma_empty_path_walk(walk: PathHistoryModel)
    requires
        walk.path.len() == 0,
    ensures
        walk.step() == Ok::<(PathHistoryModel, Option<PrivateNode>), FsError>(
            (walk.with(walk.path, walk.target.stepped()), walk.target.next_node()),
        ),
{
}

/// The levels of `path` behind level `from`, as they are set aside: the
/// deepest first.
pub open spec fn set_aside_behind(path: Seq<SegmentModel>, from: int) -> SetAside {
    Seq::new(
        (path.len() - 1 - from) as nat,
        |j: int| (path[path.len() - 1 - j].dir, path[path.len() - 1 - j].name),
    )
}

/// Where every level behind level `at` hands out nothing and level `at`
/// hands out an older directory, the levels behind it are set aside, the
/// deepest first, and level `at` stays with the older directory in it.
pub proof fn lemma_find_and_step_at(path: Seq<SegmentModel>, set_aside: SetAside, at: int)
    requires
        0 <= at < path.len(),
        forall|i: int| at < i < path.len() ==> (#[trigger] path[i]).history.next_node() is None,
        path[at].history.next_dir() matches Ok(Some(_)),
    ensures
        find_and_step(path, set_aside) == Ok::<(Seq<SegmentModel>, Option<SetAside>), FsError>(
            (
                path.take(at).push(
                    SegmentModel {
                        dir: *path[at].history.next_dir()->Ok_0->Some_0,
                        history: path[at].history.stepped(),
                        name: path[at].name,
                    },
                ),
                Some(set_aside + set_aside_behind(path, at)),
            ),
        ),
    decreases path.len() - at,
{
    let level = path.last();
    if at == path.len() - 1 {
        assert(path.drop_last() =~= path.take(at));
        assert(set_aside + set_aside_behind(path, at) =~= set_aside);
    } else {
        let shorter = path.drop_last();
        let more = set_aside.push((level.dir, level.name));
        assert forall|i: int| at < i < shorter.len() implies (
        #[trigger] shorter[i]).history.next_node() is None by {
            assert(shorter[i] == path[i]);
        }
        assert(shorter[at] == path[at]);
        lemma_find_and_step_at(shorter, more, at);
        assert(shorter.take(at) =~= path.take(at));
        assert(more + set_aside_behind(shorter, at) =~= set_aside + set_aside_behind(path, at)) by {
            let left = more + set_aside_behind(shorter, at);
            let right = set_aside + set_aside_behind(path, at);
            assert(left.len() == right.len());
            assert forall|j: int| 0 <= j < left.len() implies left[j] == right[j] by {
                if j > set_aside.len() {
                    let k = j - set_aside.len() - 1;
                    assert(set_aside_behind(shorter, at)[k] == (
                        shorter[shorter.len() - 1 - k].dir,
                        shorter[shorter.len() - 1 - k].name,
                    ));
                    assert(shorter[shorter.len() - 1 - k] == path[path.len() - 1 - (k + 1)]);
                }
            }
        }
    }
}

/// A revision of the root that did not change what stands below it on the
/// path hands out nothing: where the node's own walk and the walks of all
/// levels below the root hand out nothing, and the root's walk steps to an
/// older root that leads on to the very revision that the walk already
/// stands at, the step gives no node, and leaves the root level, with the
/// older root in it, as the whole path. So what a write elsewhere in the
/// tree did to the root adds nothing to what the walk hands out.
pub proof fn lemma_unchanged_below_hands_out_nothing(walk: PathHistoryModel)
    requires
        walk.target.next_node() is None,
        walk.path.len() == 1 ==> walk.target.pending.len() == 0,
        walk.path.len() >= 1,
        forall|i: int| 1 <= i < walk.path.len() ==> (#[trigger] walk.path[i]).history.next_node() is None,
        walk.path[0].history.next_dir() matches Ok(Some(older)) && (if walk.path.len() == 1 {
            older.spec_lookup_node(walk.path[0].name, false, walk.forest) matches Some(node)
                && node.spec_header().ratchet@ == walk.target.header.ratchet
        } else {
            older.spec_lookup_node(walk.path[0].name, false, walk.forest) matches Some(
                PrivateNode::Dir(below),
            ) && below.header.ratchet@ == walk.path[1].dir.header.ratchet@
        }),
    ensures
        walk.step() matches Ok(stepped) && stepped.1 is None && stepped.0.path == seq![
            SegmentModel {
                dir: *walk.path[0].history.next_dir()->Ok_0->Some_0,
                history: walk.path[0].history.stepped(),
                name: walk.path[0].name,
            },
        ],
{
    let older = walk.path[0].history.next_dir()->Ok_0->Some_0;
    let root_level = SegmentModel {
        dir: held(older),
        history: walk.path[0].history.stepped(),
        name: walk.path[0].name,
    };
    let rest = seq![root_level];
    lemma_find_and_step_at(walk.path, Seq::empty(), 0);
    assert(walk.path.take(0).push(root_level) =~= rest);
    let set_aside = Seq::<(PrivateDirectory, Seq<char>)>::empty() + set_aside_behind(walk.path, 0);
    assert(find_and_step(walk.path, Seq::empty()) == Ok::<
        (Seq<SegmentModel>, Option<SetAside>),
        FsError,
    >((rest, Some(set_aside))));
    assert(rest.last() == root_level);
    assert(walk.target.next_node() is None);
    if walk.path.len() == 1 {
        assert(set_aside =~= Seq::empty());
        assert(repopulate(walk.forest, walk.budget, rest, set_aside) == Ok::<
            (Seq<SegmentModel>, bool),
            FsError,
        >((rest, true)));
        let node = older.spec_lookup_node(walk.path[0].name, false, walk.forest).unwrap();
        lemma_steps_between_same(walk.target.header.ratchet, walk.budget);
        let rebuilt = NodeHistoryModel::spanning(
            walk.forest,
            walk.target.stepped().header,
            node.spec_header().ratchet@,
            walk.budget,
        );
        assert(rebuilt is Some);
        assert(rebuilt.unwrap().pending.len() == 0);
        assert(rebuilt.unwrap().next_node() is None);
    } else {
        assert(set_aside.len() == walk.path.len() - 1);
        assert(set_aside.last() == (walk.path[1].dir, walk.path[1].name));
        lemma_steps_between_same(walk.path[1].dir.header.ratchet@, walk.budget);
        let below = older.spec_lookup_node(walk.path[0].name, false, walk.forest)->Some_0->Dir_0;
        let history = NodeHistoryModel::spanning(
            walk.forest,
            walk.path[1].dir.header@,
            below.header.ratchet@,
            walk.budget,
        );
        assert(history is Some);
        assert(history.unwrap().pending.len() == 0);
        assert(history.unwrap().next_dir() == Ok::<Option<Rc<PrivateDirectory>>, FsError>(None));
        assert(repopulate(walk.forest, walk.budget, rest, set_aside) == Ok::<
            (Seq<SegmentModel>, bool),
            FsError,
        >((rest, false)));
    }
}

/// What is put back onto a path depends on the last level of the path
/// alone: with further levels above, the same levels are put back, behind
/// the same last level, and the levels above stay as they were.
pub proof fn lemma_repopulate_above(
    forest: PrivateForest,
    budget: nat,
    above: Seq<SegmentModel>,
    path: Seq<SegmentModel>,
    set_aside: SetAside,
)
    requires
        path.len() >= 1,
    ensures
        repopulate(forest, budget, above + path, set_aside) == (match repopulate(
            forest,
            budget,
            path,
            set_aside,
        ) {
            Ok((rebuilt, whole)) => Ok::<(Seq<SegmentModel>, bool), FsError>(
                (above + rebuilt, whole),
            ),
            Err(e) => Err(e),
        }),
        repopulate(forest, budget, path, set_aside) matches Ok(rebuilt) ==> rebuilt.0.len()
            >= path.len() && rebuilt.0.take(path.len() as int) == path && (rebuilt.1
            ==> rebuilt.0.len() == path.len() + set_aside.len()),
    decreases set_aside.len(),
{
    let longer = above + path;
    assert(longer.last() == path.last());
    assert(path.take(path.len() as int) =~= path);
    if set_aside.len() > 0 {
        let directory = set_aside.last().0;
        let name = set_aside.last().1;
        let ancestor = path.last();
        match ancestor.dir.spec_lookup_node(ancestor.name, false, forest) {
            Some(PrivateNode::Dir(older)) => {
                match NodeHistoryModel::spanning(
                    forest,
                    directory.header@,
                    older.header.ratchet@,
                    budget,
                ) {
                    Some(history) => {
                        match history.next_dir() {
                            Ok(Some(previous)) => {
                                let level = SegmentModel {
                                    dir: held(previous),
                                    history: history.stepped(),
                                    name,
                                };
                                lemma_repopulate_above(
                                    forest,
                                    budget,
                                    above,
                                    path.push(level),
                                    set_aside.drop_last(),
                                );
                                assert(longer.push(level) =~= above + path.push(level));
                                match repopulate(
                                    forest,
                                    budget,
                                    path.push(level),
                                    set_aside.drop_last(),
                                ) {
                                    Ok((rebuilt, _)) => {
                                        assert(rebuilt.take(path.len() as int)
                                            =~= rebuilt.take(path.len() as int + 1).take(
                                            path.len() as int,
                                        ));
                                        assert(path.push(level).take(path.len() as int) =~= path);
                                    },
                                    Err(_) => {},
                                }
                            },
                            _ => {},
                        }
                    },
                    None => {},
                }
            },
            _ => {},
        }
    }
}

/// Whether two walks are one walk from level `from` of the path on: they
/// look into the same forest with the same budget, walk to the same node,
/// and differ only in the levels of the path above level `from`.
pub open spec fn alike_from(left: PathHistoryModel, right: PathHistoryModel, from: int) -> bool {
    &&& left.forest == right.forest
    &&& left.budget == right.budget
    &&& left.target == right.target
    &&& left.path.len() == right.path.len()
    &&& forall|i: int| from <= i < left.path.len() ==> left.path[i] == right.path[i]
}

/// A step that is taken at level `at` of the path does not look at the
/// levels above it. Where the node's own walk and the walks of all levels
/// behind level `at` hand out nothing and level `at` hands out an older
/// directory, two walks that are alike from that level on hand out the same
/// node, or fail alike; afterwards they are still alike from that level on,
/// and in each the levels above are what they were. So whatever stands
/// above, and a revision of the root that is still to come, shows in
/// nothing that the walk hands out before it steps there.
pub proof fn lemma_step_leaves_the_levels_above(
    left: PathHistoryModel,
    right: PathHistoryModel,
    at: int,
)
    requires
        0 <= at < left.path.len(),
        alike_from(left, right, at),
        left.target.next_node() is None,
        forall|i: int| at < i < left.path.len() ==> (#[trigger] left.path[i]).history.next_node() is None,
        left.path[at].history.next_dir() matches Ok(Some(_)),
    ensures
        match (left.step(), right.step()) {
            (Ok(l), Ok(r)) => l.1 == r.1 && alike_from(l.0, r.0, at) && l.0.path.take(at)
                == left.path.take(at) && r.0.path.take(at) == right.path.take(at) && at
                < l.0.path.len() && l.0.path[at] == (SegmentModel {
                dir: *left.path[at].history.next_dir()->Ok_0->Some_0,
                history: left.path[at].history.stepped(),
                name: left.path[at].name,
            }),
            (Err(e), Err(f)) => e == f,
            _ => false,
        },
{
    let stepped = SegmentModel {
        dir: held(left.path[at].history.next_dir()->Ok_0->Some_0),
        history: left.path[at].history.stepped(),
        name: left.path[at].name,
    };
    let from = seq![stepped];
    let set_aside = Seq::<(PrivateDirectory, Seq<char>)>::empty() + set_aside_behind(left.path, at);
    assert(right.path[at] == left.path[at]);
    assert forall|i: int| at < i < right.path.len() implies (
    #[trigger] right.path[i]).history.next_node() is None by {
        assert(right.path[i] == left.path[i]);
    }
    lemma_find_and_step_at(left.path, Seq::empty(), at);
    lemma_find_and_step_at(right.path, Seq::empty(), at);
    assert(set_aside_behind(right.path, at) =~= set_aside_behind(left.path, at));
    let left_above = left.path.take(at);
    let right_above = right.path.take(at);
    assert(left_above.push(stepped) =~= left_above + from);
    assert(right_above.push(stepped) =~= right_above + from);
    lemma_repopulate_above(left.forest, left.budget, left_above, from, set_aside);
    lemma_repopulate_above(left.forest, left.budget, right_above, from, set_aside);
    match repopulate(left.forest, left.budget, from, set_aside) {
        Ok((rebuilt, whole)) => {
            let left_path = left_above + rebuilt;
            let right_path = right_above + rebuilt;
            assert(left_path.last() == rebuilt.last());
            assert(right_path.last() == rebuilt.last());
            assert(left_path.take(at) =~= left_above);
            assert(right_path.take(at) =~= right_above);
            assert(rebuilt.take(1)[0] == from[0]);
            assert(left_path[at] == rebuilt[0]);
            assert(left_path.len() == right_path.len());
            assert forall|i: int| at <= i < left_path.len() implies left_path[i]
                == right_path[i] by {
                assert(left_path[i] == rebuilt[i - at]);
                assert(right_path[i] == rebuilt[i - at]);
            }
        },
        Err(_) => {},
    }
}

/// A revision of the root that changed nothing on the path ends the walk as
/// the last revision of the root does. Of two walks that are alike below the
/// root, the root of one steps to a revision that leads on to the very
/// revision that the walk already stands at, and the root of the other
/// hands out none. Where the node's own walk and the walks of all levels
/// below the root hand out nothing, both walks hand out nothing.
pub proof fn lemma_idle_root_revision_ends_the_walk(
    left: PathHistoryModel,
    right: PathHistoryModel,
)
    requires
        left.path.len() >= 1,
        alike_from(left, right, 1),
        right.path[0].history.next_node() is None,
        left.target.next_node() is None,
        left.path.len() == 1 ==> left.target.pending.len() == 0,
        forall|i: int| 1 <= i < left.path.len() ==> (#[trigger] left.path[i]).history.next_node() is None,
        left.path[0].history.next_dir() matches Ok(Some(older)) && (if left.path.len() == 1 {
            older.spec_lookup_node(left.path[0].name, false, left.forest) matches Some(node)
                && node.spec_header().ratchet@ == left.target.header.ratchet
        } else {
            older.spec_lookup_node(left.path[0].name, false, left.forest) matches Some(
                PrivateNode::Dir(below),
            ) && below.header.ratchet@ == left.path[1].dir.header.ratchet@
        }),
    ensures
        left.step() matches Ok(stepped) && stepped.1 is None,
        right.step() matches Ok(stepped) && stepped.1 is None,
{
    lemma_unchanged_below_hands_out_nothing(left);
    assert forall|i: int| 0 <= i < right.path.len() implies (
    #[trigger] right.path[i]).history.next_node() is None by {
        if i >= 1 {
            assert(right.path[i] == left.path[i]);
        }
    }
    lemma_find_and_step_exhausted(right.path, Seq::empty());
}

/// Where every level behind level `at` hands out nothing and level `at`
/// comes upon a file where a directory is looked for, the search fails as
/// that level's walk does.
pub proof fn lemma_find_and_step_stops(path: Seq<SegmentModel>, set_aside: SetAside, at: int)
    requires
        0 <= at < path.len(),
        forall|i: int| at < i < path.len() ==> (#[trigger] path[i]).history.next_node() is None,
        path[at].history.next_dir() is Err,
    ensures
        find_and_step(path, set_aside) == Err::<(Seq<SegmentModel>, Option<SetAside>), FsError>(
            path[at].history.next_dir()->Err_0,
        ),
    decreases path.len() - at,
{
    if at < path.len() - 1 {
        let level = path.last();
        let shorter = path.drop_last();
        assert forall|i: int| at < i < shorter.len() implies (
        #[trigger] shorter[i]).history.next_node() is None by {
            assert(shorter[i] == path[i]);
        }
        assert(shorter[at] == path[at]);
        lemma_find_and_step_stops(shorter, set_aside.push((level.dir, level.name)), at);
    }
}

/// The deepest level of `path` whose walk still hands out a revision; -1
/// where none does.
spec fn deepest_live(path: Seq<SegmentModel>) -> int
    decreases path.len(),
{
    if path.len() == 0 {
        -1
    } else if path.last().history.next_node() is None {
        deepest_live(path.drop_last())
    } else {
        path.len() - 1
    }
}

/// The deepest live level hands out a revision, and no level behind it does.
proof fn lemma_deepest_live(path: Seq<SegmentModel>)
    ensures
        -1 <= deepest_live(path) < path.len(),
        forall|i: int|
            deepest_live(path) < i < path.len() ==> (#[trigger] path[i]).history.next_node() is None,
        deepest_live(path) >= 0 ==> path[deepest_live(path)].history.next_node() is Some,
    decreases path.len(),
{
    if path.len() > 0 && path.last().history.next_node() is None {
        let shorter = path.drop_last();
        lemma_deepest_live(shorter);
        assert forall|i: int| deepest_live(path) < i < path.len() implies (
        #[trigger] path[i]).history.next_node() is None by {
            if i < path.len() - 1 {
                assert(shorter[i] == path[i]);
            }
        }
        if deepest_live(path) >= 0 {
            assert(shorter[deepest_live(shorter)] == path[deepest_live(path)]);
        }
    }
}

/// Whether the forest holds, at every state that a walk has still to visit,
/// a revision that stands at that state.
pub open spec fn without_gap(walk: NodeHistoryModel) -> bool {
    forall|k: int|
        0 <= k < walk.pending.len() ==> (walk.forest.lookup(
            walk.header.at(#[trigger] walk.pending[k]).hash(),
        ) matches Some(node) && node.spec_header().ratchet@ == walk.pending[k])
}

/// Whether a walk through the revisions of a node leads back to `state`
/// without a gap: `state` is the last that it visits (or, with nothing left
/// to visit, the state that it stands at), and at every state still to be
/// visited the forest holds a revision that stands at that state.
pub open spec fn leads_back_to(walk: NodeHistoryModel, state: Seq<char>) -> bool {
    &&& if walk.pending.len() == 0 {
        walk.header.ratchet == state
    } else {
        walk.pending.last() == state
    }
    &&& without_gap(walk)
}

/// A walk that spans the states from `past` to a header's state leads back
/// to `past`; without a gap, where the forest holds the revisions.
pub proof fn lemma_spanning_leads_back(
    forest: PrivateForest,
    header: HeaderModel,
    past: Seq<char>,
    budget: nat,
)
    requires
        NodeHistoryModel::spanning(forest, header, past, budget) matches Some(walk)
            && without_gap(walk),
    ensures
        NodeHistoryModel::spanning(forest, header, past, budget) matches Some(walk)
            && leads_back_to(walk, past),
{
    lemma_steps_between_some(past, header.ratchet, budget);
    let n = steps_between(past, header.ratchet, budget).unwrap();
    lemma_trail_descends(past, header.ratchet, n);
}

/// A walk that leads back to a state without a gap and has a state left to
/// visit hands out the revision at that state, and leads back to the same
/// state from there.
pub proof fn lemma_leads_back_to_stepped(walk: NodeHistoryModel, state: Seq<char>)
    requires
        leads_back_to(walk, state),
        walk.pending.len() > 0,
    ensures
        walk.next_node() matches Some(node) && node.spec_header().ratchet@
            == walk.stepped().header.ratchet,
        leads_back_to(walk.stepped(), state),
{
    let first = walk.pending[0];
    let after = walk.stepped();
    assert forall|k: int| 0 <= k < after.pending.len() implies (after.forest.lookup(
        after.header.at(#[trigger] after.pending[k]).hash(),
    ) matches Some(node) && node.spec_header().ratchet@ == after.pending[k]) by {
        assert(after.pending[k] == walk.pending[k + 1]);
        assert(after.header.at(after.pending[k]) == walk.header.at(walk.pending[k + 1]));
    }
}

/// Whether two walks are one idle revision of the root apart. They are
/// alike below the root. The root of `right` hands out nothing more. The
/// root of `left` has a revision to step to, and that revision is idle: it
/// leads on to a revision, of the directory below the root or, where the
/// node stands in the root, of the node, to which the walk at that level
/// leads back anyway, without a gap.
pub open spec fn one_idle_revision_apart(left: PathHistoryModel, right: PathHistoryModel) -> bool {
    &&& left.path.len() >= 1
    &&& alike_from(left, right, 1)
    &&& right.path[0].history.next_node() is None
    &&& left.path[0].history.next_dir() matches Ok(Some(older)) && (older.spec_lookup_node(
        left.path[0].name,
        false,
        left.forest,
    ) matches Some(below) && (if left.path.len() == 1 {
        leads_back_to(left.target, below.spec_header().ratchet@)
    } else {
        below is Dir && left.path[1].dir.header.ratchet@ == left.path[1].history.header.ratchet
            && leads_back_to(left.path[1].history, below.spec_header().ratchet@)
    }))
}

/// Two walks that are one idle revision of the root apart take their next
/// step alike: they hand out the same node, or both nothing, or fail alike;
/// and where they hand out a node they are one idle revision apart
/// afterwards.
pub proof fn lemma_step_one_idle_revision_apart(left: PathHistoryModel, right: PathHistoryModel)
    requires
        one_idle_revision_apart(left, right),
    ensures
        match (left.step(), right.step()) {
            (Ok(l), Ok(r)) => l.1 == r.1 && (l.1 is Some ==> one_idle_revision_apart(l.0, r.0)),
            (Err(e), Err(f)) => e == f,
            _ => false,
        },
{
    let older = left.path[0].history.next_dir()->Ok_0->Some_0;
    let below = older.spec_lookup_node(left.path[0].name, false, left.forest)->Some_0;
    let state = below.spec_header().ratchet@;
    if left.target.next_node() is Some {
        if left.path.len() == 1 {
            lemma_leads_back_to_stepped(left.target, state);
        }
    } else {
        lemma_deepest_live(left.path);
        let at = deepest_live(left.path);
        if at == 0 {
            if left.path.len() == 1 {
                if left.target.pending.len() > 0 {
                    lemma_leads_back_to_stepped(left.target, state);
                }
            } else {
                if left.path[1].history.pending.len() > 0 {
                    lemma_leads_back_to_stepped(left.path[1].history, state);
                }
            }
            lemma_idle_root_revision_ends_the_walk(left, right);
        } else {
            assert(at >= 1);
            assert(right.path[at] == left.path[at]);
            assert forall|i: int| at < i < right.path.len() implies (
            #[trigger] right.path[i]).history.next_node() is None by {
                assert(right.path[i] == left.path[i]);
            }
            match left.path[at].history.next_dir() {
                Err(_) => {
                    lemma_find_and_step_stops(left.path, Seq::empty(), at);
                    lemma_find_and_step_stops(right.path, Seq::empty(), at);
                },
                Ok(_) => {
                    lemma_step_leaves_the_levels_above(left, right, at);
                    match (left.step(), right.step()) {
                        (Ok(l), Ok(r)) => {
                            if l.1 is Some {
                                assert(l.0.path.take(at)[0] == l.0.path[0]);
                                assert(left.path.take(at)[0] == left.path[0]);
                                assert(r.0.path.take(at)[0] == r.0.path[0]);
                                assert(right.path.take(at)[0] == right.path[0]);
                                assert forall|i: int| 1 <= i < l.0.path.len() implies l.0.path[i]
                                    == r.0.path[i] by {
                                    if i < at {
                                        assert(l.0.path.take(at)[i] == l.0.path[i]);
                                        assert(left.path.take(at)[i] == left.path[i]);
                                        assert(r.0.path.take(at)[i] == r.0.path[i]);
                                        assert(right.path.take(at)[i] == right.path[i]);
                                    }
                                }
                                assert(l.0.forest == left.forest);
                                if at == 1 {
                                    lemma_leads_back_to_stepped(left.path[1].history, state);
                                } else {
                                    assert(l.0.path.take(at)[1] == l.0.path[1]);
                                    assert(left.path.take(at)[1] == left.path[1]);
                                }
                            }
                        },
                        _ => {},
                    }
                },
            }
        }
    }
}

/// What a walk hands out in its first `steps` steps, up to and with the
/// first step that hands out nothing or fails.
pub open spec fn handed_out(walk: PathHistoryModel, steps: nat) -> Seq<
    Result<Option<PrivateNode>, FsError>,
>
    decreases steps,
{
    if steps == 0 {
        Seq::empty()
    } else {
        match walk.step() {
            Ok((next, Some(node))) => seq![Ok(Some(node))] + handed_out(next, (steps - 1) as nat),
            Ok((_, None)) => seq![Ok(None)],
            Err(e) => seq![Err(e)],
        }
    }
}

/// An idle revision of the root adds nothing to a walk: two walks that are
/// one idle revision of the root apart hand out the same nodes in the same
/// order, and come to their first step without a node together.
pub proof fn lemma_idle_revision_adds_nothing(
    left: PathHistoryModel,
    right: PathHistoryModel,
    steps: nat,
)
    requires
        one_idle_revision_apart(left, right),
    ensures
        handed_out(left, steps) == handed_out(right, steps),
    decreases steps,
{
    if steps > 0 {
        lemma_step_one_idle_revision_apart(left, right);
        match (left.step(), right.step()) {
            (Ok((l, Some(_))), Ok((r, _))) => {
                lemma_idle_revision_adds_nothing(l, r, (steps - 1) as nat);
            },
            _ => {},
        }
    }
}

/// What is put back onto a path depends on its last level only through the
/// node that the directory at that level holds under the level's name: two
/// paths whose last levels lead on to the same node get the same levels put
/// back, or fail alike.
pub proof fn lemma_repopulate_below_like_levels(
    forest: PrivateForest,
    budget: nat,
    left: Seq<SegmentModel>,
    right: Seq<SegmentModel>,
    set_aside: SetAside,
)
    requires
        left.len() >= 1,
        right.len() >= 1,
        left.last().dir.spec_lookup_node(left.last().name, false, forest)
            == right.last().dir.spec_lookup_node(right.last().name, false, forest),
    ensures
        match (
            repopulate(forest, budget, left, set_aside),
            repopulate(forest, budget, right, set_aside),
        ) {
            (Ok(l), Ok(r)) => l.1 == r.1 && l.0.len() >= left.len() && r.0.len() >= right.len()
                && l.0.take(left.len() as int) == left && r.0.take(right.len() as int) == right
                && l.0.skip(left.len() as int) == r.0.skip(right.len() as int),
            (Err(e), Err(f)) => e == f,
            _ => false,
        },
{
    assert(left.take(left.len() as int) =~= left);
    assert(right.take(right.len() as int) =~= right);
    assert(left.skip(left.len() as int) =~= right.skip(right.len() as int));
    if set_aside.len() > 0 {
        let directory = set_aside.last().0;
        let name = set_aside.last().1;
        match left.last().dir.spec_lookup_node(left.last().name, false, forest) {
            Some(PrivateNode::Dir(older)) => {
                match NodeHistoryModel::spanning(
                    forest,
                    directory.header@,
                    older.header.ratchet@,
                    budget,
                ) {
                    Some(history) => {
                        match history.next_dir() {
                            Ok(Some(previous)) => {
                                let level = SegmentModel {
                                    dir: held(previous),
                                    history: history.stepped(),
                                    name,
                                };
                                let rest = set_aside.drop_last();
                                lemma_repopulate_above(forest, budget, left, seq![level], rest);
                                lemma_repopulate_above(forest, budget, right, seq![level], rest);
                                assert(left.push(level) =~= left + seq![level]);
                                assert(right.push(level) =~= right + seq![level]);
                                match repopulate(forest, budget, seq![level], rest) {
                                    Ok((rebuilt, _)) => {
                                        assert((left + rebuilt).take(left.len() as int) =~= left);
                                        assert((right + rebuilt).take(right.len() as int)
                                            =~= right);
                                        assert((left + rebuilt).skip(left.len() as int)
                                            =~= rebuilt);
                                        assert((right + rebuilt).skip(right.len() as int)
                                            =~= rebuilt);
                                    },
                                    Err(_) => {},
                                }
                            },
                            _ => {},
                        }
                    },
                    None => {},
                }
            },
            _ => {},
        }
    }
}

/// The walk that starts anew at the level below the root where the root
/// steps to `older`: at the directory below the root or, where the node
/// stands in the root, at the node, from the revision the walk has come to
/// there back to the one that `older` leads on to. There is none where
/// `older` has nothing under the name, and where what it has does not lead
/// to that revision within the budget.
pub open spec fn restarted_walk(walk: PathHistoryModel, older: PrivateDirectory) -> Option<
    NodeHistoryModel,
> {
    match older.spec_lookup_node(walk.path[0].name, false, walk.forest) {
        Some(below) => NodeHistoryModel::spanning(
            walk.forest,
            if walk.path.len() == 1 {
                walk.target.stepped().header
            } else {
                walk.path[1].dir.header@
            },
            below.spec_header().ratchet@,
            walk.budget,
        ),
        None => None,
    }
}

/// A step that is taken at the root. Where the node's own walk and the
/// walks of all levels below the root hand out nothing and the root hands
/// out an older root, the path goes on from the older root. Where the step
/// hands out a node, the path is as long as before, and the level below the
/// root, or the node's own walk where the node stands in the root, has
/// taken the first step of the walk started anew there.
pub proof fn lemma_step_at_the_root(walk: PathHistoryModel)
    requires
        walk.path.len() >= 1,
        walk.target.next_node() is None,
        forall|i: int| 1 <= i < walk.path.len() ==> (#[trigger] walk.path[i]).history.next_node() is None,
        walk.path[0].history.next_dir() matches Ok(Some(_)),
    ensures
        walk.step() matches Ok(stepped) ==> {
            &&& stepped.0.forest == walk.forest
            &&& stepped.0.budget == walk.budget
            &&& stepped.0.path.len() >= 1
            &&& stepped.0.path[0] == (SegmentModel {
                dir: *walk.path[0].history.next_dir()->Ok_0->Some_0,
                history: walk.path[0].history.stepped(),
                name: walk.path[0].name,
            })
            &&& stepped.1 is Some ==> {
                &&& stepped.0.path.len() == walk.path.len()
                &&& restarted_walk(
                    walk,
                    *walk.path[0].history.next_dir()->Ok_0->Some_0,
                ) matches Some(history) && history.pending.len() > 0 && (if walk.path.len()
                    == 1 {
                    stepped.0.target == history.stepped()
                } else {
                    walk.path[0].history.next_dir()->Ok_0->Some_0.spec_lookup_node(
                        walk.path[0].name,
                        false,
                        walk.forest,
                    )->Some_0 is Dir && (history.next_dir() matches Ok(Some(previous))
                        && stepped.0.path[1] == (SegmentModel {
                        dir: *previous,
                        history: history.stepped(),
                        name: walk.path[1].name,
                    }))
                })
            }
        },
{
    let older = walk.path[0].history.next_dir()->Ok_0->Some_0;
    let root_level = SegmentModel {
        dir: held(older),
        history: walk.path[0].history.stepped(),
        name: walk.path[0].name,
    };
    let rest = seq![root_level];
    lemma_find_and_step_at(walk.path, Seq::empty(), 0);
    assert(walk.path.take(0).push(root_level) =~= rest);
    let set_aside = Seq::<(PrivateDirectory, Seq<char>)>::empty() + set_aside_behind(walk.path, 0);
    assert(find_and_step(walk.path, Seq::empty()) == Ok::<
        (Seq<SegmentModel>, Option<SetAside>),
        FsError,
    >((rest, Some(set_aside))));
    assert(rest.last() == root_level);
    lemma_repopulate_above(walk.forest, walk.budget, Seq::empty(), rest, set_aside);
    match repopulate(walk.forest, walk.budget, rest, set_aside) {
        Ok((rebuilt, _)) => {
            assert(rebuilt.take(1)[0] == rebuilt[0]);
        },
        Err(_) => {},
    }
    if walk.path.len() == 1 {
        assert(set_aside =~= Seq::empty());
        assert(repopulate(walk.forest, walk.budget, rest, set_aside) == Ok::<
            (Seq<SegmentModel>, bool),
            FsError,
        >((rest, true)));
    } else {
        assert(set_aside.len() == walk.path.len() - 1);
        assert(set_aside.last() == (walk.path[1].dir, walk.path[1].name));
        match older.spec_lookup_node(walk.path[0].name, false, walk.forest) {
            Some(PrivateNode::Dir(below)) => {
                match NodeHistoryModel::spanning(
                    walk.forest,
                    walk.path[1].dir.header@,
                    below.header.ratchet@,
                    walk.budget,
                ) {
                    Some(history) => {
                        match history.next_dir() {
                            Ok(Some(previous)) => {
                                let level = SegmentModel {
                                    dir: held(previous),
                                    history: history.stepped(),
                                    name: walk.path[1].name,
                                };
                                lemma_repopulate_above(
                                    walk.forest,
                                    walk.budget,
                                    Seq::empty(),
                                    rest.push(level),
                                    set_aside.drop_last(),
                                );
                                match repopulate(
                                    walk.forest,
                                    walk.budget,
                                    rest.push(level),
                                    set_aside.drop_last(),
                                ) {
                                    Ok((rebuilt, _)) => {
                                        assert(rebuilt.take(2)[1] == rebuilt[1]);
                                        assert(rest.push(level)[1] == level);
                                    },
                                    Err(_) => {},
                                }
                            },
                            _ => {},
                        }
                    },
                    None => {},
                }
            },
            _ => {},
        }
    }
}

/// A step that two walks take at the root, to revisions of the root that
/// lead on to the same node. Where the walks are alike below the root, the
/// node's own walk and the walks of all levels below the root hand out
/// nothing, and each root hands out an older root, they hand out the same
/// node, or both nothing, or fail alike, and are alike below the root
/// afterwards.
pub proof fn lemma_step_at_like_roots(left: PathHistoryModel, right: PathHistoryModel)
    requires
        left.path.len() >= 1,
        alike_from(left, right, 1),
        left.path[0].name == right.path[0].name,
        left.target.next_node() is None,
        forall|i: int| 1 <= i < left.path.len() ==> (#[trigger] left.path[i]).history.next_node() is None,
        left.path[0].history.next_dir() matches Ok(Some(one)) && (
        right.path[0].history.next_dir() matches Ok(Some(other)) && one.spec_lookup_node(
            left.path[0].name,
            false,
            left.forest,
        ) == other.spec_lookup_node(left.path[0].name, false, left.forest)),
    ensures
        match (left.step(), right.step()) {
            (Ok(l), Ok(r)) => l.1 == r.1 && alike_from(l.0, r.0, 1),
            (Err(e), Err(f)) => e == f,
            _ => false,
        },
{
    let left_root = SegmentModel {
        dir: held(left.path[0].history.next_dir()->Ok_0->Some_0),
        history: left.path[0].history.stepped(),
        name: left.path[0].name,
    };
    let right_root = SegmentModel {
        dir: held(right.path[0].history.next_dir()->Ok_0->Some_0),
        history: right.path[0].history.stepped(),
        name: right.path[0].name,
    };
    let set_aside = Seq::<(PrivateDirectory, Seq<char>)>::empty() + set_aside_behind(left.path, 0);
    assert forall|i: int| 1 <= i < right.path.len() implies (
    #[trigger] right.path[i]).history.next_node() is None by {
        assert(right.path[i] == left.path[i]);
    }
    lemma_find_and_step_at(left.path, Seq::empty(), 0);
    lemma_find_and_step_at(right.path, Seq::empty(), 0);
    assert(set_aside_behind(right.path, 0) =~= set_aside_behind(left.path, 0));
    assert(left.path.take(0).push(left_root) =~= seq![left_root]);
    assert(right.path.take(0).push(right_root) =~= seq![right_root]);
    lemma_repopulate_below_like_levels(
        left.forest,
        left.budget,
        seq![left_root],
        seq![right_root],
        set_aside,
    );
    match (
        repopulate(left.forest, left.budget, seq![left_root], set_aside),
        repopulate(left.forest, left.budget, seq![right_root], set_aside),
    ) {
        (Ok((left_path, _)), Ok((right_path, _))) => {
            let left_rest = left_path.skip(1);
            let right_rest = right_path.skip(1);
            assert(left_path.take(1)[0] == left_path[0]);
            assert(right_path.take(1)[0] == right_path[0]);
            assert(left_rest.len() == left_path.len() - 1);
            assert(right_rest.len() == right_path.len() - 1);
            assert forall|i: int| 1 <= i < left_path.len() implies left_path[i]
                == right_path[i] by {
                assert(left_rest[i - 1] == left_path[i]);
                assert(right_rest[i - 1] == right_path[i]);
            }
        },
        _ => {},
    }
}

/// A revision of the root that is, as far as the path goes, a copy of the
/// revision before it adds nothing to a walk. Two walks are alike below the
/// root, and at those levels and at the node nothing is left to hand out, so
/// that the next step is the root's. The root of `left` steps to the copy
/// and after that to the copied revision; the root of `right` steps to the
/// copied revision and has nothing after it. Both revisions lead on to the
/// same node, and the forest holds every revision between that node and the
/// one that the walk has come to below the root. Then the two walks hand out
/// the same nodes in the same order, and come to their first step without a
/// node together.
pub proof fn lemma_copied_root_revision_adds_nothing(
    left: PathHistoryModel,
    right: PathHistoryModel,
    steps: nat,
)
    requires
        left.path.len() >= 1,
        alike_from(left, right, 1),
        left.path[0].name == right.path[0].name,
        left.target.next_node() is None,
        forall|i: int| 1 <= i < left.path.len() ==> (#[trigger] left.path[i]).history.next_node() is None,
        left.path[0].history.next_dir() matches Ok(Some(copy)) && (
        right.path[0].history.next_dir() matches Ok(Some(copied)) && {
            &&& left.path[0].history.stepped().next_dir() == right.path[0].history.next_dir()
            &&& right.path[0].history.stepped().next_node() is None
            &&& copy.spec_lookup_node(left.path[0].name, false, left.forest)
                == copied.spec_lookup_node(left.path[0].name, false, left.forest)
            &&& restarted_walk(left, *copied) matches Some(history) ==> without_gap(history)
        }),
    ensures
        handed_out(left, steps) == handed_out(right, steps),
{
    if steps > 0 {
        let copy = left.path[0].history.next_dir()->Ok_0->Some_0;
        let copied = right.path[0].history.next_dir()->Ok_0->Some_0;
        assert(restarted_walk(left, held(copy)) == restarted_walk(left, held(copied)));
        assert forall|i: int| 1 <= i < right.path.len() implies (
        #[trigger] right.path[i]).history.next_node() is None by {
            assert(right.path[i] == left.path[i]);
        }
        lemma_step_at_like_roots(left, right);
        lemma_step_at_the_root(left);
        lemma_step_at_the_root(right);
        match (left.step(), right.step()) {
            (Ok((l, Some(_))), Ok((r, _))) => {
                let below = copied.spec_lookup_node(left.path[0].name, false, left.forest)->Some_0;
                let state = below.spec_header().ratchet@;
                let history = restarted_walk(left, held(copy))->Some_0;
                if left.path.len() == 1 {
                    lemma_spanning_leads_back(
                        left.forest,
                        left.target.stepped().header,
                        state,
                        left.budget,
                    );
                } else {
                    lemma_spanning_leads_back(
                        left.forest,
                        left.path[1].dir.header@,
                        state,
                        left.budget,
                    );
                }
                lemma_leads_back_to_stepped(history, state);
                assert(one_idle_revision_apart(l, r));
                lemma_idle_revision_adds_nothing(l, r, (steps - 1) as nat);
            },
            _ => {},
        }
    }
}

/// One level of the path to a node.
struct PathSegmentHistory {
    /// The directory at this level, at the revision the walk has come to.
    dir: Rc<PrivateDirectory>,
    /// The walk back through the revisions of that directory.
    history: PrivateNodeHistory,
    /// The name of the child by which the path goes on.
    path_segment: String,
}

impl View for PathSegmentHistory {
    type V = SegmentModel;

    closed spec fn view(&self) -> SegmentModel {
        SegmentModel { dir: *self.dir, history: self.history@, name: self.path_segment@ }
    }
}

/// The levels of a path as plain values.
spec fn levels(path: Seq<PathSegmentHistory>) -> Seq<SegmentModel> {
    Seq::new(path.len(), |i: int| path[i]@)
}

/// What was set aside, as plain values.
spec fn aside(stack: Seq<(Rc<PrivateDirectory>, String)>) -> SetAside {
    Seq::new(stack.len(), |i: int| (*stack[i].0, stack[i].1@))
}

/// A walk back through the revisions of the private node at a path below a
/// root directory.
pub struct PrivateNodeOnPathHistory {
    /// The forest as it was when the walk began.
    forest: Rc<PrivateForest>,
    /// The budget for every search between two ratchet states.
    discrepancy_budget: usize,
    /// The levels of the path, from the root to the parent of the node.
    path: Vec<PathSegmentHistory>,
    /// The walk back through the node's own revisions.
    target: PrivateNodeHistory,
}

impl View for PrivateNodeOnPathHistory {
    type V = PathHistoryModel;

    closed spec fn view(&self) -> PathHistoryModel {
        PathHistoryModel {
            forest: *self.forest,
            budget: self.discrepancy_budget as nat,
            path: levels(self.path@),
            target: self.target@,
        }
    }
}

impl PrivateNodeOnPathHistory {
    /// Opens the walk back through the revisions of the node at
    /// `path_segments` below `directory`, as far back as the revision of
    /// `directory` at `past_ratchet`.
    ///
    /// Fails where no node stands at the path, and where `past_ratchet` does
    /// not lead to the ratchet state of `directory` within
    /// `discrepancy_budget` steps.
    ///
    /// With `search_latest` the walk starts from the newest revision of the
    /// node that the forest holds, which may be newer than the one that
    /// `directory` leads to.
    pub fn of(
        directory: Rc<PrivateDirectory>,
        past_ratchet: &Ratchet,
        discrepancy_budget: usize,
        path_segments: &[String],
        search_latest: bool,
        forest: Rc<PrivateForest>,
    ) -> (history: Result<PrivateNodeOnPathHistory, FsError>)
        ensures
            match history {
                Ok(h) => PathHistoryModel::opening(
                    *directory,
                    past_ratchet@,
                    discrepancy_budget as nat,
                    names_of(path_segments@),
                    search_latest,
                    *forest,
                ) == Ok::<PathHistoryModel, FsError>(h@),
                Err(e) => PathHistoryModel::opening(
                    *directory,
                    past_ratchet@,
                    discrepancy_budget as nat,
                    names_of(path_segments@),
                    search_latest,
                    *forest,
                ) == Err::<PathHistoryModel, FsError>(e),
            },
    {
        let ghost names = names_of(path_segments@);
        if path_segments.len() == 0 {
            let target = match PrivateNodeHistory::of(
                &PrivateNode::Dir(share_rc(&directory)),
                past_ratchet,
                discrepancy_budget,
                share_rc(&forest),
            ) {
                Ok(target) => target,
                Err(e) => {
                    return Err(e);
                },
            };
            let history = PrivateNodeOnPathHistory {
                forest,
                discrepancy_budget,
                path: Vec::new(),
                target,
            };
            proof {
                assert(history@.path =~= Seq::empty());
            }
            return Ok(history);
        }
        let last = path_segments.len() - 1;
        let target_path = &path_segments[last];
        let ancestors = slice_subrange(path_segments, 0, last);
        proof {
            assert(names_of(ancestors@) =~= names.drop_last());
        }
        let (path, target_history) = match Self::path_nodes_and_target_history(
            share_rc(&directory),
            discrepancy_budget,
            ancestors,
            target_path,
            search_latest,
            share_rc(&forest),
        ) {
            Ok(found) => found,
            Err(e) => {
                return Err(e);
            },
        };
        let ghost dirs = descend(
            PrivateDirectory::child_by(false, held(forest)),
            held(directory),
            names.drop_last(),
        );
        let ghost pairs = path@;
        let mut path = Self::path_segment_empty_histories(
            path,
            share_rc(&forest),
            discrepancy_budget,
        );
        proof {
            assert(aside(pairs).len() == pairs.len());
            assert forall|i: int| 0 <= i < names.len() implies levels(path@)[i] == still_levels(
                held(forest),
                dirs,
                names,
            )[i] by {
                assert(aside(pairs)[i].0 == dirs[i]);
            }
            assert(levels(path@) =~= still_levels(held(forest), dirs, names));
            lemma_descend_len(
                PrivateDirectory::child_by(false, held(forest)),
                held(directory),
                names.drop_last(),
            );
        }
        let ratchets = match PreviousRatchets::new(
            past_ratchet,
            &directory.header.ratchet,
            discrepancy_budget,
        ) {
            Ok(ratchets) => ratchets,
            Err(e) => {
                return Err(e);
            },
        };
        let ghost still = levels(path@);
        let mut root = path.remove(0);
        proof {
            assert(root@ == still[0]);
        }
        root.history.ratchets = ratchets;
        let ghost root_level = root@;
        path.insert(0, root);
        proof {
            assert(levels(path@) =~= still.update(0, root_level));
        }
        let history = PrivateNodeOnPathHistory {
            forest,
            discrepancy_budget,
            path,
            target: target_history,
        };
        Ok(history)
    }

    /// Gathers the directories on the way to the node under
    /// `target_path_segment`, each with the name taken from it, and opens
    /// the walk from the newest revision of that node back to the revision
    /// that stands in the tree.
    fn path_nodes_and_target_history(
        dir: Rc<PrivateDirectory>,
        discrepancy_budget: usize,
        path_segments: &[String],
        target_path_segment: &String,
        search_latest: bool,
        forest: Rc<PrivateForest>,
    ) -> (found: Result<(Vec<(Rc<PrivateDirectory>, String)>, PrivateNodeHistory), FsError>)
        ensures
            match found {
                Ok((path, history)) => {
                    &&& target_walk(
                        *dir,
                        discrepancy_budget as nat,
                        names_of(path_segments@),
                        target_path_segment@,
                        search_latest,
                        *forest,
                    ) == Ok::<(Seq<PrivateDirectory>, NodeHistoryModel), FsError>(
                        (
                            descend(
                                PrivateDirectory::child_by(false, *forest),
                                *dir,
                                names_of(path_segments@),
                            ),
                            history@,
                        ),
                    )
                    &&& aside(path@) == Seq::new(
                        (path_segments@.len() + 1) as nat,
                        |i: int|
                            (
                                descend(
                                    PrivateDirectory::child_by(false, *forest),
                                    *dir,
                                    names_of(path_segments@),
                                )[i],
                                if i < path_segments@.len() {
                                    path_segments@[i]@
                                } else {
                                    target_path_segment@
                                },
                            ),
                    )
                },
                Err(e) => target_walk(
                    *dir,
                    discrepancy_budget as nat,
                    names_of(path_segments@),
                    target_path_segment@,
                    search_latest,
                    *forest,
                ) == Err::<(Seq<PrivateDirectory>, NodeHistoryModel), FsError>(e),
            },
    {
        let ghost names = names_of(path_segments@);
        let ghost dirs = descend(PrivateDirectory::child_by(false, held(forest)), held(dir), names);
        let path_nodes = match share_rc(&dir).get_path_nodes(path_segments, false, &forest) {
            PathNodesResult::Complete(path_nodes) => path_nodes,
            PathNodesResult::MissingLink(partial, _) => {
                return Err(FsError::NotFound);
            },
            PathNodesResult::NotADirectory(partial, _) => {
                return Err(FsError::NotADirectory);
            },
        };
        let target = match path_nodes.tail.lookup_node(
            target_path_segment.as_str(),
            false,
            &forest,
        ) {
            Some(target) => target,
            None => {
                return Err(FsError::NotFound);
            },
        };
        let target_latest = if search_latest {
            target.search_latest(&forest)
        } else {
            target.share()
        };
        let target_history = match PrivateNodeHistory::of(
            &target_latest,
            &target.get_header().ratchet,
            discrepancy_budget,
            share_rc(&forest),
        ) {
            Ok(history) => history,
            Err(e) => {
                return Err(e);
            },
        };
        let PathNodes { mut path, tail } = path_nodes;
        let ghost complete = PathNodes { path, tail };
        path.push((tail, target_path_segment.clone()));
        proof {
            assert(aside(path@) =~= Seq::new(
                (path_segments@.len() + 1) as nat,
                |i: int|
                    (
                        dirs[i],
                        if i < path_segments@.len() {
                            path_segments@[i]@
                        } else {
                            target_path_segment@
                        },
                    ),
            )) by {
                assert forall|i: int| 0 <= i < path@.len() implies aside(path@)[i] == (
                    dirs[i],
                    if i < path_segments@.len() {
                        path_segments@[i]@
                    } else {
                        target_path_segment@
                    },
                ) by {
                    if i < path_segments@.len() {
                        assert(complete.names()[i] == names[i]);
                    }
                }
            }
        }
        Ok((path, target_history))
    }

    /// Gives each level of a path a walk of its own that has nothing to go
    /// back to yet.
    fn path_segment_empty_histories(
        path: Vec<(Rc<PrivateDirectory>, String)>,
        forest: Rc<PrivateForest>,
        discrepancy_budget: usize,
    ) -> (segments: Vec<PathSegmentHistory>)
        ensures
            levels(segments@) == Seq::new(
                path@.len(),
                |i: int|
                    SegmentModel {
                        dir: *path@[i].0,
                        history: NodeHistoryModel {
                            forest: *forest,
                            header: path@[i].0.header@,
                            pending: Seq::empty(),
                        },
                        name: path@[i].1@,
                    },
            ),
            segments@.len() == path@.len(),
    {
        let mut segments: Vec<PathSegmentHistory> = Vec::new();
        let mut i: usize = 0;
        while i < path.len()
            invariant
                i <= path@.len(),
                segments@.len() == i,
                forall|j: int|
                    0 <= j < i ==> (#[trigger] segments@[j])@ == (SegmentModel {
                        dir: *path@[j].0,
                        history: NodeHistoryModel {
                            forest: *forest,
                            header: path@[j].0.header@,
                            pending: Seq::empty(),
                        },
                        name: path@[j].1@,
                    }),
            decreases path@.len() - i,
        {
            let dir = share_rc(&path[i].0);
            proof {
                lemma_steps_between_same(dir.header.ratchet@, discrepancy_budget as nat);
            }
            let history = PrivateNodeHistory::of(
                &PrivateNode::Dir(share_rc(&dir)),
                &dir.header.ratchet,
                discrepancy_budget,
                share_rc(&forest),
            );
            match history {
                Ok(history) => {
                    segments.push(
                        PathSegmentHistory { dir, history, path_segment: path[i].1.clone() },
                    );
                },
                Err(_) => {
                },
            }
            i = i + 1;
        }
        segments
    }

    /// Steps the walk one revision back and hands out the node at the path
    /// as it was at that revision, or `None` where the history ends.
    pub fn get_previous(&mut self) -> (node: Result<Option<PrivateNode>, FsError>)
        ensures
            match node {
                Ok(found) => old(self)@.step() == Ok::<
                    (PathHistoryModel, Option<PrivateNode>),
                    FsError,
                >((final(self)@, found)),
                Err(e) => old(self)@.step() == Err::<
                    (PathHistoryModel, Option<PrivateNode>),
                    FsError,
                >(e),
            },
    {
        match self.target.get_previous_node() {
            Ok(Some(node)) => {
                return Ok(Some(node));
            },
            Ok(None) => {},
            Err(e) => {
                return Err(e);
            },
        }
        let working_stack = match self.find_and_step_segment_history() {
            Ok(Some(stack)) => stack,
            Ok(None) => {
                return Ok(None);
            },
            Err(e) => {
                return Err(e);
            },
        };
        match self.repopulate_segment_histories(working_stack) {
            Ok(true) => {},
            Ok(false) => {
                return Ok(None);
            },
            Err(e) => {
                return Err(e);
            },
        }
        let ancestor = &self.path[self.path.len() - 1];
        let older_node = match ancestor.dir.lookup_node(
            ancestor.path_segment.as_str(),
            false,
            &self.forest,
        ) {
            Some(older_node) => older_node,
            None => {
                return Ok(None);
            },
        };
        let rebuilt = PrivateNodeHistory::from_header(
            self.target.header.share(),
            &older_node.get_header().ratchet,
            self.discrepancy_budget,
            share_rc(&self.forest),
        );
        match rebuilt {
            Ok(history) => {
                self.target = history;
            },
            Err(_) => {
                return Ok(None);
            },
        }
        self.target.get_previous_node()
    }

    /// Takes levels off the deep end of the path until one hands out an
    /// older directory, and hands back what was taken off before it.
    fn find_and_step_segment_history(&mut self) -> (set_aside: Result<
        Option<Vec<(Rc<PrivateDirectory>, String)>>,
        FsError,
    >)
        ensures
            final(self)@.forest == old(self)@.forest,
            final(self)@.budget == old(self)@.budget,
            final(self)@.target == old(self)@.target,
            final(self).forest == old(self).forest,
            match set_aside {
                Ok(Some(stack)) => find_and_step(old(self)@.path, Seq::empty()) == Ok::<
                    (Seq<SegmentModel>, Option<SetAside>),
                    FsError,
                >((final(self)@.path, Some(aside(stack@)))) && final(self).path@.len() > 0,
                Ok(None) => find_and_step(old(self)@.path, Seq::empty()) == Ok::<
                    (Seq<SegmentModel>, Option<SetAside>),
                    FsError,
                >((final(self)@.path, None)),
                Err(e) => find_and_step(old(self)@.path, Seq::empty()) == Err::<
                    (Seq<SegmentModel>, Option<SetAside>),
                    FsError,
                >(e),
            },
    {
        let mut working_stack: Vec<(Rc<PrivateDirectory>, String)> = Vec::new();
        proof {
            assert(aside(working_stack@) =~= Seq::empty());
        }
        loop
            invariant
                self@.forest == old(self)@.forest,
                self@.budget == old(self)@.budget,
                self@.target == old(self)@.target,
                self.forest == old(self).forest,
                find_and_step(old(self)@.path, Seq::empty()) == find_and_step(
                    self@.path,
                    aside(working_stack@),
                ),
            decreases self.path@.len(),
        {
            let ghost before = self@.path;
            let ghost stack_before = aside(working_stack@);
            match self.path.pop() {
                Some(mut segment) => {
                    proof {
                        assert(self@.path =~= before.drop_last());
                    }
                    let ghost level = segment@;
                    match segment.history.get_previous_dir() {
                        Err(e) => {
                            return Err(e);
                        },
                        Ok(Some(previous)) => {
                            segment.dir = previous;
                            let ghost pushed = segment@;
                            self.path.push(segment);
                            proof {
                                assert(self@.path =~= before.drop_last().push(pushed));
                            }
                            return Ok(Some(working_stack));
                        },
                        Ok(None) => {
                            working_stack.push((segment.dir, segment.path_segment));
                            proof {
                                assert(aside(working_stack@) =~= stack_before.push(
                                    (level.dir, level.name),
                                ));
                            }
                        },
                    }
                },
                None => {
                    return Ok(None);
                },
            }
        }
    }

    /// Puts the levels that were set aside back onto the path, the
    /// shallowest first, and says whether the path was rebuilt whole.
    #[verifier::loop_isolation(false)]
    fn repopulate_segment_histories(
        &mut self,
        working_stack: Vec<(Rc<PrivateDirectory>, String)>,
    ) -> (rebuilt: Result<bool, FsError>)
        requires
            old(self).path@.len() > 0,
        ensures
            final(self)@.forest == old(self)@.forest,
            final(self)@.budget == old(self)@.budget,
            final(self)@.target == old(self)@.target,
            final(self).forest == old(self).forest,
            final(self).discrepancy_budget == old(self).discrepancy_budget,
            final(self).target == old(self).target,
            final(self).path@.len() > 0,
            match rebuilt {
                Ok(whole) => repopulate(
                    old(self)@.forest,
                    old(self)@.budget,
                    old(self)@.path,
                    aside(working_stack@),
                ) == Ok::<(Seq<SegmentModel>, bool), FsError>((final(self)@.path, whole)),
                Err(e) => repopulate(
                    old(self)@.forest,
                    old(self)@.budget,
                    old(self)@.path,
                    aside(working_stack@),
                ) == Err::<(Seq<SegmentModel>, bool), FsError>(e),
            },
    {
        let ghost whole_stack = aside(working_stack@);
        let mut working_stack = working_stack;
        loop
            invariant
                self@.forest == old(self)@.forest,
                self@.budget == old(self)@.budget,
                self@.target == old(self)@.target,
                self.forest == old(self).forest,
                self.discrepancy_budget == old(self).discrepancy_budget,
                self.target == old(self).target,
                self.path@.len() > 0,
                repopulate(old(self)@.forest, old(self)@.budget, old(self)@.path, whole_stack)
                    == repopulate(self@.forest, self@.budget, self@.path, aside(working_stack@)),
            decreases working_stack@.len(),
        {
            let ghost stack_before = aside(working_stack@);
            let ghost before = self@.path;
            let (directory, path_segment) = match working_stack.pop() {
                Some(entry) => entry,
                None => {
                    return Ok(true);
                },
            };
            proof {
                assert(aside(working_stack@) =~= stack_before.drop_last());
            }
            let ancestor = &self.path[self.path.len() - 1];
            let older_directory = match ancestor.dir.lookup_node(
                ancestor.path_segment.as_str(),
                false,
                &self.forest,
            ) {
                Some(PrivateNode::Dir(older_directory)) => older_directory,
                _ => {
                    return Ok(false);
                },
            };
            let mut directory_history = match PrivateNodeHistory::of(
                &PrivateNode::Dir(directory),
                &older_directory.header.ratchet,
                self.discrepancy_budget,
                share_rc(&self.forest),
            ) {
                Ok(history) => history,
                Err(_) => {
                    return Ok(false);
                },
            };
            let directory_prev = match directory_history.get_previous_dir() {
                Ok(Some(dir)) => dir,
                Ok(None) => {
                    return Ok(false);
                },
                Err(e) => {
                    return Err(e);
                },
            };
            let segment = PathSegmentHistory {
                dir: directory_prev,
                history: directory_history,
                path_segment,
            };
            let ghost pushed = segment@;
            self.path.push(segment);
            proof {
                assert(self@.path =~= before.push(pushed));
            }
        }
    }
}

} // verus!
