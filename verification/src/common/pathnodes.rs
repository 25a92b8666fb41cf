//! The directories that a path leads through.

use vstd::prelude::*;
use std::rc::Rc;

verus! {

/// The directories on the way along a path, each with the name of the child
/// that the path takes from it, and the directory that the way ends in.
#[derive(Debug)]
pub struct PathNodes<T> {
    pub path: Vec<(Rc<T>, String)>,
    pub tail: Rc<T>,
}

/// How far a path could be followed.
#[derive(Debug)]
pub enum PathNodesResult<T> {
    /// Every name of the path led to a directory.
    Complete(PathNodes<T>),
    /// The directory that was reached has no entry of the given name.
    MissingLink(PathNodes<T>, String),
    /// The directory that was reached has a file under the given name.
    NotADirectory(PathNodes<T>, String),
}

/// The names of the rows of a listing, row by row.
pub open spec fn listed_names<T>(listing: Seq<(String, T)>) -> Seq<Seq<char>> {
    Seq::new(listing.len(), |i: int| listing[i].0@)
}

/// A path as a sequence of names.
pub open spec fn names_of(path_segments: Seq<String>) -> Seq<Seq<char>> {
    Seq::new(path_segments.len(), |i: int| path_segments[i]@)
}

/// The directories met when `path` is followed down from `dir`, `dir` first,
/// as far as each name leads to a directory; `child` says to which
/// directory, if any, a name leads from a directory.
pub open spec fn descend<T>(
    child: spec_fn(T, Seq<char>) -> Option<T>,
    dir: T,
    path: Seq<Seq<char>>,
) -> Seq<T>
    decreases path.len(),
{
    if path.len() == 0 {
        seq![dir]
    } else {
        match child(dir, path[0]) {
            Some(next) => seq![dir] + descend(child, next, path.skip(1)),
            None => seq![dir],
        }
    }
}

/// A descent meets at least the directory it starts from, and one more
/// for each name at most.
pub proof fn lemma_descend_len<T>(
    child: spec_fn(T, Seq<char>) -> Option<T>,
    dir: T,
    path: Seq<Seq<char>>,
)
    ensures
        1 <= descend(child, dir, path).len() <= path.len() + 1,
        descend(child, dir, path)[0] == dir,
    decreases path.len(),
{
    if path.len() > 0 {
        match child(dir, path[0]) {
            Some(next) => {
                lemma_descend_len(child, next, path.skip(1));
            },
            None => {},
        }
    }
}

/// Each directory of a descent but the last leads to the one after it by the
/// name at its place in the path, and the last leads nowhere by the name at
/// its place, if the path has one there.
pub proof fn lemma_descend_links<T>(
    child: spec_fn(T, Seq<char>) -> Option<T>,
    dir: T,
    path: Seq<Seq<char>>,
)
    ensures
        forall|i: int|
            0 <= i < descend(child, dir, path).len() - 1 ==> child(
                #[trigger] descend(child, dir, path)[i],
                path[i],
            ) == Some(descend(child, dir, path)[i + 1]),
        descend(child, dir, path).len() <= path.len() ==> child(
            descend(child, dir, path).last(),
            path[descend(child, dir, path).len() - 1],
        ) is None,
    decreases path.len(),
{
    lemma_descend_len(child, dir, path);
    if path.len() > 0 {
        match child(dir, path[0]) {
            Some(next) => {
                lemma_descend_links(child, next, path.skip(1));
                lemma_descend_len(child, next, path.skip(1));
                let all = descend(child, dir, path);
                assert forall|i: int| 0 <= i < all.len() - 1 implies child(
                    #[trigger] all[i],
                    path[i],
                ) == Some(all[i + 1]) by {
                }
            },
            None => {},
        }
    }
}

impl<T> PathNodes<T> {
    /// The directories, from the first on the way to the one the way ends in.
    pub open spec fn dirs(&self) -> Seq<T> {
        Seq::new(
            (self.path@.len() + 1) as nat,
            |i: int|
                if i < self.path@.len() {
                    *self.path@[i].0
                } else {
                    *self.tail
                },
        )
    }

    /// The names taken, one from each directory on the way.
    pub open spec fn names(&self) -> Seq<Seq<char>> {
        Seq::new(self.path@.len(), |i: int| self.path@[i].1@)
    }

    /// Whether these are the directories that `path` leads through from
    /// `root`, as far as it can be followed.
    pub open spec fn follows(
        &self,
        child: spec_fn(T, Seq<char>) -> Option<T>,
        root: T,
        path: Seq<Seq<char>>,
    ) -> bool {
        &&& self.dirs() == descend(child, root, path)
        &&& self.path@.len() <= path.len()
        &&& self.names() == path.take(self.path@.len() as int)
    }
}

} // verus!
