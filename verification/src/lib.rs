//! A versioned file system whose trees are values.
//!
//! Directories and files never change: every write gives a new root that
//! shares with the old tree whatever the write did not touch. In a private
//! tree each node counts its revisions with a forward-only ratchet and is
//! filed in a forest under a name that changes with every revision, so that
//! the history of the node at a path can be walked back from the present to a
//! remembered state of the root.
//!
//! * `public` holds the plain tree: path resolution, the rebuilding of the
//!   ancestors of a changed directory, and the marking of a tree as the
//!   successor of another.
//! * `private` holds the ratchet, the forest, the private tree, and the walks
//!   back through the revisions of one node and of the node at a path.
//! * `common` holds what both trees share: names and their order, maps by
//!   name, the ways along a path, content addresses and block stores.
//! * `ffi` holds what a foreign function interface needs of the private
//!   tree: paths as text, listings as bytes, failures as words.

pub mod common;
pub mod error;
pub mod ffi;
pub mod private;
pub mod public;
