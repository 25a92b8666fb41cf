//! When a node was made and when it was last changed.

use vstd::prelude::*;

verus! {

/// The times of a node, in seconds since the Unix epoch.
#[derive(Clone, Copy, Debug, PartialEq, Eq, Structural)]
pub struct Metadata {
    pub created: Option<i64>,
    pub modified: Option<i64>,
}

impl Metadata {
    /// The metadata of a node made at `time`.
    pub fn new(time: i64) -> (metadata: Metadata)
        ensures
            metadata == (Metadata { created: Some(time), modified: Some(time) }),
    {
        Metadata { created: Some(time), modified: Some(time) }
    }

    /// Notes that the node was changed at `time`.
    pub fn upsert_mtime(&mut self, time: i64)
        ensures
            *final(self) == (Metadata { created: old(self).created, modified: Some(time) }),
    {
        self.modified = Some(time);
    }

    /// When the node was made, if that is known.
    pub fn get_created(&self) -> (time: Option<i64>)
        ensures
            time == self.created,
    {
        self.created
    }

    /// When the node was last changed, if that is known.
    pub fn get_modified(&self) -> (time: Option<i64>)
        ensures
            time == self.modified,
    {
        self.modified
    }
}

} // verus!
