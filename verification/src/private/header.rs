//! What identifies a private node and its revision.

use vstd::prelude::*;
use crate::common::digest::{join_digests, sha3_256, sha3_256_digest};
use crate::common::name_map::Shared;
use crate::private::ratchet::{ratchet_key, ratchet_origin, ratchet_successor, Ratchet};

verus! {

/// The name under which the revision at ratchet state `state` of the node
/// with bare name `bare_name` goes: the bare name, then the key of the state.
pub open spec fn revision_name(bare_name: Seq<u8>, state: Seq<char>) -> Seq<u8> {
    bare_name + ratchet_key(state).unwrap()
}

/// The digest of a revision's name, under which the forest files the
/// revision.
pub open spec fn revision_hash(bare_name: Seq<u8>, state: Seq<char>) -> Seq<u8> {
    sha3_256(revision_name(bare_name, state))
}

/// What it takes to find one revision of a private node in the forest.
#[derive(Clone, Copy, Debug, PartialEq, Eq)]
pub struct PrivateRef {
    /// The digest of the revision's name.
    pub saturated_name_hash: [u8; 32],
    /// The key of the revision's ratchet state.
    pub ratchet_key: [u8; 32],
}

impl Shared for PrivateRef {
    fn share(&self) -> (other: Self) {
        *self
    }
}

/// The part of a private node that says which node it is and at which
/// revision it stands.
#[derive(Clone, Debug)]
pub struct PrivateNodeHeader {
    /// What stays the same over all revisions of the node.
    pub inumber: [u8; 32],
    /// The revision.
    pub ratchet: Ratchet,
    /// The name that the node has from its place in the tree.
    pub bare_name: [u8; 32],
}

/// A header as a plain value.
pub struct HeaderModel {
    pub inumber: Seq<u8>,
    pub ratchet: Seq<char>,
    pub bare_name: Seq<u8>,
}

impl HeaderModel {
    /// The header of the same node at another revision.
    pub open spec fn at(self, state: Seq<char>) -> HeaderModel {
        HeaderModel { inumber: self.inumber, ratchet: state, bare_name: self.bare_name }
    }

    /// The digest under which the forest files the revision that the header
    /// stands at.
    pub open spec fn hash(self) -> Seq<u8> {
        revision_hash(self.bare_name, self.ratchet)
    }
}

impl View for PrivateNodeHeader {
    type V = HeaderModel;

    open spec fn view(&self) -> HeaderModel {
        HeaderModel {
            inumber: self.inumber@,
            ratchet: self.ratchet@,
            bare_name: self.bare_name@,
        }
    }
}

impl PrivateNodeHeader {
    /// The header of a new node below a node with bare name
    /// `parent_bare_name`, at the first state of the chain that grows from
    /// `ratchet_seed`.
    pub fn with_seed(parent_bare_name: &[u8; 32], ratchet_seed: &[u8; 32], inumber: [u8; 32]) -> (header:
        PrivateNodeHeader)
        ensures
            header.inumber == inumber,
            header.ratchet@ == ratchet_origin(ratchet_seed@),
            header.bare_name@ == sha3_256(parent_bare_name@ + inumber@),
    {
        let joined = join_digests(parent_bare_name, &inumber);
        PrivateNodeHeader {
            inumber,
            ratchet: Ratchet::zero(ratchet_seed),
            bare_name: sha3_256_digest(joined.as_slice()),
        }
    }

    /// Moves the header on to the node's next revision.
    pub fn advance_ratchet(&mut self)
        ensures
            ratchet_successor(old(self).ratchet@) == Some(final(self).ratchet@),
            final(self).inumber == old(self).inumber,
            final(self).bare_name == old(self).bare_name,
    {
        self.ratchet.inc();
    }

    /// The name under which this revision goes.
    pub fn get_saturated_name(&self) -> (name: Vec<u8>)
        ensures
            name@ == revision_name(self.bare_name@, self.ratchet@),
    {
        let key = self.ratchet.derive_key();
        join_digests(&self.bare_name, &key)
    }

    /// What it takes to find this revision in the forest.
    pub fn get_private_ref(&self) -> (private_ref: PrivateRef)
        ensures
            private_ref.saturated_name_hash@ == revision_hash(self.bare_name@, self.ratchet@),
            ratchet_key(self.ratchet@) == Some(private_ref.ratchet_key@),
    {
        let key = self.ratchet.derive_key();
        let name = join_digests(&self.bare_name, &key);
        PrivateRef { saturated_name_hash: sha3_256_digest(name.as_slice()), ratchet_key: key }
    }
}

impl Shared for PrivateNodeHeader {
    fn share(&self) -> (other: Self) {
        PrivateNodeHeader {
            inumber: self.inumber,
            ratchet: self.ratchet.share(),
            bare_name: self.bare_name,
        }
    }
}

} // verus!
