//! The forest: where the revisions of private nodes are filed, each under
//! the digest of its name.
//!
//! A forest is a value. Putting a revision gives a new forest and leaves the
//! old one as it was. Several revisions may be filed under one digest, in the
//! order in which they were put; a lookup gives the lowest, which is the
//! one put first.

use vstd::prelude::*;
use std::rc::Rc;
use crate::common::digest::same_digest;
use crate::common::name_map::Shared;
use crate::private::header::PrivateRef;
use crate::private::node::PrivateNode;

verus! {

/// The first value filed under `hash`, if there is one.
pub open spec fn first_under<V>(entries: Seq<(Seq<u8>, V)>, hash: Seq<u8>) -> Option<V>
    decreases entries.len(),
{
    if entries.len() == 0 {
        None
    } else if entries[0].0 == hash {
        Some(entries[0].1)
    } else {
        first_under(entries.skip(1), hash)
    }
}

/// What a lookup gives once one more entry has been filed: what it gave
/// before, and the new entry only where it gave nothing.
pub proof fn lemma_first_under_push<V>(entries: Seq<(Seq<u8>, V)>, entry: (Seq<u8>, V), hash: Seq<u8>)
    ensures
        first_under(entries.push(entry), hash) == (match first_under(entries, hash) {
            Some(v) => Some(v),
            None => if entry.0 == hash {
                Some(entry.1)
            } else {
                None
            },
        }),
    decreases entries.len(),
{
    let longer = entries.push(entry);
    if entries.len() == 0 {
        assert(first_under(longer.skip(1), hash) is None);
    } else {
        assert(longer.skip(1) =~= entries.skip(1).push(entry));
        lemma_first_under_push(entries.skip(1), entry, hash);
    }
}

/// The revisions of private nodes, each filed under the digest of its name.
#[derive(Debug)]
pub struct PrivateForest {
    stored: Vec<([u8; 32], PrivateNode)>,
}

impl PrivateForest {
    /// What is filed, in the order in which it was put.
    pub closed spec fn entries(&self) -> Seq<(Seq<u8>, PrivateNode)> {
        Seq::new(self.stored@.len(), |i: int| (self.stored@[i].0@, self.stored@[i].1))
    }

    /// The lowest revision filed under `hash`.
    pub open spec fn lookup(&self, hash: Seq<u8>) -> Option<PrivateNode> {
        first_under(self.entries(), hash)
    }

    /// A forest in which nothing is filed.
    pub fn new() -> (forest: PrivateForest)
        ensures
            forest.entries() == Seq::<(Seq<u8>, PrivateNode)>::empty(),
    {
        let forest = PrivateForest { stored: Vec::new() };
        forest
    }

    /// How many revisions are filed.
    pub fn len(&self) -> (n: usize)
        ensures
            n == self.entries().len(),
    {
        self.stored.len()
    }

    /// What is filed at a position: the digest it is filed under, and the
    /// node.
    pub fn entry_at(&self, i: usize) -> (entry: (&[u8; 32], &PrivateNode))
        requires
            i < self.entries().len(),
        ensures
            (entry.0@, *entry.1) == self.entries()[i as int],
    {
        (&self.stored[i].0, &self.stored[i].1)
    }

    /// The position of the lowest revision filed under `hash`.
    fn find(&self, hash: &[u8; 32]) -> (at: Option<usize>)
        ensures
            match at {
                Some(i) => i < self.stored@.len() && self.lookup(hash@) == Some(self.stored@[i as int].1),
                None => self.lookup(hash@) is None,
            },
    {
        let mut i: usize = 0;
        proof {
            assert(self.entries().skip(0) =~= self.entries());
        }
        while i < self.stored.len()
            invariant
                i <= self.stored@.len(),
                self.lookup(hash@) == first_under(self.entries().skip(i as int), hash@),
            decreases self.stored@.len() - i,
        {
            proof {
                assert(self.entries().skip(i as int).skip(1) =~= self.entries().skip(i + 1));
            }
            if same_digest(&self.stored[i].0, hash) {
                return Some(i);
            }
            i = i + 1;
        }
        None
    }

    /// Whether anything is filed under `hash`.
    pub fn has(&self, hash: &[u8; 32]) -> (found: bool)
        ensures
            found == self.lookup(hash@) is Some,
    {
        self.find(hash).is_some()
    }

    /// The lowest revision filed under the digest that `private_ref` names.
    pub fn get(&self, private_ref: &PrivateRef) -> (node: Option<PrivateNode>)
        ensures
            node == self.lookup(private_ref.saturated_name_hash@),
    {
        match self.find(&private_ref.saturated_name_hash) {
            Some(i) => Some(self.stored[i].1.share()),
            None => None,
        }
    }

    /// The forest that holds what this one holds and, after it, `node` filed
    /// under the digest that `private_ref` names.
    pub fn put(&self, private_ref: &PrivateRef, node: &PrivateNode) -> (forest: Rc<PrivateForest>)
        ensures
            forest.entries() == self.entries().push((private_ref.saturated_name_hash@, *node)),
    {
        let mut stored: Vec<([u8; 32], PrivateNode)> = Vec::new();
        let mut i: usize = 0;
        while i < self.stored.len()
            invariant
                i <= self.stored@.len(),
                stored@.len() == i,
                forall|j: int| 0 <= j < i ==> stored@[j] == self.stored@[j],
            decreases self.stored@.len() - i,
        {
            stored.push((self.stored[i].0, self.stored[i].1.share()));
            i = i + 1;
        }
        stored.push((private_ref.saturated_name_hash, node.share()));
        let forest = PrivateForest { stored };
        Rc::new(forest)
    }

    /// Whatever a forest holds under a digest, it holds the same there after
    /// any put: a put adds, and takes nothing away.
    pub proof fn lemma_put_keeps(self, after: PrivateForest, filed: (Seq<u8>, PrivateNode), hash: Seq<u8>)
        requires
            after.entries() == self.entries().push(filed),
            self.lookup(hash) is Some,
        ensures
            after.lookup(hash) == self.lookup(hash),
    {
        lemma_first_under_push(self.entries(), filed, hash);
    }

    /// After a put the forest holds under every digest what the old forest
    /// held and the put did not fill.
    pub proof fn lemma_put_adds(self, after: PrivateForest, filed: (Seq<u8>, PrivateNode), hash: Seq<u8>)
        requires
            after.entries() == self.entries().push(filed),
            self.lookup(hash) is None,
        ensures
            after.lookup(hash) == (if filed.0 == hash {
                Some(filed.1)
            } else {
                None
            }),
    {
        lemma_first_under_push(self.entries(), filed, hash);
    }
}

} // verus!
