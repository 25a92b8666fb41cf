//! Marking a tree as the successor of another.
//!
//! A node says which revisions it follows by their content addresses. What
//! the address of a node is depends on how the node is written out, which is
//! not this library's to say: the addresses come in from outside, as a tree
//! of addresses laid out like the tree of nodes.

use vstd::prelude::*;
use std::rc::Rc;
use crate::common::cid::Cid;
use crate::common::name_map::lemma_in_order_unique;
use crate::common::names::{compare_names, NameOrder};
use crate::public::node::{addresses, PublicDirectory, PublicNode};

verus! {

/// The content addresses of a tree: the address of a node, and under each
/// name the addresses of the tree that the node has there.
#[derive(Debug)]
pub struct Addresses {
    pub address: Cid,
    pub entries: Vec<(String, Addresses)>,
}

/// Whether `at` is the first place in `entries` that goes by `name`.
pub open spec fn first_named(entries: Seq<(String, Addresses)>, name: Seq<char>, at: int) -> bool {
    &&& 0 <= at < entries.len()
    &&& entries[at].0@ == name
    &&& forall|j: int| 0 <= j < at ==> (#[trigger] entries[j]).0@ != name
}

/// Whether `entries` has addresses under `name`.
pub open spec fn has_named(entries: Seq<(String, Addresses)>, name: Seq<char>) -> bool {
    exists|at: int| first_named(entries, name, at)
}

/// Whether `out` is what marking a directory as a successor makes of the
/// entry `node` that the directory has under `name`, where the base has
/// `base_node` there, `own` holds the addresses of the directory and
/// `theirs` those of the base.
///
/// The entry stays as it is where the base has none of its name, where the
/// addresses of one of the two are not known, where the two have the same
/// address, and where one is a file and the other a directory. Otherwise a
/// file is the same file with the address of the file of the base as its one
/// earlier revision, and a directory is the same directory marked as the
/// successor of the directory of the base.
pub open spec fn entry_rebased(
    node: PublicNode,
    base_node: Option<PublicNode>,
    own: Addresses,
    theirs: Addresses,
    name: Seq<char>,
    out: PublicNode,
) -> bool
    decreases own, 0nat,
{
    if base_node is Some && has_named(own.entries@, name) && has_named(theirs.entries@, name) {
        forall|oi: int, ti: int|
            first_named(own.entries@, name, oi) && first_named(theirs.entries@, name, ti) ==> {
                let o = #[trigger] own.entries@[oi].1;
                let t = #[trigger] theirs.entries@[ti].1;
                if o.address@ == t.address@ {
                    out == node
                } else {
                    match (node, base_node.unwrap()) {
                        (PublicNode::Dir(d), PublicNode::Dir(b)) => {
                            &&& out matches PublicNode::Dir(dd)
                            &&& rebased(*d, *b, o, t, *dd)
                        },
                        (PublicNode::File(f), PublicNode::File(_)) => {
                            &&& out matches PublicNode::File(ff)
                            &&& ff.metadata == f.metadata
                            &&& ff.userland@ == f.userland@
                            &&& addresses(ff.previous@) == seq![t.address@]
                        },
                        _ => out == node,
                    }
                }
            }
    } else {
        out == node
    }
}

/// Whether `derived` is `dir` marked as the successor of `base`, where `own`
/// holds the addresses of `dir` and `theirs` those of `base`: it is `dir`
/// but for its earlier revisions, which are the one address of `base`, and
/// for its entries, each of which is what `entry_rebased` says.
pub open spec fn rebased(
    dir: PublicDirectory,
    base: PublicDirectory,
    own: Addresses,
    theirs: Addresses,
    derived: PublicDirectory,
) -> bool
    decreases own, 1nat,
{
    &&& derived.version == dir.version
    &&& derived.metadata == dir.metadata
    &&& addresses(derived.previous@) == seq![theirs.address@]
    &&& derived.userland@.dom() == dir.userland@.dom()
    &&& forall|name: Seq<char>| #[trigger]
        dir.userland@.contains_key(name) ==> entry_rebased(
            dir.userland@[name],
            base.spec_lookup_node(name),
            own,
            theirs,
            name,
            derived.userland@[name],
        )
}

/// A name goes by one first place only.
pub proof fn lemma_first_named_unique(
    entries: Seq<(String, Addresses)>,
    name: Seq<char>,
    one: int,
    other: int,
)
    requires
        first_named(entries, name, one),
        first_named(entries, name, other),
    ensures
        one == other,
{
}

/// The first place in `entries` that goes by `name`.
pub fn position(entries: &Vec<(String, Addresses)>, name: &str) -> (at: Option<usize>)
    ensures
        match at {
            Some(i) => first_named(entries@, name@, i as int),
            None => !has_named(entries@, name@),
        },
{
    let mut i: usize = 0;
    while i < entries.len()
        invariant
            i <= entries@.len(),
            forall|j: int| 0 <= j < i ==> (#[trigger] entries@[j]).0@ != name@,
        decreases entries@.len() - i,
    {
        match compare_names(entries[i].0.as_str(), name) {
            NameOrder::Same => {
                return Some(i);
            },
            _ => {},
        }
        i = i + 1;
    }
    None
}

/// The one address of a base as the earlier revisions of its successor.
fn only(address: &Cid) -> (previous: Vec<Cid>)
    ensures
        addresses(previous@) == seq![address@],
{
    let mut previous: Vec<Cid> = Vec::new();
    previous.push(address.duplicate());
    proof {
        assert(addresses(previous@) =~= seq![address@]);
    }
    previous
}

/// What marking a directory as a successor makes of one of its entries;
/// `None` where the entry stays as it is.
fn rebase_entry(
    node: &PublicNode,
    base_node: Option<&PublicNode>,
    own: &Addresses,
    theirs: &Addresses,
    name: &str,
) -> (out: Option<PublicNode>)
    ensures
        entry_rebased(
            *node,
            match base_node {
                Some(b) => Some(*b),
                None => None,
            },
            *own,
            *theirs,
            name@,
            match out {
                Some(changed) => changed,
                None => *node,
            },
        ),
    decreases own, 0nat,
{
    let base_node = match base_node {
        Some(base_node) => base_node,
        None => {
            return None;
        },
    };
    let oi = match position(&own.entries, name) {
        Some(oi) => oi,
        None => {
            return None;
        },
    };
    let ti = match position(&theirs.entries, name) {
        Some(ti) => ti,
        None => {
            return None;
        },
    };
    let o = &own.entries[oi].1;
    let t = &theirs.entries[ti].1;
    proof {
        assert forall|a: int, b: int|
            first_named(own.entries@, name@, a) && first_named(theirs.entries@, name@, b) implies a
            == oi && b == ti by {
            lemma_first_named_unique(own.entries@, name@, a, oi as int);
            lemma_first_named_unique(theirs.entries@, name@, b, ti as int);
        }
    }
    if o.address.same(&t.address) {
        return None;
    }
    match (node, base_node) {
        (PublicNode::Dir(d), PublicNode::Dir(b)) => Some(
            PublicNode::Dir(Rc::new(rebase(d, b, o, t))),
        ),
        (PublicNode::File(f), PublicNode::File(_)) => {
            let mut file = f.duplicate();
            file.previous = only(&t.address);
            Some(PublicNode::File(Rc::new(file)))
        },
        _ => None,
    }
}

/// The directory `dir` marked as the successor of `base`.
pub fn rebase(dir: &PublicDirectory, base: &PublicDirectory, own: &Addresses, theirs: &Addresses) -> (derived:
    PublicDirectory)
    ensures
        rebased(*dir, *base, *own, *theirs, derived),
    decreases own, 1nat,
{
    let mut derived = dir.duplicate();
    derived.previous = only(&theirs.address);
    proof {
        use_type_invariant(&dir.userland);
        dir.userland.lemma_names();
    }
    let count = dir.userland.len();
    let mut i: usize = 0;
    while i < count
        invariant
            i <= count,
            count == dir.userland.names().len(),
            count == dir.userland.values().len(),
            dir.userland.wf(),
            derived.version == dir.version,
            derived.metadata == dir.metadata,
            addresses(derived.previous@) == seq![theirs.address@],
            derived.userland@.dom() == dir.userland@.dom(),
            forall|k: int|
                0 <= k < dir.userland.names().len() ==> dir.userland@.contains_key(
                    #[trigger] dir.userland.names()[k],
                ),
            forall|k: int|
                i <= k < count ==> derived.userland@[#[trigger] dir.userland.names()[k]]
                    == dir.userland@[dir.userland.names()[k]],
            forall|k: int|
                0 <= k < i ==> entry_rebased(
                    dir.userland@[#[trigger] dir.userland.names()[k]],
                    base.spec_lookup_node(dir.userland.names()[k]),
                    *own,
                    *theirs,
                    dir.userland.names()[k],
                    derived.userland@[dir.userland.names()[k]],
                ),
        decreases count - i,
    {
        let name = dir.userland.name_at(i);
        let node = dir.userland.value_at(i);
        proof {
            dir.userland.lemma_names();
            assert forall|k: int| 0 <= k < count && k != i implies dir.userland.names()[k]
                != name@ by {
                if dir.userland.names()[k] == name@ {
                    lemma_in_order_unique(dir.userland.names(), k, i as int);
                }
            }
        }
        match rebase_entry(node, base.userland.get(name.as_str()), own, theirs, name.as_str()) {
            Some(changed) => {
                derived.userland.insert(name.clone(), changed);
            },
            None => {},
        }
        i = i + 1;
    }
    proof {
        assert forall|name: Seq<char>| #[trigger]
            dir.userland@.contains_key(name) implies entry_rebased(
            dir.userland@[name],
            base.spec_lookup_node(name),
            *own,
            *theirs,
            name,
            derived.userland@[name],
        ) by {
            let k = dir.userland.names().index_of(name);
            assert(dir.userland.names()[k] == name);
        }
    }
    derived
}

impl PublicDirectory {
    /// Marks this tree as the successor of `base`: the tree itself where the
    /// two have the same address, and else the tree that `rebase` gives.
    /// `own` holds the addresses of this tree and `theirs` those of `base`.
    pub fn base_history_on(self: Rc<Self>, base: Rc<Self>, own: &Addresses, theirs: &Addresses) -> (derived:
        Rc<PublicDirectory>)
        ensures
            own.address@ == theirs.address@ ==> derived == self,
            own.address@ != theirs.address@ ==> rebased(*self, *base, *own, *theirs, *derived),
    {
        if own.address.same(&theirs.address) {
            return self;
        }
        Rc::new(rebase(&self, &base, own, theirs))
    }
}

} // verus!
