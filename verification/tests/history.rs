use std::rc::Rc;

use wnfslib::common::cid::{Cid, IpldCodec};
use wnfslib::public::directory::PublicOpResult;
use wnfslib::public::history::{position, rebase, Addresses};
use wnfslib::public::node::{PublicDirectory, PublicNode};

/// Addresses for a tree as a store might give them: that of a file from its
/// content and times, that of a directory from its names and the addresses
/// below it.
fn addresses_of(node: &PublicNode) -> Addresses {
    match node {
        PublicNode::File(file) => {
            let mut bytes = file.userland.to_bytes();
            bytes.extend_from_slice(&file.metadata.modified.unwrap_or(0).to_be_bytes());
            Addresses { address: Cid::of(IpldCodec::Raw, &bytes), entries: vec![] }
        }
        PublicNode::Dir(dir) => addresses_of_dir(dir),
    }
}

fn addresses_of_dir(dir: &PublicDirectory) -> Addresses {
    let mut entries = Vec::new();
    let mut bytes = Vec::new();
    for i in 0..dir.userland.len() {
        let name = dir.userland.name_at(i).clone();
        let below = addresses_of(dir.userland.value_at(i));
        bytes.extend_from_slice(name.as_bytes());
        bytes.extend_from_slice(&below.address.to_bytes());
        entries.push((name, below));
    }
    Addresses { address: Cid::of(IpldCodec::DagCbor, &bytes), entries }
}

fn node_at(root: &Rc<PublicDirectory>, path: &[&str]) -> PublicNode {
    let path: Vec<String> = path.iter().map(|s| s.to_string()).collect();
    Rc::clone(root).get_node(&path).unwrap().result.unwrap()
}

fn previous_of(node: &PublicNode) -> Vec<Cid> {
    match node {
        PublicNode::File(file) => file.get_previous().clone(),
        PublicNode::Dir(dir) => dir.get_previous().clone(),
    }
}

#[test]
fn base_history_on_can_create_a_new_derived_tree_pointing_to_base() {
    let time = 1_000;
    let root_dir = Rc::new(PublicDirectory::new(time));

    let PublicOpResult { root_dir: base_root, .. } = root_dir
        .write(
            &["pictures".into(), "cats".into(), "tabby.jpg".into()],
            Cid::default(),
            time,
        )
        .unwrap();

    let PublicOpResult { root_dir: updated_root, .. } = Rc::clone(&base_root)
        .write(
            &["pictures".into(), "cats".into(), "luna.png".into()],
            Cid::default(),
            time,
        )
        .unwrap();

    let own = addresses_of_dir(&updated_root);
    let theirs = addresses_of_dir(&base_root);
    let derived_root = updated_root.base_history_on(Rc::clone(&base_root), &own, &theirs);

    // Assert that the root node points to its old version.
    let derived_previous_cid = derived_root.get_previous();
    let base_cid = theirs.address.clone();

    assert_eq!(derived_previous_cid.len(), 1);
    assert!(derived_previous_cid.contains(&base_cid));

    // Assert that some node that exists between versions points to its old version.
    let derived_node = node_at(&derived_root, &["pictures", "cats"]);
    let base_node = node_at(&base_root, &["pictures", "cats"]);

    let derived_previous_cid = previous_of(&derived_node);
    let base_cid = addresses_of(&base_node).address;

    assert_eq!(derived_previous_cid.len(), 1);
    assert!(derived_previous_cid.contains(&base_cid));

    // Assert that some node that doesn't exists between versions does not point to anything.
    let derived_node = node_at(&derived_root, &["pictures", "cats", "luna.png"]);

    assert_eq!(previous_of(&derived_node).len(), 0);

    // What did not change is the very node of the tree that was marked.
    let same = node_at(&derived_root, &["pictures", "cats", "tabby.jpg"]);
    assert_eq!(previous_of(&same).len(), 0);
}

#[test]
fn a_tree_is_not_marked_as_its_own_successor() {
    let root = Rc::new(PublicDirectory::new(1));
    let PublicOpResult { root_dir, .. } =
        root.write(&["a".into()], Cid::default(), 1).unwrap();
    let own = addresses_of_dir(&root_dir);
    let derived = Rc::clone(&root_dir).base_history_on(Rc::clone(&root_dir), &own, &own);
    assert!(Rc::ptr_eq(&derived, &root_dir));
    assert_eq!(derived.get_previous().len(), 0);
}

#[test]
fn a_changed_file_follows_the_file_of_the_base() {
    let root = Rc::new(PublicDirectory::new(1));
    let base = root
        .write(&["docs".into(), "a".into()], Cid::default(), 1)
        .unwrap()
        .root_dir;
    let base = base.write(&["docs".into(), "b".into()], Cid::default(), 1).unwrap().root_dir;
    let base = base.mkdir(&["kind".into()], 1).unwrap().root_dir;
    let changed = Rc::clone(&base)
        .write(&["docs".into(), "a".into()], Cid::default(), 2)
        .unwrap()
        .root_dir;
    let changed = changed.rm(&["kind".into()]).unwrap().root_dir;
    let changed = changed.write(&["kind".into()], Cid::default(), 2).unwrap().root_dir;

    let own = addresses_of_dir(&changed);
    let theirs = addresses_of_dir(&base);
    let derived = rebase(&changed, &base, &own, &theirs);

    assert_eq!(derived.previous, vec![theirs.address.clone()]);
    assert_eq!(derived.metadata, changed.metadata);
    let docs = derived.lookup_node("docs").unwrap().as_dir().unwrap();
    let docs_at = position(&theirs.entries, "docs").unwrap();
    assert_eq!(docs.previous, vec![theirs.entries[docs_at].1.address.clone()]);
    let a = docs.lookup_node("a").unwrap().as_file().unwrap();
    let a_at = position(&theirs.entries[docs_at].1.entries, "a").unwrap();
    assert_eq!(a.previous, vec![theirs.entries[docs_at].1.entries[a_at].1.address.clone()]);
    assert_eq!(a.metadata.modified, Some(2));
    let b = docs.lookup_node("b").unwrap().as_file().unwrap();
    assert!(b.previous.is_empty());
    // A file where the base has a directory follows nothing.
    let kind = derived.lookup_node("kind").unwrap().as_file().unwrap();
    assert!(kind.previous.is_empty());
    assert_eq!(position(&theirs.entries, "none"), None);
}
