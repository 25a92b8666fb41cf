use std::rc::Rc;

use sha3::Digest;

use wnfslib::private::forest::PrivateForest;
use wnfslib::private::header::PrivateRef;
use wnfslib::private::node::{PrivateFile, PrivateNode};

fn file(content: &[u8], seed: u8) -> PrivateNode {
    PrivateNode::File(Rc::new(PrivateFile::with_seed(
        &[0u8; 32],
        1,
        content.to_vec(),
        &[seed; 32],
        [seed; 32],
    )))
}

fn content(node: Option<PrivateNode>) -> Option<Vec<u8>> {
    node.map(|n| n.as_file().unwrap().get_content())
}

#[test]
fn a_forest_hands_back_what_was_put() {
    let empty = Rc::new(PrivateForest::new());
    assert_eq!(empty.len(), 0);
    let one = file(b"one", 1);
    let two = file(b"two", 2);
    let ref_one = one.get_header().get_private_ref();
    let ref_two = two.get_header().get_private_ref();
    assert_ne!(ref_one, ref_two);

    let forest = empty.put(&ref_one, &one);
    assert!(forest.has(&ref_one.saturated_name_hash));
    assert!(!forest.has(&ref_two.saturated_name_hash));
    assert_eq!(content(forest.get(&ref_one)), Some(b"one".to_vec()));
    assert_eq!(content(forest.get(&ref_two)), None);

    let both = forest.put(&ref_two, &two);
    assert_eq!(both.len(), 2);
    assert_eq!(content(both.get(&ref_one)), Some(b"one".to_vec()));
    assert_eq!(content(both.get(&ref_two)), Some(b"two".to_vec()));
}

#[test]
fn a_put_leaves_the_old_forest_as_it_was() {
    let empty = Rc::new(PrivateForest::new());
    let one = file(b"one", 1);
    let ref_one = one.get_header().get_private_ref();
    let forest = empty.put(&ref_one, &one);
    assert_eq!(empty.len(), 0);
    assert!(empty.get(&ref_one).is_none());
    assert_eq!(forest.len(), 1);
}

#[test]
fn of_several_under_one_digest_the_first_put_is_found() {
    let one = file(b"one", 1);
    let other = file(b"other", 2);
    let under = PrivateRef { saturated_name_hash: [5u8; 32], ratchet_key: [6u8; 32] };
    let forest = Rc::new(PrivateForest::new()).put(&under, &one).put(&under, &other);
    assert_eq!(forest.len(), 2);
    assert_eq!(content(forest.get(&under)), Some(b"one".to_vec()));
}

#[test]
fn the_reference_of_a_revision_changes_with_the_ratchet() {
    let node = file(b"one", 1);
    let first = node.get_header().get_private_ref();
    let mut header = node.get_header().clone();
    header.advance_ratchet();
    let second = header.get_private_ref();
    assert_ne!(first.saturated_name_hash, second.saturated_name_hash);
    assert_ne!(first.ratchet_key, second.ratchet_key);
    assert_eq!(header.get_saturated_name().len(), 64);
    assert_eq!(header.get_saturated_name()[..32], header.bare_name);
    assert_eq!(header.get_saturated_name()[32..], second.ratchet_key);
}

#[test]
fn a_bare_name_is_the_digest_of_the_parent_and_the_identifier() {
    let parent = [7u8; 32];
    let inumber = [9u8; 32];
    let dir = wnfslib::private::node::PrivateDirectory::with_seed(&parent, 1, &[3u8; 32], inumber);
    let mut joined = parent.to_vec();
    joined.extend_from_slice(&inumber);
    let expected: [u8; 32] = sha3::Sha3_256::digest(&joined).into();
    assert_eq!(dir.header.bare_name, expected);
    assert_eq!(dir.header.inumber, inumber);

    let name = dir.header.get_saturated_name();
    let hash: [u8; 32] = sha3::Sha3_256::digest(&name).into();
    assert_eq!(dir.header.get_private_ref().saturated_name_hash, hash);
    assert_eq!(dir.header.get_private_ref().ratchet_key, dir.header.ratchet.derive_key());
}
