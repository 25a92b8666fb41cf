use std::rc::Rc;

use wnfslib::private::directory::PrivateOpResult;
use wnfslib::private::forest::PrivateForest;
use wnfslib::private::node::{PrivateDirectory, PrivateNode};
use wnfslib::private::previous::PrivateNodeOnPathHistory;
use wnfslib::private::ratchet::ratchet_distance;

struct TestSetup {
    forest: Rc<PrivateForest>,
    root_dir: Rc<PrivateDirectory>,
    discrepancy_budget: usize,
}

fn setup() -> TestSetup {
    TestSetup {
        forest: Rc::new(PrivateForest::new()),
        root_dir: Rc::new(PrivateDirectory::new(&[0u8; 32], 1_000)),
        discrepancy_budget: 1_000_000,
    }
}

fn content_of(node: PrivateNode) -> Vec<u8> {
    node.as_file().unwrap().get_content()
}

#[test]
fn previous_of_root_node() {
    let TestSetup { forest, root_dir, discrepancy_budget } = setup();

    let forest = forest.put(
        &root_dir.header.get_private_ref(),
        &PrivateNode::Dir(Rc::clone(&root_dir)),
    );

    let past_ratchet = root_dir.header.ratchet.clone();

    let PrivateOpResult { root_dir, forest, .. } = root_dir
        .write(&["file.txt".into()], true, 1_001, b"file".to_vec(), forest)
        .unwrap();

    let PrivateOpResult { root_dir, forest, .. } =
        root_dir.mkdir(&["docs".into()], true, 1_002, forest).unwrap();

    let mut iterator = PrivateNodeOnPathHistory::of(
        root_dir,
        &past_ratchet,
        discrepancy_budget,
        &[],
        true,
        Rc::clone(&forest),
    )
    .unwrap();

    assert!(iterator.get_previous().unwrap().is_some());
    assert!(iterator.get_previous().unwrap().is_some());
    assert!(iterator.get_previous().unwrap().is_none());
}

#[test]
fn previous_of_path() {
    let TestSetup { forest, root_dir, discrepancy_budget } = setup();

    let forest = forest.put(
        &root_dir.header.get_private_ref(),
        &PrivateNode::Dir(Rc::clone(&root_dir)),
    );

    let past_ratchet = root_dir.header.ratchet.clone();

    let path: [String; 2] = ["Docs".into(), "Notes.md".into()];

    let PrivateOpResult { root_dir, forest, .. } =
        root_dir.write(&path, true, 1_001, b"Hi".to_vec(), forest).unwrap();

    let PrivateOpResult { root_dir, forest, .. } =
        root_dir.write(&path, true, 1_002, b"World".to_vec(), forest).unwrap();

    let mut iterator = PrivateNodeOnPathHistory::of(
        root_dir,
        &past_ratchet,
        discrepancy_budget,
        &path,
        true,
        Rc::clone(&forest),
    )
    .unwrap();

    assert_eq!(
        content_of(iterator.get_previous().unwrap().unwrap()),
        b"Hi".to_vec()
    );

    assert!(iterator.get_previous().unwrap().is_none());
}

#[test]
fn previous_of_seeking() {
    let TestSetup { forest, root_dir, discrepancy_budget } = setup();

    let forest = forest.put(
        &root_dir.header.get_private_ref(),
        &PrivateNode::Dir(Rc::clone(&root_dir)),
    );

    let past_ratchet = root_dir.header.ratchet.clone();

    let path: [String; 2] = ["Docs".into(), "Notes.md".into()];

    let PrivateOpResult { root_dir, forest, .. } =
        root_dir.write(&path, true, 1_001, b"Hi".to_vec(), forest).unwrap();

    let PrivateOpResult { root_dir, forest, result: docs_dir } =
        root_dir.get_node(&["Docs".into()], true, forest).unwrap();

    let docs_dir = docs_dir.unwrap().as_dir().unwrap();

    let PrivateOpResult { forest, .. } = docs_dir
        .write(&["Notes.md".into()], true, 1_002, b"World".to_vec(), forest)
        .unwrap();

    let mut iterator = PrivateNodeOnPathHistory::of(
        root_dir,
        &past_ratchet,
        discrepancy_budget,
        &path,
        true,
        Rc::clone(&forest),
    )
    .unwrap();

    assert_eq!(
        content_of(iterator.get_previous().unwrap().unwrap()),
        b"Hi".to_vec()
    );

    assert!(iterator.get_previous().unwrap().is_none());
}

#[test]
fn previous_with_multiple_child_changes() {
    let TestSetup { forest, root_dir, discrepancy_budget } = setup();

    let path: [String; 2] = ["Docs".into(), "Notes.md".into()];

    let PrivateOpResult { root_dir, forest, .. } =
        root_dir.write(&path, true, 1_001, b"rev 0".to_vec(), forest).unwrap();

    let past_ratchet = root_dir.header.ratchet.clone();

    let PrivateOpResult { root_dir, forest, result: docs_dir } =
        root_dir.get_node(&["Docs".into()], true, forest).unwrap();

    let docs_dir = docs_dir.unwrap().as_dir().unwrap();

    let PrivateOpResult { forest, .. } = docs_dir
        .write(&["Notes.md".into()], true, 1_002, b"rev 1".to_vec(), forest)
        .unwrap();

    let PrivateOpResult { root_dir, forest, .. } =
        root_dir.write(&path, true, 1_003, b"rev 2".to_vec(), forest).unwrap();

    let mut iterator = PrivateNodeOnPathHistory::of(
        root_dir,
        &past_ratchet,
        discrepancy_budget,
        &path,
        true,
        Rc::clone(&forest),
    )
    .unwrap();

    assert_eq!(
        content_of(iterator.get_previous().unwrap().unwrap()),
        b"rev 1".to_vec()
    );

    assert_eq!(
        content_of(iterator.get_previous().unwrap().unwrap()),
        b"rev 0".to_vec()
    );

    assert!(iterator.get_previous().unwrap().is_none());
}

#[test]
fn previous_with_unrelated_changes() {
    let TestSetup { forest, root_dir, discrepancy_budget } = setup();

    let path: [String; 2] = ["Docs".into(), "Notes.md".into()];

    let PrivateOpResult { root_dir, forest, .. } =
        root_dir.write(&path, true, 1_001, b"rev 0".to_vec(), forest).unwrap();

    let past_ratchet = root_dir.header.ratchet.clone();

    let root_dir = {
        let mut tmp = root_dir.duplicate();
        tmp.advance_ratchet();
        Rc::new(tmp)
    };

    let forest = forest.put(
        &root_dir.header.get_private_ref(),
        &PrivateNode::Dir(Rc::clone(&root_dir)),
    );

    let PrivateOpResult { root_dir, forest, .. } =
        root_dir.write(&path, true, 1_002, b"rev 1".to_vec(), forest).unwrap();

    assert_eq!(
        ratchet_distance(&past_ratchet, &root_dir.header.ratchet, 100).unwrap(),
        2
    );

    let mut iterator = PrivateNodeOnPathHistory::of(
        root_dir,
        &past_ratchet,
        discrepancy_budget,
        &path,
        true,
        Rc::clone(&forest),
    )
    .unwrap();

    assert_eq!(
        content_of(iterator.get_previous().unwrap().unwrap()),
        b"rev 0".to_vec()
    );

    assert!(iterator.get_previous().unwrap().is_none());
}

#[test]
fn a_root_written_twice_has_one_revision_behind_it() {
    let TestSetup { forest, root_dir, discrepancy_budget } = setup();

    // Nothing files the root as it is made: only the writes do.
    let past_ratchet = root_dir.header.ratchet.clone();

    let PrivateOpResult { root_dir, forest, .. } = root_dir
        .write(&["file.txt".into()], true, 1_001, b"file".to_vec(), forest)
        .unwrap();

    let PrivateOpResult { root_dir, forest, .. } =
        root_dir.mkdir(&["docs".into()], true, 1_002, forest).unwrap();

    let mut iterator = PrivateNodeOnPathHistory::of(
        root_dir,
        &past_ratchet,
        discrepancy_budget,
        &[],
        true,
        Rc::clone(&forest),
    )
    .unwrap();

    let first = iterator.get_previous().unwrap().unwrap().as_dir().unwrap();
    assert!(first.lookup_node("file.txt", false, &forest).is_some());
    assert!(first.lookup_node("docs", false, &forest).is_none());
    assert!(iterator.get_previous().unwrap().is_none());
    assert!(iterator.get_previous().unwrap().is_none());
}
