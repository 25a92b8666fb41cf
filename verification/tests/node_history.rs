use std::rc::Rc;

use wnfslib::error::FsError;
use wnfslib::private::forest::PrivateForest;
use wnfslib::private::node::{PrivateDirectory, PrivateFile, PrivateNode};
use wnfslib::private::previous::{PrivateNodeHistory, PrivateNodeOnPathHistory};

fn filed(forest: &Rc<PrivateForest>, dir: &Rc<PrivateDirectory>) -> Rc<PrivateForest> {
    forest.put(&dir.header.get_private_ref(), &PrivateNode::Dir(Rc::clone(dir)))
}

fn next_revision(dir: &Rc<PrivateDirectory>, time: i64) -> Rc<PrivateDirectory> {
    let mut next = dir.duplicate();
    next.advance_ratchet();
    next.metadata.upsert_mtime(time);
    Rc::new(next)
}

fn root() -> Rc<PrivateDirectory> {
    Rc::new(PrivateDirectory::with_seed(&[0u8; 32], 100, &[1u8; 32], [2u8; 32]))
}

#[test]
fn a_checkpoint_at_the_current_state_gives_no_more_at_once() {
    let dir = root();
    let forest = filed(&Rc::new(PrivateForest::new()), &dir);
    let mut history = PrivateNodeHistory::of(
        &PrivateNode::Dir(Rc::clone(&dir)),
        &dir.header.ratchet,
        0,
        Rc::clone(&forest),
    )
    .unwrap();
    assert!(history.get_previous_node().unwrap().is_none());
    assert!(history.get_previous_node().unwrap().is_none());

    let mut on_path =
        PrivateNodeOnPathHistory::of(Rc::clone(&dir), &dir.header.ratchet, 5, &[], true, forest)
            .unwrap();
    assert!(on_path.get_previous().unwrap().is_none());
}

#[test]
fn a_node_written_n_times_gives_n_nodes_newest_first() {
    let first = root();
    let mut forest = filed(&Rc::new(PrivateForest::new()), &first);
    let mut current = Rc::clone(&first);
    for time in 101..=104 {
        current = next_revision(&current, time);
        forest = filed(&forest, &current);
    }
    let mut history = PrivateNodeHistory::of(
        &PrivateNode::Dir(Rc::clone(&current)),
        &first.header.ratchet,
        4,
        forest,
    )
    .unwrap();
    let mut times = Vec::new();
    while let Some(dir) = history.get_previous_dir().unwrap() {
        times.push(dir.metadata.modified.unwrap());
    }
    assert_eq!(times, vec![103, 102, 101, 100]);
    assert!(history.get_previous_node().unwrap().is_none());
}

#[test]
fn a_state_that_was_not_written_gives_nothing_and_the_walk_goes_on() {
    let first = root();
    let forest = filed(&Rc::new(PrivateForest::new()), &first);
    let second = next_revision(&first, 101);
    let third = next_revision(&second, 102);
    let forest = filed(&forest, &third);
    let fourth = next_revision(&third, 103);

    let mut history = PrivateNodeHistory::of(
        &PrivateNode::Dir(Rc::clone(&fourth)),
        &first.header.ratchet,
        10,
        forest,
    )
    .unwrap();
    let third_back = history.get_previous_node().unwrap().unwrap();
    assert_eq!(third_back.as_dir().unwrap().metadata.modified, Some(102));
    assert!(history.get_previous_node().unwrap().is_none());
    let first_back = history.get_previous_node().unwrap().unwrap();
    assert_eq!(first_back.as_dir().unwrap().metadata.modified, Some(100));
    assert!(history.get_previous_node().unwrap().is_none());
}

#[test]
fn a_budget_below_the_distance_gives_no_intermediate_ratchet() {
    let first = root();
    let mut current = Rc::clone(&first);
    for time in 101..=103 {
        current = next_revision(&current, time);
    }
    let forest = Rc::new(PrivateForest::new());
    let short = PrivateNodeHistory::of(
        &PrivateNode::Dir(Rc::clone(&current)),
        &first.header.ratchet,
        2,
        Rc::clone(&forest),
    );
    assert_eq!(short.err(), Some(FsError::NoIntermediateRatchet));
    let enough = PrivateNodeHistory::from_header(
        current.header.clone(),
        &first.header.ratchet,
        3,
        Rc::clone(&forest),
    );
    assert!(enough.is_ok());

    let on_path = PrivateNodeOnPathHistory::of(
        Rc::clone(&current),
        &first.header.ratchet,
        2,
        &[],
        false,
        Rc::clone(&forest),
    );
    assert_eq!(on_path.err(), Some(FsError::NoIntermediateRatchet));
    let on_path =
        PrivateNodeOnPathHistory::of(current, &first.header.ratchet, 3, &[], false, forest);
    assert!(on_path.is_ok());
}

#[test]
fn a_file_where_a_directory_is_asked_for_is_an_error() {
    let file = PrivateFile::with_seed(&[0u8; 32], 100, b"x".to_vec(), &[3u8; 32], [4u8; 32]);
    let first = Rc::new(file);
    let forest = Rc::new(PrivateForest::new()).put(
        &first.header.get_private_ref(),
        &PrivateNode::File(Rc::clone(&first)),
    );
    let mut header = first.header.clone();
    header.advance_ratchet();

    let mut history = PrivateNodeHistory::from_header(
        header.clone(),
        &first.header.ratchet,
        5,
        Rc::clone(&forest),
    )
    .unwrap();
    assert_eq!(history.get_previous_dir().err(), Some(FsError::NotADirectory));

    let mut history =
        PrivateNodeHistory::from_header(header, &first.header.ratchet, 5, Rc::clone(&forest))
            .unwrap();
    let back = history.get_previous_file().unwrap().unwrap();
    assert_eq!(back.get_content(), b"x".to_vec());

    let dir = root();
    let forest = filed(&forest, &dir);
    let later = next_revision(&dir, 101);
    let mut history = PrivateNodeHistory::of(
        &PrivateNode::Dir(later),
        &dir.header.ratchet,
        5,
        forest,
    )
    .unwrap();
    assert_eq!(history.get_previous_file().err(), Some(FsError::NotAFile));
}

#[test]
fn a_path_that_is_not_there_cannot_be_walked() {
    let dir = root();
    let forest = filed(&Rc::new(PrivateForest::new()), &dir);
    let missing = PrivateNodeOnPathHistory::of(
        Rc::clone(&dir),
        &dir.header.ratchet,
        5,
        &["Docs".into()],
        true,
        Rc::clone(&forest),
    );
    assert_eq!(missing.err(), Some(FsError::NotFound));
    let missing = PrivateNodeOnPathHistory::of(
        Rc::clone(&dir),
        &dir.header.ratchet,
        5,
        &["Docs".into(), "Notes.md".into()],
        true,
        Rc::clone(&forest),
    );
    assert_eq!(missing.err(), Some(FsError::NotFound));

    let written = dir
        .write(&["Docs".into()], true, 101, b"a file".to_vec(), forest)
        .unwrap();
    let through_file = PrivateNodeOnPathHistory::of(
        Rc::clone(&written.root_dir),
        &written.root_dir.header.ratchet,
        5,
        &["Docs".into(), "Notes.md".into()],
        true,
        written.forest,
    );
    assert_eq!(through_file.err(), Some(FsError::NotADirectory));
}

#[test]
fn writes_to_a_sibling_do_not_show_in_the_history_of_a_file() {
    let dir = root();
    let forest = filed(&Rc::new(PrivateForest::new()), &dir);
    let past = dir.header.ratchet.clone();
    let path: [String; 2] = ["Docs".into(), "Notes.md".into()];

    let first = Rc::clone(&dir).write(&path, true, 101, b"rev 0".to_vec(), Rc::clone(&forest)).unwrap();
    let second = first
        .root_dir
        .write(&path, true, 102, b"rev 1".to_vec(), first.forest)
        .unwrap();

    let mut plain = PrivateNodeOnPathHistory::of(
        Rc::clone(&second.root_dir),
        &past,
        100,
        &path,
        true,
        Rc::clone(&second.forest),
    )
    .unwrap();
    let mut plain_contents = Vec::new();
    while let Some(node) = plain.get_previous().unwrap() {
        plain_contents.push(node.as_file().unwrap().get_content());
    }

    let first = dir.write(&path, true, 101, b"rev 0".to_vec(), forest).unwrap();
    let sibling = first
        .root_dir
        .write(&["Docs".into(), "Other.md".into()], true, 102, b"other".to_vec(), first.forest)
        .unwrap();
    let elsewhere = sibling
        .root_dir
        .mkdir(&["Pictures".into()], true, 103, sibling.forest)
        .unwrap();
    let second = elsewhere
        .root_dir
        .write(&path, true, 104, b"rev 1".to_vec(), elsewhere.forest)
        .unwrap();
    let mut busy = PrivateNodeOnPathHistory::of(
        second.root_dir,
        &past,
        100,
        &path,
        true,
        second.forest,
    )
    .unwrap();
    let mut busy_contents = Vec::new();
    for _ in 0..10 {
        if let Some(node) = busy.get_previous().unwrap() {
            busy_contents.push(node.as_file().unwrap().get_content());
        }
    }

    assert_eq!(plain_contents, vec![b"rev 0".to_vec()]);
    assert_eq!(busy_contents, plain_contents);
}

#[test]
fn a_deep_path_is_rebuilt_from_the_oldest_ancestor_down() {
    let dir = root();
    let forest = filed(&Rc::new(PrivateForest::new()), &dir);
    let path: [String; 3] = ["A".into(), "B".into(), "file".into()];

    let first = dir.write(&path, true, 101, b"rev 0".to_vec(), forest).unwrap();
    let past = first.root_dir.header.ratchet.clone();
    let second = first
        .root_dir
        .write(&path, true, 102, b"rev 1".to_vec(), first.forest)
        .unwrap();
    let third = second
        .root_dir
        .write(&path, true, 103, b"rev 2".to_vec(), second.forest)
        .unwrap();

    let mut history =
        PrivateNodeOnPathHistory::of(third.root_dir, &past, 100, &path, true, third.forest)
            .unwrap();
    let mut contents = Vec::new();
    while let Some(node) = history.get_previous().unwrap() {
        contents.push(node.as_file().unwrap().get_content());
    }
    assert_eq!(contents, vec![b"rev 1".to_vec(), b"rev 0".to_vec()]);
}

fn walk_to_first_none(
    root: Rc<PrivateDirectory>,
    past: &wnfslib::private::ratchet::Ratchet,
    path: &[String],
    forest: Rc<PrivateForest>,
) -> Vec<Vec<u8>> {
    let mut history =
        PrivateNodeOnPathHistory::of(root, past, 100, path, true, forest).unwrap();
    let mut contents = Vec::new();
    while let Some(node) = history.get_previous().unwrap() {
        contents.push(node.as_file().unwrap().get_content());
    }
    contents
}

#[test]
fn a_write_elsewhere_between_two_revisions_adds_nothing_to_the_walk() {
    let path: [String; 2] = ["Docs".into(), "Notes.md".into()];
    let elsewhere: [String; 1] = ["Pictures".into()];

    let start = root().write(&path, true, 101, b"rev 0".to_vec(), Rc::new(PrivateForest::new())).unwrap();
    let past = start.root_dir.header.ratchet.clone();

    // Only the file is written.
    let one = Rc::clone(&start.root_dir)
        .write(&path, true, 102, b"rev 1".to_vec(), Rc::clone(&start.forest))
        .unwrap();
    let two = one.root_dir.write(&path, true, 103, b"rev 2".to_vec(), one.forest).unwrap();
    let plain = walk_to_first_none(two.root_dir, &past, &path, two.forest);
    assert_eq!(plain, vec![b"rev 1".to_vec(), b"rev 0".to_vec()]);

    // The same writes, and one elsewhere before them all.
    let other = Rc::clone(&start.root_dir)
        .mkdir(&elsewhere, true, 102, Rc::clone(&start.forest))
        .unwrap();
    let one = other.root_dir.write(&path, true, 103, b"rev 1".to_vec(), other.forest).unwrap();
    let two = one.root_dir.write(&path, true, 104, b"rev 2".to_vec(), one.forest).unwrap();
    let early = walk_to_first_none(two.root_dir, &past, &path, two.forest);

    // The same writes, and one elsewhere between the last two.
    let one = Rc::clone(&start.root_dir)
        .write(&path, true, 102, b"rev 1".to_vec(), Rc::clone(&start.forest))
        .unwrap();
    let other = one.root_dir.mkdir(&elsewhere, true, 103, one.forest).unwrap();
    let two = other.root_dir.write(&path, true, 104, b"rev 2".to_vec(), other.forest).unwrap();
    let between = walk_to_first_none(two.root_dir, &past, &path, two.forest);

    // Neither walk hands out more, or anything else, than the plain one.
    for busy in [&early, &between] {
        assert!(busy.len() <= plain.len());
        assert_eq!(busy[..], plain[..busy.len()]);
    }
    // One right behind the start adds nothing at all; one further on ends
    // the walk where it stands.
    assert_eq!(early, plain);
    assert_eq!(between, vec![b"rev 1".to_vec()]);
}

#[test]
fn a_write_elsewhere_after_the_last_revision_ends_the_walk_at_once() {
    let path: [String; 2] = ["Docs".into(), "Notes.md".into()];
    let elsewhere: [String; 1] = ["Pictures".into()];

    let start = root().write(&path, true, 101, b"rev 0".to_vec(), Rc::new(PrivateForest::new())).unwrap();
    let past = start.root_dir.header.ratchet.clone();
    let one = start.root_dir.write(&path, true, 102, b"rev 1".to_vec(), start.forest).unwrap();
    let plain = walk_to_first_none(
        Rc::clone(&one.root_dir),
        &past,
        &path,
        Rc::clone(&one.forest),
    );
    assert_eq!(plain, vec![b"rev 0".to_vec()]);

    // The newest revision of the root leads on to the revision of the file
    // that the walk starts from: the first step hands out nothing.
    let other = one.root_dir.mkdir(&elsewhere, true, 103, one.forest).unwrap();
    let late = walk_to_first_none(other.root_dir, &past, &path, other.forest);
    assert_eq!(late, Vec::<Vec<u8>>::new());
}
