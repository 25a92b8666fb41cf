use std::rc::Rc;

use wnfslib::common::cid::Cid;
use wnfslib::common::pathnodes::PathNodesResult;
use wnfslib::error::FsError;
use wnfslib::public::directory::PublicOpResult;
use wnfslib::public::node::{PublicDirectory, PublicFile, PublicNode};

#[test]
fn look_up_can_fetch_file_added_to_directory() {
    let root_dir = Rc::new(PublicDirectory::new(1_000));
    let content_cid = Cid::default();
    let time = 2_000;

    let PublicOpResult { root_dir, .. } = root_dir
        .write(&["text.txt".into()], content_cid.clone(), time)
        .unwrap();

    let node = root_dir.lookup_node("text.txt");

    assert!(node.is_some());

    assert_eq!(
        node,
        Some(PublicNode::File(Rc::new(PublicFile::new(time, content_cid))))
    );
}

#[test]
fn look_up_cannot_fetch_file_not_added_to_directory() {
    let root = PublicDirectory::new(1_000);

    let node = root.lookup_node("Unknown");

    assert_eq!(node, None);
}

#[test]
fn mkdir_can_create_new_directory() {
    let time = 1_000;

    let PublicOpResult { root_dir, .. } = Rc::new(PublicDirectory::new(time))
        .mkdir(&["tamedun".into(), "pictures".into()], time)
        .unwrap();

    let PublicOpResult { result, .. } = root_dir
        .get_node(&["tamedun".into(), "pictures".into()])
        .unwrap();

    assert!(result.is_some());
}

#[test]
fn ls_can_list_children_under_directory() {
    let time = 1_000;
    let root_dir = Rc::new(PublicDirectory::new(time));

    let PublicOpResult { root_dir, .. } = root_dir
        .mkdir(&["tamedun".into(), "pictures".into()], time)
        .unwrap();

    let PublicOpResult { root_dir, .. } = root_dir
        .write(
            &["tamedun".into(), "pictures".into(), "puppy.jpg".into()],
            Cid::default(),
            time,
        )
        .unwrap();

    let PublicOpResult { root_dir, .. } = root_dir
        .mkdir(&["tamedun".into(), "pictures".into(), "cats".into()], time)
        .unwrap();

    let PublicOpResult { result, .. } = root_dir
        .ls(&["tamedun".into(), "pictures".into()])
        .unwrap();

    assert_eq!(result.len(), 2);

    assert_eq!(result[0].0, String::from("cats"));

    assert_eq!(result[1].0, String::from("puppy.jpg"));
}

#[test]
fn rm_can_remove_children_from_directory() {
    let time = 1_000;
    let root_dir = Rc::new(PublicDirectory::new(time));

    let PublicOpResult { root_dir, .. } = root_dir
        .mkdir(&["tamedun".into(), "pictures".into()], time)
        .unwrap();

    let PublicOpResult { root_dir, .. } = root_dir
        .write(
            &["tamedun".into(), "pictures".into(), "puppy.jpg".into()],
            Cid::default(),
            time,
        )
        .unwrap();

    let PublicOpResult { root_dir, .. } = root_dir
        .mkdir(&["tamedun".into(), "pictures".into(), "cats".into()], time)
        .unwrap();

    let result = root_dir.rm(&["tamedun".into(), "pictures".into()]);

    assert!(result.is_ok());

    let result = result
        .unwrap()
        .root_dir
        .rm(&["tamedun".into(), "pictures".into()]);

    assert!(result.is_err());
}

#[test]
fn read_can_fetch_userland_of_file_added_to_directory() {
    let content_cid = Cid::default();
    let time = 1_000;

    let PublicOpResult { root_dir, .. } = Rc::new(PublicDirectory::new(time))
        .write(&["text.txt".into()], content_cid.clone(), time)
        .unwrap();

    let PublicOpResult { result, .. } = root_dir.read(&["text.txt".into()]).unwrap();

    assert_eq!(result, content_cid);
}

#[test]
fn path_nodes_can_generates_new_path_nodes() {
    let now = 1_000;

    let path_nodes =
        PublicDirectory::create_path_nodes(&["Documents".into(), "Apps".into()], now);
    let names: Vec<String> = path_nodes.path.iter().map(|(_, name)| name.clone()).collect();

    let fixed = PublicDirectory::fix_up_path_nodes(path_nodes);
    let result = fixed.get_path_nodes(&["Documents".into(), "Apps".into()]);

    match result {
        PathNodesResult::MissingLink(_, segment) => panic!("MissingLink {segment}"),
        PathNodesResult::NotADirectory(_, segment) => panic!("NotADirectory {segment}"),
        PathNodesResult::Complete(path_nodes_2) => {
            assert_eq!(names.len(), path_nodes_2.path.len());
            assert_eq!(names[0], path_nodes_2.path[0].1);
            assert_eq!(names[1], path_nodes_2.path[1].1);
        }
    }
}

#[test]
fn mv_can_move_sub_directory_to_another_valid_location() {
    let time = 1_000;
    let root_dir = Rc::new(PublicDirectory::new(time));

    let PublicOpResult { root_dir, .. } = root_dir
        .write(
            &["pictures".into(), "cats".into(), "tabby.jpg".into()],
            Cid::default(),
            time,
        )
        .unwrap();

    let PublicOpResult { root_dir, .. } = root_dir
        .write(
            &["pictures".into(), "cats".into(), "luna.png".into()],
            Cid::default(),
            time,
        )
        .unwrap();

    let PublicOpResult { root_dir, .. } = root_dir.mkdir(&["images".into()], time).unwrap();

    let PublicOpResult { root_dir, .. } = root_dir
        .basic_mv(
            &["pictures".into(), "cats".into()],
            &["images".into(), "cats".into()],
            2_000,
        )
        .unwrap();

    let PublicOpResult { root_dir, result } = root_dir.ls(&["images".into()]).unwrap();

    assert_eq!(result.len(), 1);
    assert_eq!(result[0].0, String::from("cats"));

    let PublicOpResult { result, .. } = root_dir.ls(&["pictures".into()]).unwrap();

    assert_eq!(result.len(), 0);
}

#[test]
fn mv_cannot_move_sub_directory_to_invalid_location() {
    let time = 1_000;
    let root_dir = Rc::new(PublicDirectory::new(time));

    let PublicOpResult { root_dir, .. } = root_dir
        .mkdir(
            &[
                "videos".into(),
                "movies".into(),
                "anime".into(),
                "ghibli".into(),
            ],
            time,
        )
        .unwrap();

    let result = root_dir.basic_mv(
        &["videos".into(), "movies".into()],
        &["videos".into(), "movies".into(), "anime".into()],
        2_000,
    );

    assert!(result.is_err());
}

#[test]
fn mv_can_rename_directories() {
    let time = 1_000;
    let root_dir = Rc::new(PublicDirectory::new(time));

    let PublicOpResult { root_dir, .. } = root_dir
        .write(&["file.txt".into()], Cid::default(), time)
        .unwrap();

    let PublicOpResult { root_dir, .. } = root_dir
        .basic_mv(&["file.txt".into()], &["renamed.txt".into()], 2_000)
        .unwrap();

    let PublicOpResult { result, .. } = root_dir.read(&["renamed.txt".into()]).unwrap();

    assert!(result == Cid::default());
}

#[test]
fn mv_fails_moving_directories_to_files() {
    let time = 1_000;
    let root_dir = Rc::new(PublicDirectory::new(time));

    let PublicOpResult { root_dir, .. } = root_dir
        .mkdir(&["movies".into(), "ghibli".into()], time)
        .unwrap();

    let PublicOpResult { root_dir, .. } = root_dir
        .write(&["file.txt".into()], Cid::default(), time)
        .unwrap();

    let result = root_dir.basic_mv(
        &["movies".into(), "ghibli".into()],
        &["file.txt".into()],
        2_000,
    );

    assert!(result.is_err());
}

#[test]
fn write_keeps_the_old_tree_and_shares_what_it_did_not_touch() {
    let root = Rc::new(PublicDirectory::new(1_000));
    let PublicOpResult { root_dir: before, .. } = root
        .write(&["Docs".into(), "a.txt".into()], Cid::default(), 1_000)
        .unwrap();
    let PublicOpResult { root_dir: before, .. } =
        before.mkdir(&["Pictures".into(), "cats".into()], 1_001).unwrap();

    let other = Cid::try_from_bytes(vec![1, 0x55, 0, 0]).unwrap();
    let PublicOpResult { root_dir: after, .. } = Rc::clone(&before)
        .write(&["Docs".into(), "a.txt".into()], other.clone(), 1_002)
        .unwrap();

    // The old tree reads as before.
    let old = Rc::clone(&before)
        .read(&["Docs".into(), "a.txt".into()])
        .unwrap()
        .result;
    assert_eq!(old, Cid::default());
    let new = Rc::clone(&after)
        .read(&["Docs".into(), "a.txt".into()])
        .unwrap()
        .result;
    assert_eq!(new, other);

    // The sibling is the very same node in both trees.
    let old_pictures = before.lookup_node("Pictures").unwrap().as_dir().unwrap();
    let new_pictures = after.lookup_node("Pictures").unwrap().as_dir().unwrap();
    assert!(Rc::ptr_eq(&old_pictures, &new_pictures));

    // The directory on the way is a copy.
    let old_docs = before.lookup_node("Docs").unwrap().as_dir().unwrap();
    let new_docs = after.lookup_node("Docs").unwrap().as_dir().unwrap();
    assert!(!Rc::ptr_eq(&old_docs, &new_docs));
}

#[test]
fn write_keeps_the_time_of_making() {
    let root = Rc::new(PublicDirectory::new(1_000));
    let PublicOpResult { root_dir, .. } =
        root.write(&["a.txt".into()], Cid::default(), 1_000).unwrap();
    let PublicOpResult { root_dir, .. } =
        root_dir.write(&["a.txt".into()], Cid::default(), 2_000).unwrap();
    let file = root_dir.lookup_node("a.txt").unwrap().as_file().unwrap();
    assert_eq!(file.metadata.created, Some(1_000));
    assert_eq!(file.metadata.modified, Some(2_000));
}

#[test]
fn public_errors_come_with_their_inputs() {
    let root = Rc::new(PublicDirectory::new(1_000));
    let PublicOpResult { root_dir, .. } = root
        .write(&["Docs".into(), "a.txt".into()], Cid::default(), 1_000)
        .unwrap();

    let empty: [String; 0] = [];
    assert_eq!(
        Rc::clone(&root_dir).write(&empty, Cid::default(), 1).unwrap_err(),
        FsError::InvalidPath
    );
    assert_eq!(
        Rc::clone(&root_dir)
            .write(&["Docs".into(), "a.txt".into(), "b".into()], Cid::default(), 1)
            .unwrap_err(),
        FsError::NotADirectory
    );
    assert_eq!(
        Rc::clone(&root_dir).write(&["Docs".into()], Cid::default(), 1).unwrap_err(),
        FsError::DirectoryAlreadyExists
    );
    assert_eq!(
        Rc::clone(&root_dir).read(&["Docs".into()]).unwrap_err(),
        FsError::NotAFile
    );
    assert_eq!(
        Rc::clone(&root_dir).read(&["Docs".into(), "none".into()]).unwrap_err(),
        FsError::NotFound
    );
    assert_eq!(
        Rc::clone(&root_dir).read(&empty).unwrap_err(),
        FsError::InvalidPath
    );
    assert_eq!(
        Rc::clone(&root_dir).ls(&["Nowhere".into()]).unwrap_err(),
        FsError::NotFound
    );
    assert_eq!(
        Rc::clone(&root_dir).rm(&["Nowhere".into()]).unwrap_err(),
        FsError::NotFound
    );
    assert_eq!(
        Rc::clone(&root_dir)
            .get_node(&["Docs".into(), "a.txt".into(), "b".into()])
            .unwrap_err(),
        FsError::NotADirectory
    );
    assert_eq!(
        Rc::clone(&root_dir)
            .get_node(&["Docs".into(), "none".into(), "b".into()])
            .unwrap_err(),
        FsError::NotFound
    );
    assert_eq!(
        Rc::clone(&root_dir)
            .basic_mv(&["Docs".into(), "a.txt".into()], &["Docs".into()], 1)
            .unwrap_err(),
        FsError::FileAlreadyExists
    );
    assert_eq!(
        Rc::clone(&root_dir)
            .mkdir(&["Docs".into(), "a.txt".into(), "b".into()], 1)
            .unwrap_err(),
        FsError::NotADirectory
    );
}

#[test]
fn path_resolution_says_where_the_way_ended() {
    let root = Rc::new(PublicDirectory::new(1_000));
    let PublicOpResult { root_dir, .. } = root
        .write(&["Docs".into(), "a.txt".into()], Cid::default(), 1_000)
        .unwrap();

    match Rc::clone(&root_dir).get_path_nodes(&["Docs".into(), "Deep".into(), "x".into()]) {
        PathNodesResult::MissingLink(nodes, segment) => {
            assert_eq!(nodes.path.len(), 1);
            assert_eq!(nodes.path[0].1, "Docs");
            assert_eq!(segment, "Deep");
        }
        other => panic!("{:?}", other),
    }
    match Rc::clone(&root_dir).get_path_nodes(&["Docs".into(), "a.txt".into(), "x".into()]) {
        PathNodesResult::NotADirectory(nodes, segment) => {
            assert_eq!(nodes.path.len(), 1);
            assert_eq!(segment, "a.txt");
        }
        other => panic!("{:?}", other),
    }
    match Rc::clone(&root_dir).get_path_nodes(&["Docs".into()]) {
        PathNodesResult::Complete(nodes) => {
            assert_eq!(nodes.path.len(), 1);
            assert!(nodes.tail.lookup_node("a.txt").is_some());
        }
        other => panic!("{:?}", other),
    }
}

#[test]
fn a_file_in_the_way_is_not_a_directory() {
    let root = Rc::new(PublicDirectory::new(1_000));
    let PublicOpResult { root_dir, .. } = root
        .write(&["Docs".into(), "a.txt".into()], Cid::default(), 1_000)
        .unwrap();
    let through: [String; 3] = ["Docs".into(), "a.txt".into(), "b".into()];
    let at_file: [String; 2] = ["Docs".into(), "a.txt".into()];
    let missing: [String; 3] = ["Docs".into(), "none".into(), "b".into()];

    assert_eq!(Rc::clone(&root_dir).read(&through).unwrap_err(), FsError::NotADirectory);
    assert_eq!(Rc::clone(&root_dir).read(&missing).unwrap_err(), FsError::NotFound);
    assert_eq!(Rc::clone(&root_dir).ls(&at_file).unwrap_err(), FsError::NotADirectory);
    assert_eq!(Rc::clone(&root_dir).ls(&through).unwrap_err(), FsError::NotADirectory);
    assert_eq!(Rc::clone(&root_dir).ls(&missing).unwrap_err(), FsError::NotFound);
    assert_eq!(Rc::clone(&root_dir).rm(&through).unwrap_err(), FsError::NotADirectory);
    assert_eq!(Rc::clone(&root_dir).rm(&missing).unwrap_err(), FsError::NotFound);
    assert_eq!(
        Rc::clone(&root_dir).basic_mv(&through, &["x".into()], 1).unwrap_err(),
        FsError::NotADirectory
    );
    assert_eq!(
        Rc::clone(&root_dir).basic_mv(&at_file, &through, 1).unwrap_err(),
        FsError::NotFound
    );
    // The tree is as it was.
    assert_eq!(Rc::clone(&root_dir).read(&at_file).unwrap().result, Cid::default());
}

#[test]
fn a_listing_ascends_by_name_whatever_the_order_of_the_writes() {
    let root = Rc::new(PublicDirectory::new(1_000));
    let mut root_dir = root;
    for name in ["puppy.jpg", "zebra", "cats", "Apple", "b", "a", "\u{e9}t\u{e9}"] {
        root_dir = root_dir.write(&[name.to_string()], Cid::default(), 1).unwrap().root_dir;
    }
    let rows = root_dir.ls(&[]).unwrap().result;
    let names: Vec<&str> = rows.iter().map(|(name, _)| name.as_str()).collect();
    assert_eq!(names, vec!["Apple", "a", "b", "cats", "puppy.jpg", "zebra", "\u{e9}t\u{e9}"]);
}
