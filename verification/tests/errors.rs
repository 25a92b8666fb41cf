use std::rc::Rc;

use wnfslib::error::FsError;
use wnfslib::private::forest::PrivateForest;
use wnfslib::private::node::{PrivateDirectory, PrivateNode};

#[test]
fn every_failure_has_its_words() {
    let all = [
        (FsError::InvalidPath, "Invalid WNFS path"),
        (FsError::NotFound, "Cannot find a file or directory"),
        (FsError::NotADirectory, "Expected a directory"),
        (FsError::NotAFile, "Expected a file"),
        (FsError::DirectoryAlreadyExists, "Directory already exists"),
        (FsError::FileAlreadyExists, "File already exists"),
        (FsError::NoIntermediateRatchet, "Cannot find an intermediate ratchet"),
        (FsError::CIDNotFoundInBlockstore, "Cannot find the CID in the block store"),
        (FsError::InvalidCid, "Invalid content address"),
    ];
    for (error, words) in all {
        assert_eq!(error.message(), words);
    }
}

fn tree() -> (Rc<PrivateDirectory>, Rc<PrivateForest>) {
    let root = Rc::new(PrivateDirectory::with_seed(&[0u8; 32], 1, &[1u8; 32], [2u8; 32]));
    let forest = Rc::new(PrivateForest::new());
    let written = root
        .write(&["Docs".into(), "a.txt".into()], true, 2, b"a".to_vec(), forest)
        .unwrap();
    (written.root_dir, written.forest)
}

#[test]
fn private_errors_come_with_their_inputs() {
    let (root, forest) = tree();
    let empty: [String; 0] = [];
    let file: [String; 2] = ["Docs".into(), "a.txt".into()];
    let below_file: [String; 3] = ["Docs".into(), "a.txt".into(), "b".into()];
    let docs: [String; 1] = ["Docs".into()];
    let nowhere: [String; 2] = ["Nowhere".into(), "x".into()];
    let write = |path: &[String]| {
        Rc::clone(&root).write(path, true, 3, b"b".to_vec(), Rc::clone(&forest)).err()
    };
    assert_eq!(write(&empty), Some(FsError::InvalidPath));
    assert_eq!(write(&below_file), Some(FsError::NotADirectory));
    assert_eq!(write(&docs), Some(FsError::DirectoryAlreadyExists));
    assert_eq!(write(&file), None);
    assert_eq!(write(&nowhere), None);

    let read = |path: &[String]| Rc::clone(&root).read(path, true, Rc::clone(&forest));
    assert_eq!(read(&file).unwrap().result, b"a".to_vec());
    assert_eq!(read(&empty).err(), Some(FsError::InvalidPath));
    assert_eq!(read(&docs).err(), Some(FsError::NotAFile));
    assert_eq!(read(&nowhere).err(), Some(FsError::NotFound));
    assert_eq!(read(&below_file).err(), Some(FsError::NotADirectory));

    let mkdir = |path: &[String]| Rc::clone(&root).mkdir(path, true, 3, Rc::clone(&forest)).err();
    assert_eq!(mkdir(&below_file), Some(FsError::NotADirectory));
    assert_eq!(mkdir(&nowhere), None);

    let rm = |path: &[String]| Rc::clone(&root).rm(path, true, Rc::clone(&forest)).err();
    assert_eq!(rm(&empty), Some(FsError::InvalidPath));
    assert_eq!(rm(&nowhere), Some(FsError::NotFound));
    assert_eq!(rm(&below_file), Some(FsError::NotADirectory));
    assert_eq!(rm(&file), None);

    let ls = |path: &[String]| Rc::clone(&root).ls(path, true, Rc::clone(&forest));
    assert_eq!(ls(&docs).unwrap().result.len(), 1);
    assert_eq!(ls(&docs).unwrap().result[0].0, "a.txt");
    assert_eq!(ls(&nowhere).err(), Some(FsError::NotFound));
    assert_eq!(ls(&file).err(), Some(FsError::NotADirectory));

    let get = |path: &[String]| Rc::clone(&root).get_node(path, true, Rc::clone(&forest));
    assert!(matches!(get(&empty).unwrap().result, Some(PrivateNode::Dir(_))));
    assert!(matches!(get(&file).unwrap().result, Some(PrivateNode::File(_))));
    assert!(get(&["Other".into()]).unwrap().result.is_none());
    assert_eq!(get(&nowhere).err(), Some(FsError::NotFound));
    assert_eq!(get(&below_file).err(), Some(FsError::NotADirectory));

    let mv = |from: &[String], to: &[String]| {
        Rc::clone(&root).basic_mv(from, to, true, 3, Rc::clone(&forest)).err()
    };
    assert_eq!(mv(&file, &empty), Some(FsError::InvalidPath));
    assert_eq!(mv(&empty, &file), Some(FsError::InvalidPath));
    assert_eq!(mv(&nowhere, &["x".into()]), Some(FsError::NotFound));
    assert_eq!(mv(&file, &docs), Some(FsError::FileAlreadyExists));
    assert_eq!(mv(&file, &nowhere), Some(FsError::NotFound));
    assert_eq!(mv(&file, &["moved".into()]), None);

    let cp = |from: &[String], to: &[String]| {
        Rc::clone(&root).cp(from, to, true, 3, Rc::clone(&forest)).err()
    };
    assert_eq!(cp(&nowhere, &["x".into()]), Some(FsError::NotFound));
    assert_eq!(cp(&below_file, &["x".into()]), Some(FsError::NotADirectory));
    assert_eq!(cp(&file, &below_file), Some(FsError::NotADirectory));
    assert_eq!(cp(&file, &docs), Some(FsError::FileAlreadyExists));
    assert_eq!(cp(&file, &["copy".into()]), None);
}

#[test]
fn a_write_leaves_the_old_private_tree_as_it_was() {
    let (root, forest) = tree();
    let path: [String; 2] = ["Docs".into(), "a.txt".into()];
    let after = Rc::clone(&root)
        .write(&path, true, 3, b"changed".to_vec(), Rc::clone(&forest))
        .unwrap();
    let old = Rc::clone(&root).read(&path, false, Rc::clone(&forest)).unwrap().result;
    let new = Rc::clone(&after.root_dir).read(&path, false, Rc::clone(&after.forest)).unwrap().result;
    assert_eq!(old, b"a".to_vec());
    assert_eq!(new, b"changed".to_vec());
    // The old root still leads to the old content even in the new forest,
    // and to the new content once the newest revisions are asked for.
    let old_in_new = Rc::clone(&root).read(&path, false, Rc::clone(&after.forest)).unwrap().result;
    let latest = root.read(&path, true, after.forest).unwrap().result;
    assert_eq!(old_in_new, b"a".to_vec());
    assert_eq!(latest, b"changed".to_vec());
}
