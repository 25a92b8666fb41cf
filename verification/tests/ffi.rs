use std::rc::Rc;

use wnfslib::common::metadata::Metadata;
use wnfslib::ffi::ls_output::prepare_ls_output;
use wnfslib::ffi::path::{parse_path, white_space};
use wnfslib::ffi::private_forest::PrivateDirectoryHelper;
use wnfslib::private::forest::PrivateForest;

#[test]
fn private_forest_test_parse_path() {
    let path = "root/test.txt".to_string();
    let out = PrivateDirectoryHelper::parse_path(path);
    assert_eq!(out[0], "root".to_string());
    assert_eq!(out[1], "test.txt".to_string());
}

#[test]
fn private_test_parse_path() {
    let path = "root/test.txt".to_string();
    let out = parse_path(path);
    assert_eq!(out[0], "root".to_string());
    assert_eq!(out[1], "test.txt".to_string());
}

fn std_parse(path: &str) -> Vec<String> {
    path.trim().trim_matches('/').split("/").map(|s| s.to_string()).collect()
}

#[test]
fn a_path_is_split_as_the_standard_library_splits_it() {
    for path in [
        "",
        "/",
        "//",
        "a",
        "/a/",
        "  /root/hello/world.txt/  ",
        "a//b",
        "/ a / b /",
        "\t\n/x/\u{3000}",
        "é/ü/日本",
        " / / ",
        "///a///b///",
        "/ /",
    ] {
        assert_eq!(parse_path(path.to_string()), std_parse(path), "{:?}", path);
    }
    assert_eq!(parse_path(String::new()), vec![String::new()]);
    assert_eq!(parse_path("a//b".to_string()), vec!["a", "", "b"]);
}

#[test]
fn white_space_is_what_the_standard_library_takes_for_it() {
    for code in 0..=0x10ffffu32 {
        if let Some(c) = char::from_u32(code) {
            assert_eq!(white_space(c), c.is_whitespace(), "{:x}", code);
        }
    }
}

#[test]
fn a_listing_has_a_row_for_each_entry_with_both_times() {
    let both = Metadata { created: Some(0), modified: Some(1_700_000_000) };
    let output = prepare_ls_output(vec![
        ("hello".to_string(), both),
        ("no times".to_string(), Metadata { created: None, modified: Some(1) }),
        ("hi".to_string(), Metadata::new(86_400)),
        ("never changed".to_string(), Metadata { created: Some(1), modified: None }),
    ])
    .unwrap();
    let expected = "hello???1970-01-01 00:00:00 UTC???2023-11-14 22:13:20 UTC!!!\
                    hi???1970-01-02 00:00:00 UTC???1970-01-02 00:00:00 UTC!!!";
    assert_eq!(String::from_utf8(output).unwrap(), expected);
    assert_eq!(prepare_ls_output(vec![]), Ok(vec![]));
}

#[test]
fn a_time_that_has_no_date_has_no_row() {
    let output = prepare_ls_output(vec![
        ("a".to_string(), Metadata::new(i64::MAX)),
        ("b".to_string(), Metadata::new(1)),
    ])
    .unwrap();
    assert_eq!(
        String::from_utf8(output).unwrap(),
        "b???1970-01-01 00:00:01 UTC???1970-01-01 00:00:01 UTC!!!"
    );
}

#[test]
fn private_forest_iboverall() {
    let empty_key: Vec<u8> = vec![0; 32];
    let forest = Rc::new(PrivateForest::new());
    let (forest, private_ref) = PrivateDirectoryHelper::init(forest, empty_key.clone(), 1_000);
    let root_dir = PrivateDirectoryHelper::get_root_dir(&forest, &private_ref).unwrap();
    let path: [String; 3] = ["root".into(), "hello".into(), "world.txt".into()];
    let (forest, private_ref) = PrivateDirectoryHelper::write_file(
        forest,
        root_dir,
        &path,
        b"hello, world!".to_vec(),
        0,
        1_001,
    )
    .unwrap();
    let root_dir = PrivateDirectoryHelper::get_root_dir(&forest, &private_ref).unwrap();
    let ls_result = PrivateDirectoryHelper::ls_files(
        Rc::clone(&forest),
        Rc::clone(&root_dir),
        &["root".into()],
    )
    .unwrap();
    assert_eq!(ls_result.len(), 1);
    let (forest, private_ref) = PrivateDirectoryHelper::mkdir(
        forest,
        root_dir,
        &["root".into(), "hi".into()],
        1_002,
    )
    .unwrap();
    let root_dir = PrivateDirectoryHelper::get_root_dir(&forest, &private_ref).unwrap();
    let ls_result = PrivateDirectoryHelper::ls_files(
        Rc::clone(&forest),
        Rc::clone(&root_dir),
        &["root".into()],
    )
    .unwrap();
    assert_eq!(ls_result.get(0).unwrap().0, "hello");
    assert_eq!(ls_result.get(1).unwrap().0, "hi");
    let content =
        PrivateDirectoryHelper::read_file(Rc::clone(&forest), Rc::clone(&root_dir), &path)
            .unwrap();
    assert_eq!(content, b"hello, world!".to_vec());
    let (forest, private_ref) =
        PrivateDirectoryHelper::rm(forest, root_dir, &path).unwrap();
    let root_dir = PrivateDirectoryHelper::get_root_dir(&forest, &private_ref).unwrap();
    let content = PrivateDirectoryHelper::read_file(Rc::clone(&forest), root_dir, &path);
    assert_eq!(content.ok(), None);

    // The key alone leads back to the newest root.
    let found = PrivateDirectoryHelper::get_private_ref(empty_key, &forest).unwrap();
    assert_eq!(found, private_ref);
}

#[test]
fn private_iboverall() {
    let forest = Rc::new(PrivateForest::new());
    let (forest, private_ref) = PrivateDirectoryHelper::init(forest, vec![], 1_000);
    let root_dir = PrivateDirectoryHelper::get_root_dir(&forest, &private_ref).unwrap();
    let path: [String; 3] = ["root".into(), "hello".into(), "world.txt".into()];
    let (forest, private_ref) = PrivateDirectoryHelper::write_file(
        forest,
        root_dir,
        &path,
        b"hello, world!".to_vec(),
        5,
        1_001,
    )
    .unwrap();
    let root_dir = PrivateDirectoryHelper::get_root_dir(&forest, &private_ref).unwrap();
    let (forest, private_ref) = PrivateDirectoryHelper::mkdir(
        forest,
        root_dir,
        &["root".into(), "hi".into()],
        1_002,
    )
    .unwrap();
    let root_dir = PrivateDirectoryHelper::get_root_dir(&forest, &private_ref).unwrap();
    let ls_result = PrivateDirectoryHelper::ls_files(
        Rc::clone(&forest),
        Rc::clone(&root_dir),
        &["root".into()],
    )
    .unwrap();
    assert_eq!(ls_result.get(0).unwrap().0, "hello");
    assert_eq!(ls_result.get(1).unwrap().0, "hi");
    let content =
        PrivateDirectoryHelper::read_file(Rc::clone(&forest), Rc::clone(&root_dir), &path)
            .unwrap();
    assert_eq!(content, b"hello, world!".to_vec());

    let file = Rc::clone(&root_dir)
        .get_node(&path, true, Rc::clone(&forest))
        .unwrap()
        .result
        .unwrap();
    assert_eq!(file.get_metadata().modified, Some(5));
    assert_eq!(PrivateDirectoryHelper::write_time(5, 9), 5);
    assert_eq!(PrivateDirectoryHelper::write_time(0, 9), 9);
    assert_eq!(PrivateDirectoryHelper::write_time(-3, 9), 9);
}

#[test]
fn moving_and_copying_answer_with_the_new_root() {
    let forest = Rc::new(PrivateForest::new());
    let (forest, private_ref) = PrivateDirectoryHelper::init(forest, vec![1, 2, 3], 1_000);
    let root_dir = PrivateDirectoryHelper::get_root_dir(&forest, &private_ref).unwrap();
    let from: [String; 2] = ["a".into(), "file".into()];
    let to: [String; 2] = ["a".into(), "moved".into()];
    let copy: [String; 1] = ["copy".into()];
    let (forest, private_ref) =
        PrivateDirectoryHelper::write_file(forest, root_dir, &from, b"x".to_vec(), 0, 1_001)
            .unwrap();
    let root_dir = PrivateDirectoryHelper::get_root_dir(&forest, &private_ref).unwrap();

    let (forest, private_ref) =
        PrivateDirectoryHelper::cp(forest, root_dir, &from, &copy, 1_002).unwrap();
    let root_dir = PrivateDirectoryHelper::get_root_dir(&forest, &private_ref).unwrap();
    let (forest, private_ref) =
        PrivateDirectoryHelper::mv(forest, root_dir, &from, &to, 1_003).unwrap();
    let root_dir = PrivateDirectoryHelper::get_root_dir(&forest, &private_ref).unwrap();

    let read = |path: &[String]| {
        PrivateDirectoryHelper::read_file(Rc::clone(&forest), Rc::clone(&root_dir), path)
    };
    assert_eq!(read(&to), Ok(b"x".to_vec()));
    assert_eq!(read(&copy), Ok(b"x".to_vec()));
    assert_eq!(read(&from), Err("Cannot find a file or directory".to_string()));

    let taken = PrivateDirectoryHelper::mv(
        Rc::clone(&forest),
        Rc::clone(&root_dir),
        &to,
        &copy,
        1_004,
    );
    assert_eq!(taken.err(), Some("File already exists".to_string()));
    let nowhere = PrivateDirectoryHelper::cp(
        Rc::clone(&forest),
        Rc::clone(&root_dir),
        &from,
        &["other".into()],
        1_004,
    );
    assert_eq!(nowhere.err(), Some("Cannot find a file or directory".to_string()));
    let empty: [String; 0] = [];
    let invalid =
        PrivateDirectoryHelper::mv(Rc::clone(&forest), Rc::clone(&root_dir), &to, &empty, 1);
    assert_eq!(invalid.err(), Some("Invalid WNFS path".to_string()));
}

#[test]
fn a_stream_starts_at_the_block_asked_for() {
    let size = wnfslib::ffi::private_forest::BLOCK_SIZE;
    assert_eq!(size, 262_144);
    let content: Vec<u8> = (0..2 * size + 5).map(|i| (i % 251) as u8).collect();
    let from = |index: usize| wnfslib::ffi::private_forest::content_from_block(&content, index);
    assert_eq!(from(0), content);
    assert_eq!(from(1), content[size..].to_vec());
    assert_eq!(from(2), content[2 * size..].to_vec());
    assert_eq!(from(2).len(), 5);
    assert_eq!(from(3), Vec::<u8>::new());
    assert_eq!(from(usize::MAX), Vec::<u8>::new());

    let forest = Rc::new(PrivateForest::new());
    let (forest, private_ref) = PrivateDirectoryHelper::init(forest, vec![4], 1_000);
    let root_dir = PrivateDirectoryHelper::get_root_dir(&forest, &private_ref).unwrap();
    let path: [String; 2] = ["a".into(), "big".into()];
    let (forest, private_ref) = PrivateDirectoryHelper::write_file(
        forest,
        root_dir,
        &path,
        content.clone(),
        0,
        1_001,
    )
    .unwrap();
    let root_dir = PrivateDirectoryHelper::get_root_dir(&forest, &private_ref).unwrap();
    let stream = |path: &[String], index: usize| {
        PrivateDirectoryHelper::read_filestream(
            Rc::clone(&forest),
            Rc::clone(&root_dir),
            path,
            index,
        )
    };
    assert_eq!(stream(&path, 0), Ok(content.clone()));
    assert_eq!(stream(&path, 2), Ok(content[2 * size..].to_vec()));
    assert_eq!(
        stream(&["a".into()], 0),
        Err("wnfsError occured in read_filestream_to_path on is_file".to_string())
    );
    assert_eq!(
        stream(&["a".into(), "none".into()], 0),
        Err("wnfsError occured in read_filestream_to_path on result".to_string())
    );
    assert_eq!(
        stream(&["none".into(), "x".into()], 0),
        Err("Cannot find a file or directory".to_string())
    );
    assert_eq!(
        stream(&["a".into(), "big".into(), "x".into()], 0),
        Err("Expected a directory".to_string())
    );
}
