use mpkg::PkgError;
use mpkg::archive::{
    create_archive, decode_archive, extract_archive, plan_extraction, ArchiveEntry, ExtractAction,
    FsItem,
};

fn file(path: &[u8], data: &[u8]) -> FsItem {
    FsItem { path: path.to_vec(), is_dir: false, data: data.to_vec() }
}

fn dir(path: &[u8]) -> FsItem {
    FsItem { path: path.to_vec(), is_dir: true, data: Vec::new() }
}

fn root() -> FsItem {
    FsItem { path: Vec::new(), is_dir: true, data: Vec::new() }
}

#[test]
fn create_produces_nonempty_archive() {
    let items = vec![
        root(),
        file(b"file1.txt", b"content1"),
        file(b"file2.txt", b"content2"),
    ];
    let bytes = create_archive(&items).unwrap();
    assert!(!bytes.is_empty(), "ZIP should not be empty");
}

#[test]
fn archive_contains_correct_files() {
    let items = vec![
        root(),
        file(b"file1.txt", b"content1"),
        file(b"file2.txt", b"content2"),
    ];
    let bytes = create_archive(&items).unwrap();
    let entries = decode_archive(&bytes).unwrap();
    assert_eq!(entries.len(), 2, "Should have 2 files");
    assert_eq!(entries[0].name, b"file1.txt".to_vec());
    assert_eq!(entries[0].data, b"content1".to_vec());
    assert_eq!(entries[1].name, b"file2.txt".to_vec());
    assert_eq!(entries[1].data, b"content2".to_vec());
}

#[test]
fn archive_keeps_nested_directories() {
    let items = vec![
        root(),
        file(b"root.txt", b"root"),
        dir(b"subdir"),
        file(b"subdir/sub.txt", b"sub"),
        dir(b"subdir/nested"),
        file(b"subdir/nested/deep.txt", b"deep"),
    ];
    let bytes = create_archive(&items).unwrap();
    let entries = decode_archive(&bytes).unwrap();
    assert_eq!(entries.len(), 5);
    assert_eq!(entries[0].name, b"root.txt".to_vec());
    assert_eq!(entries[1].name, b"subdir/".to_vec());
    assert!(entries[1].data.is_empty());
    assert_eq!(entries[2].name, b"subdir/sub.txt".to_vec());
    assert_eq!(entries[2].data, b"sub".to_vec());
    assert_eq!(entries[3].name, b"subdir/nested/".to_vec());
    assert_eq!(entries[4].name, b"subdir/nested/deep.txt".to_vec());
    assert_eq!(entries[4].data, b"deep".to_vec());
}

#[test]
fn extraction_round_trips_the_tree() {
    let items = vec![
        root(),
        dir(b"src"),
        file(b"src/index.js", b"console.log('hi')"),
        file(b"readme.md", b"hello"),
    ];
    let bytes = create_archive(&items).unwrap();
    let actions = extract_archive(&bytes).unwrap();
    assert_eq!(actions.len(), 3);
    match &actions[0] {
        ExtractAction::MakeDir { path } => assert_eq!(path, &b"src".to_vec()),
        _ => panic!("expected a directory"),
    }
    match &actions[1] {
        ExtractAction::WriteFile { path, data } => {
            assert_eq!(path, &b"src/index.js".to_vec());
            assert_eq!(data, &b"console.log('hi')".to_vec());
        },
        _ => panic!("expected a file"),
    }
    match &actions[2] {
        ExtractAction::WriteFile { path, data } => {
            assert_eq!(path, &b"readme.md".to_vec());
            assert_eq!(data, &b"hello".to_vec());
        },
        _ => panic!("expected a file"),
    }
}

#[test]
fn backslash_separators_are_normalized() {
    let items = vec![root(), dir(b"a"), file(b"a\\b.txt", b"x")];
    let bytes = create_archive(&items).unwrap();
    let entries = decode_archive(&bytes).unwrap();
    assert_eq!(entries[1].name, b"a/b.txt".to_vec());
}

#[test]
fn corrupt_bytes_are_rejected() {
    let bytes = b"this is not an archive".to_vec();
    assert_eq!(decode_archive(&bytes), Err(PkgError::CorruptArchive));
    assert_eq!(extract_archive(&bytes), Err(PkgError::CorruptArchive));
}

#[test]
fn traversal_entries_are_rejected() {
    let entries = vec![ArchiveEntry { name: b"../evil.txt".to_vec(), data: b"x".to_vec() }];
    assert_eq!(plan_extraction(&entries), Err(PkgError::PathTraversal));

    let entries = vec![ArchiveEntry { name: b"/etc/passwd".to_vec(), data: b"x".to_vec() }];
    assert_eq!(plan_extraction(&entries), Err(PkgError::PathTraversal));

    let entries = vec![ArchiveEntry { name: b"ok/../../up".to_vec(), data: b"x".to_vec() }];
    assert_eq!(plan_extraction(&entries), Err(PkgError::PathTraversal));

    let entries = vec![
        ArchiveEntry { name: b"fine.txt".to_vec(), data: b"x".to_vec() },
        ArchiveEntry { name: b"..".to_vec(), data: Vec::new() },
    ];
    assert_eq!(plan_extraction(&entries), Err(PkgError::PathTraversal));

    let entries = vec![ArchiveEntry { name: Vec::new(), data: Vec::new() }];
    assert_eq!(plan_extraction(&entries), Err(PkgError::PathTraversal));
}

#[test]
fn foreign_separator_entries_are_rejected() {
    let entries = vec![ArchiveEntry { name: b"..\\evil.txt".to_vec(), data: b"x".to_vec() }];
    assert_eq!(plan_extraction(&entries), Err(PkgError::PathTraversal));

    let entries = vec![ArchiveEntry { name: b"a\\b.txt".to_vec(), data: b"x".to_vec() }];
    assert_eq!(plan_extraction(&entries), Err(PkgError::PathTraversal));

    let entries = vec![ArchiveEntry { name: b"C:/evil.txt".to_vec(), data: b"x".to_vec() }];
    assert_eq!(plan_extraction(&entries), Err(PkgError::PathTraversal));
}

#[test]
fn overlong_name_fails_as_io_error() {
    let items = vec![file(&vec![b'a'; 70000], b"x")];
    assert_eq!(create_archive(&items), Err(PkgError::IoError));
}

#[test]
fn safe_entries_are_planned() {
    let entries = vec![
        ArchiveEntry { name: b"a/".to_vec(), data: Vec::new() },
        ArchiveEntry { name: b"a/b.txt".to_vec(), data: b"hi".to_vec() },
    ];
    let actions = plan_extraction(&entries).unwrap();
    assert_eq!(actions.len(), 2);
    match &actions[0] {
        ExtractAction::MakeDir { path } => assert_eq!(path, &b"a".to_vec()),
        _ => panic!("expected a directory"),
    }
}

#[test]
fn invalid_name_fails_as_io_error() {
    let items = vec![file(&[0xff, 0xfe], b"x")];
    assert_eq!(create_archive(&items), Err(PkgError::IoError));
}

#[test]
fn file_named_like_a_directory_fails_as_io_error() {
    let items = vec![file(b"bad/", b"x")];
    assert_eq!(create_archive(&items), Err(PkgError::IoError));
}
