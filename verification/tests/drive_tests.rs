use mibox::drive::Drive;
use mibox::entry::Entry;
use mibox::error::DriveError;

fn b(s: &str) -> Vec<u8> {
    s.as_bytes().to_vec()
}

fn names_of(entries: &[Entry]) -> Vec<Vec<u8>> {
    entries.iter().map(|e| e.file_name()).collect()
}

fn new_drive() -> Drive {
    Drive::new(b("/srv/drive"))
}

#[test]
fn create_then_list_shows_the_directory() {
    let mut d = new_drive();
    assert_eq!(d.create_directory(&b("docs")), Ok(()));
    let es = d.entries(&b("")).unwrap();
    assert_eq!(names_of(&es), vec![b("docs")]);
    assert!(es[0].is_directory());
    assert_eq!(
        d.create_directory(&b("docs")),
        Err(DriveError::EntryExists)
    );
}

#[test]
fn create_directory_rejects_bad_paths() {
    let mut d = new_drive();
    assert_eq!(
        d.create_directory(&b("../escape")),
        Err(DriveError::EntryNameInvalid)
    );
    assert_eq!(d.create_directory(&b("")), Err(DriveError::EntryExists));
    assert_eq!(
        d.create_directory(&b("missing/child")),
        Err(DriveError::EntryCreate)
    );
}

#[test]
fn nested_directories_list_their_children() {
    let mut d = new_drive();
    assert_eq!(d.create_directory(&b("a")), Ok(()));
    assert_eq!(d.create_directory(&b("a/b")), Ok(()));
    assert_eq!(d.create_directory(&b("a/c")), Ok(()));
    let es = d.entries(&b("a")).unwrap();
    assert_eq!(names_of(&es), vec![b("b"), b("c")]);
    let top = d.entries(&b("")).unwrap();
    assert_eq!(names_of(&top), vec![b("a")]);
}

#[test]
fn entries_sorts_names_lexicographically() {
    let mut d = new_drive();
    for name in ["delta", "alpha", "charlie", "bravo"] {
        assert_eq!(d.create_directory(&b(name)), Ok(()));
    }
    let es = d.entries(&b("")).unwrap();
    assert_eq!(
        names_of(&es),
        vec![b("alpha"), b("bravo"), b("charlie"), b("delta")]
    );
}

#[test]
fn entries_rejects_files_and_missing_directories() {
    let mut d = new_drive();
    assert_eq!(d.upload(&b("file.txt"), &vec![b("hi")]), Ok(()));
    assert!(matches!(
        d.entries(&b("file.txt")),
        Err(DriveError::EntryUnexpectedType)
    ));
    assert!(matches!(d.entries(&b("nope")), Err(DriveError::EntryNotFound)));
    assert!(matches!(
        d.entries(&b("../x")),
        Err(DriveError::EntryNameInvalid)
    ));
}

#[test]
fn rename_fails_unexpected_type_for_a_file() {
    let mut d = new_drive();
    assert_eq!(d.upload(&b("notes.txt"), &vec![b("n")]), Ok(()));
    assert_eq!(
        d.rename_directory(&b("notes.txt"), &b("notes2")),
        Err(DriveError::EntryUnexpectedType)
    );
}

#[test]
fn rename_fails_when_target_exists() {
    let mut d = new_drive();
    assert_eq!(d.create_directory(&b("a")), Ok(()));
    assert_eq!(d.create_directory(&b("c")), Ok(()));
    assert_eq!(
        d.rename_directory(&b("a"), &b("c")),
        Err(DriveError::EntryExists)
    );
}

#[test]
fn rename_moves_the_whole_subtree() {
    let mut d = new_drive();
    assert_eq!(d.create_directory(&b("old")), Ok(()));
    assert_eq!(d.create_directory(&b("old/sub")), Ok(()));
    assert_eq!(d.upload(&b("old/sub/f.txt"), &vec![b("data")]), Ok(()));
    assert_eq!(d.rename_directory(&b("old"), &b("new")), Ok(()));
    let top = d.entries(&b("")).unwrap();
    assert_eq!(names_of(&top), vec![b("new")]);
    let sub = d.entries(&b("new/sub")).unwrap();
    assert_eq!(names_of(&sub), vec![b("f.txt")]);
    let mut f = d.download(&b("new/sub/f.txt")).unwrap();
    assert_eq!(f.read_all(8), b("data"));
    assert!(matches!(
        d.download(&b("old/sub/f.txt")),
        Err(DriveError::EntryNotFound)
    ));
}

#[test]
fn rename_refuses_moving_beneath_itself() {
    let mut d = new_drive();
    assert_eq!(d.create_directory(&b("a")), Ok(()));
    assert_eq!(
        d.rename_directory(&b("a"), &b("a/b")),
        Err(DriveError::EntryRename)
    );
    assert_eq!(
        d.rename_directory(&b(""), &b("b")),
        Err(DriveError::EntryRename)
    );
    assert_eq!(
        d.rename_directory(&b("a"), &b("missing/b")),
        Err(DriveError::EntryRename)
    );
}

#[test]
fn upload_then_download_roundtrips() {
    let mut d = new_drive();
    let chunks = vec![b("hello, "), b("world"), b("!")];
    assert_eq!(d.upload(&b("greeting.txt"), &chunks), Ok(()));
    let mut f = d.download(&b("greeting.txt")).unwrap();
    assert_eq!(f.read_all(4), b("hello, world!"));
}

#[test]
fn upload_empty_content_roundtrips() {
    let mut d = new_drive();
    assert_eq!(d.upload(&b("empty.bin"), &Vec::new()), Ok(()));
    let mut f = d.download(&b("empty.bin")).unwrap();
    assert_eq!(f.read_all(1024), Vec::<u8>::new());
}

#[test]
fn upload_large_content_roundtrips_in_bounded_chunks() {
    let mut d = new_drive();
    let mut chunks: Vec<Vec<u8>> = Vec::new();
    let mut expected: Vec<u8> = Vec::new();
    for i in 0..2048usize {
        let chunk: Vec<u8> = (0..512usize).map(|j| ((i + j) % 251) as u8).collect();
        expected.extend_from_slice(&chunk);
        chunks.push(chunk);
    }
    assert_eq!(d.upload(&b("big.bin"), &chunks), Ok(()));
    let mut f = d.download(&b("big.bin")).unwrap();
    let mut got: Vec<u8> = Vec::new();
    let mut largest = 0usize;
    while let Some(chunk) = f.next_chunk(4096) {
        assert!(chunk.len() <= 4096);
        largest = largest.max(chunk.len());
        got.extend_from_slice(&chunk);
    }
    assert!(largest <= 4096);
    assert_eq!(got.len(), expected.len());
    assert_eq!(got, expected);
}

#[test]
fn chunked_reads_stop_at_the_end() {
    let mut d = new_drive();
    assert_eq!(d.upload(&b("f.bin"), &vec![b("abcdef")]), Ok(()));
    let mut f = d.download(&b("f.bin")).unwrap();
    assert!(!f.is_exhausted());
    assert_eq!(f.next_chunk(4), Some(b("abcd")));
    assert_eq!(f.next_chunk(4), Some(b("ef")));
    assert!(f.is_exhausted());
    assert_eq!(f.next_chunk(4), None);
}

#[test]
fn upload_overwrites_existing_files() {
    let mut d = new_drive();
    assert_eq!(d.upload(&b("f.txt"), &vec![b("first")]), Ok(()));
    assert_eq!(d.upload(&b("f.txt"), &vec![b("second")]), Ok(()));
    let mut f = d.download(&b("f.txt")).unwrap();
    assert_eq!(f.read_all(64), b("second"));
}

#[test]
fn upload_rejects_bad_targets() {
    let mut d = new_drive();
    assert_eq!(d.create_directory(&b("dir")), Ok(()));
    assert_eq!(
        d.upload(&b("dir"), &vec![b("x")]),
        Err(DriveError::EntryNameInvalid)
    );
    assert_eq!(
        d.upload(&b("missing/f"), &vec![b("x")]),
        Err(DriveError::EntryNameInvalid)
    );
    assert_eq!(
        d.upload(&b("../f"), &vec![b("x")]),
        Err(DriveError::EntryNameInvalid)
    );
    assert_eq!(d.upload(&b(""), &vec![b("x")]), Err(DriveError::EntryNameInvalid));
}

#[test]
fn download_errors_are_typed() {
    let mut d = new_drive();
    assert_eq!(d.create_directory(&b("dir")), Ok(()));
    assert!(matches!(
        d.download(&b("dir")),
        Err(DriveError::EntryUnexpectedType)
    ));
    assert!(matches!(
        d.download(&b("")),
        Err(DriveError::EntryUnexpectedType)
    ));
    assert!(matches!(d.download(&b("nope")), Err(DriveError::EntryNotFound)));
    assert!(matches!(
        d.download(&b("/abs")),
        Err(DriveError::EntryNameInvalid)
    ));
}

#[test]
fn content_type_follows_the_extension() {
    let mut d = new_drive();
    assert_eq!(d.upload(&b("img.png"), &vec![b("bytes")]), Ok(()));
    let f = d.download(&b("img.png")).unwrap();
    assert_eq!(f.content_type(), "image/png");
    assert_eq!(d.upload(&b("odd.zzyzx"), &vec![b("bytes")]), Ok(()));
    let f = d.download(&b("odd.zzyzx")).unwrap();
    assert_eq!(f.content_type(), "text/plain; charset=utf-8");
}

#[test]
fn search_returns_the_first_page_of_matches() {
    let mut d = new_drive();
    for i in 1..=15usize {
        let name = format!("fd{}", i);
        assert_eq!(d.create_directory(&name.as_bytes().to_vec()), Ok(()));
    }
    assert_eq!(d.create_directory(&b("other")), Ok(()));
    let page = d.search(&b("fd"), 0, 10);
    assert_eq!(
        page,
        vec![
            b("fd1"),
            b("fd10"),
            b("fd11"),
            b("fd12"),
            b("fd13"),
            b("fd14"),
            b("fd15"),
            b("fd2"),
            b("fd3"),
            b("fd4"),
        ]
    );
    let rest = d.search(&b("fd"), 1, 10);
    assert_eq!(rest, vec![b("fd5"), b("fd6"), b("fd7"), b("fd8"), b("fd9")]);
}

#[test]
fn list_pages_are_stable_offsets() {
    let mut d = new_drive();
    for name in ["c", "a", "d", "b"] {
        assert_eq!(d.create_directory(&b(name)), Ok(()));
    }
    assert_eq!(d.list(2, 0), vec![b("a"), b("b")]);
    assert_eq!(d.list(2, 2), vec![b("c"), b("d")]);
    assert_eq!(d.list(2, 4), Vec::<Vec<u8>>::new());
}

#[test]
fn listing_twice_is_identical() {
    let mut d = new_drive();
    for name in ["x", "m", "k"] {
        assert_eq!(d.create_directory(&b(name)), Ok(()));
    }
    let first = d.list(50, 0);
    let second = d.list(50, 0);
    assert_eq!(first, second);
    let e1 = names_of(&d.entries(&b("")).unwrap());
    let e2 = names_of(&d.entries(&b("")).unwrap());
    assert_eq!(e1, e2);
}

#[test]
fn remove_absent_fails_not_found() {
    let mut d = new_drive();
    assert_eq!(d.remove(&b("ghost")), Err(DriveError::EntryNotFound));
    assert_eq!(d.remove(&b("")), Err(DriveError::EntryNotFound));
}

#[test]
fn remove_directory_deletes_all_descendants() {
    let mut d = new_drive();
    assert_eq!(d.create_directory(&b("top")), Ok(()));
    assert_eq!(d.create_directory(&b("top/mid")), Ok(()));
    assert_eq!(d.upload(&b("top/mid/leaf.txt"), &vec![b("v")]), Ok(()));
    assert_eq!(d.create_directory(&b("keep")), Ok(()));
    assert_eq!(d.remove(&b("top")), Ok(()));
    let top = d.entries(&b("")).unwrap();
    assert_eq!(names_of(&top), vec![b("keep")]);
    assert!(matches!(
        d.download(&b("top/mid/leaf.txt")),
        Err(DriveError::EntryNotFound)
    ));
}

#[test]
fn remove_also_takes_single_files() {
    let mut d = new_drive();
    assert_eq!(d.upload(&b("f.txt"), &vec![b("v")]), Ok(()));
    assert_eq!(d.remove(&b("f.txt")), Ok(()));
    assert_eq!(d.entries(&b("")).unwrap().len(), 0);
}

#[test]
fn delete_refuses_directories() {
    let mut d = new_drive();
    assert_eq!(d.create_directory(&b("dir")), Ok(()));
    assert_eq!(d.delete(&b("dir")), Err(DriveError::EntryUnexpectedType));
    assert_eq!(d.delete(&b("nope")), Err(DriveError::EntryNotFound));
    assert_eq!(d.upload(&b("f.txt"), &vec![b("v")]), Ok(()));
    assert_eq!(d.delete(&b("f.txt")), Ok(()));
    assert_eq!(d.entries(&b("")).unwrap().len(), 1);
}

#[test]
fn resolver_reports_entries_and_absences() {
    let mut d = new_drive();
    assert_eq!(d.create_directory(&b("dir")), Ok(()));
    assert_eq!(d.upload(&b("dir/f.txt"), &vec![b("v")]), Ok(()));
    let e = d.entry(&b("dir/f.txt")).unwrap();
    assert_eq!(e.name(), &b("f.txt"));
    assert_eq!(e.file_name(), b("f.txt"));
    assert!(!e.is_directory());
    assert_eq!(e.path(), &b("/srv/drive/dir/f.txt"));
    let root = d.entry(&b("")).unwrap();
    assert!(root.is_directory());
    assert_eq!(root.name(), &b("drive"));
    assert!(matches!(d.entry(&b("gone")), Err(DriveError::EntryNotFound)));
    let v = d.entry_valid(&b("dir/f.txt")).unwrap();
    assert_eq!(v.depth(), 2);
    assert!(d.entry_exists(&v).is_ok());
    assert!(matches!(
        d.entry_non_existant(&b("dir/f.txt")),
        Err(DriveError::EntryExists)
    ));
    assert!(d.entry_non_existant(&b("dir/new.txt")).is_ok());
    assert!(d.normalize_path(&b("dir/f.txt")).is_ok());
    assert!(matches!(
        d.normalize_path(&b("gone")),
        Err(DriveError::EntryNotFound)
    ));
}
