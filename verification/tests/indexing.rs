use comic_archive::entry::SourceEntry;
use comic_archive::error::ArchiveError;
use comic_archive::index::ArchiveIndex;
use comic_archive::path::ArchivePath;
use comic_archive::tarball::Member;

fn member(path: &str, offset: u64, len: u64) -> Member {
    Member { path: path.as_bytes().to_vec(), offset, len }
}

fn dir(path: &str) -> ArchivePath {
    ArchivePath::parse(&path.as_bytes().to_vec())
}

fn file(path: &str, offset: u64, len: u64) -> SourceEntry {
    SourceEntry { path: dir(path), offset, len }
}

#[test]
fn markers_are_sorted() {
    let members = vec![member("c/z/", 512, 0), member("c/", 1024, 0), member("c/a/", 1536, 0)];
    let index = ArchiveIndex::build(&members).unwrap();
    assert_eq!(index.directories(), &vec![dir("c"), dir("c/a"), dir("c/z")]);
}

#[test]
fn files_go_under_their_directory_in_order() {
    let members = vec![
        member("c/", 512, 0),
        member("c/b.png", 1024, 10),
        member("c/webp/", 2048, 0),
        member("c/webp/a.webp", 2560, 5),
        member("c/a.png", 3584, 20),
    ];
    let index = ArchiveIndex::build(&members).unwrap();
    assert_eq!(index.directories(), &vec![dir("c"), dir("c/webp")]);
    assert_eq!(index.files_in(&dir("c")), Some(&vec![file("c/a.png", 3584, 20), file("c/b.png", 1024, 10)]));
    assert_eq!(index.files_in(&dir("c/webp")), Some(&vec![file("c/webp/a.webp", 2560, 5)]));
    assert_eq!(index.files_in(&dir("x")), None);
    assert_eq!(index.files_in(&dir("")), None);
}

#[test]
fn files_are_listed_without_a_marker_too() {
    let members = vec![member("loose.png", 512, 3)];
    let index = ArchiveIndex::build(&members).unwrap();
    assert_eq!(index.directories(), &Vec::<ArchivePath>::new());
    assert_eq!(index.files_in(&dir("")), Some(&vec![file("loose.png", 512, 3)]));
}

#[test]
fn a_member_of_size_zero_is_a_marker() {
    let members = vec![member("c/empty.png", 512, 0)];
    let index = ArchiveIndex::build(&members).unwrap();
    assert_eq!(index.directories(), &vec![dir("c/empty.png")]);
    assert_eq!(index.files_in(&dir("c")), None);
}

#[test]
fn an_empty_table_gives_an_empty_index() {
    let index = ArchiveIndex::build(&vec![]).unwrap();
    assert_eq!(index.directories(), &Vec::<ArchivePath>::new());
    assert_eq!(index.files_in(&dir("")), None);
}

#[test]
fn a_file_without_a_name_is_malformed() {
    assert_eq!(ArchiveIndex::build(&vec![member("c/", 512, 0), member("", 1024, 4)]).err(), Some(ArchiveError::MalformedArchive));
    assert_eq!(ArchiveIndex::build(&vec![member("//", 512, 1)]).err(), Some(ArchiveError::MalformedArchive));
    assert!(ArchiveIndex::build(&vec![member("", 512, 0)]).is_ok());
}
