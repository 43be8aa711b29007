use comic_archive::args::Args;
use comic_archive::builder::LoadedFile;
use comic_archive::error::ArchiveError;
use comic_archive::item::{Item, ItemInput, PathKind};
use comic_archive::path::ArchivePath;
use comic_archive::processor::{commit, create_tarball, repair_tarball, Outcome};
use comic_archive::repair::repair;

fn run_args(output: Option<&str>, force: bool) -> Args {
    Args { paths: vec![], output: output.map(|s| s.to_string()), force }
}

fn one_file() -> Vec<LoadedFile> {
    vec![LoadedFile { target: ArchivePath::parse(&b"comic/1.png".to_vec()), data: b"one".to_vec(), mtime: 5 }]
}

fn small_archive() -> Vec<u8> {
    let mut builder = tar::Builder::new(Vec::new());
    let mut header = tar::Header::new_gnu();
    header.set_entry_type(tar::EntryType::Directory);
    header.set_size(0);
    builder.append_data(&mut header, "c/", std::io::empty()).unwrap();
    let mut header = tar::Header::new_gnu();
    header.set_size(3);
    builder.append_data(&mut header, "c/a.png", &b"abc"[..]).unwrap();
    builder.into_inner().unwrap()
}

#[test]
fn names_that_end_in_cbz() {
    assert!(Item::names_archive("a.cbz"));
    assert!(Item::names_archive(".cbz"));
    assert!(Item::names_archive("dir/\u{e9}t\u{e9}.cbz"));
    assert!(!Item::names_archive("cbz"));
    assert!(!Item::names_archive("a.CBZ"));
    assert!(!Item::names_archive("a.cbz "));
    assert!(!Item::names_archive("a.cb"));
    assert!(!Item::names_archive(""));
}

#[test]
fn paths_are_classified() {
    assert_eq!(Item::classify("a.cbz", PathKind::File), Some(Item::Tarball("a.cbz".to_string())));
    assert_eq!(Item::classify("a.zip", PathKind::File), None);
    assert_eq!(Item::classify("dir", PathKind::Directory), Some(Item::Directory("dir".to_string())));
    assert_eq!(Item::classify("dir.cbz", PathKind::Directory), Some(Item::Directory("dir.cbz".to_string())));
    assert_eq!(Item::classify("a.cbz", PathKind::Other), None);
    assert_eq!(Item::classify("dir", PathKind::Other), None);
}

#[test]
fn an_existing_destination_is_kept_unless_forced() {
    let args = run_args(None, false);
    let context = args.as_processing_context();
    assert_eq!(commit(&context, "dir", true, vec![1, 2, 3]), Err(ArchiveError::DestinationExists));
    assert_eq!(commit(&context, "dir", false, vec![1, 2, 3]), Ok(Outcome::Written { path: "dir.cbz".to_string(), bytes: vec![1, 2, 3] }));
    let args = run_args(None, true);
    let context = args.as_processing_context();
    assert_eq!(commit(&context, "dir", true, vec![1, 2, 3]), Ok(Outcome::Written { path: "dir.cbz".to_string(), bytes: vec![1, 2, 3] }));
    assert_eq!(commit(&context, "dir", false, vec![1, 2, 3]), Ok(Outcome::Written { path: "dir.cbz".to_string(), bytes: vec![1, 2, 3] }));
}

#[test]
fn an_input_without_a_name_has_no_destination() {
    let args = run_args(Some("out"), true);
    let context = args.as_processing_context();
    assert_eq!(commit(&context, "..", false, vec![1]), Err(ArchiveError::NoDestination));
    assert_eq!(repair_tarball(&context, "..", &small_archive(), 1, false), Err(ArchiveError::NoDestination));
}

#[test]
fn a_directory_is_packed_for_its_destination() {
    let args = run_args(Some("out"), false);
    let context = args.as_processing_context();
    let outcome = create_tarball(&context, "in/comic", &one_file(), false).unwrap();
    match outcome {
        Outcome::Written { path, bytes } => {
            assert_eq!(path, "out/comic.cbz");
            assert_eq!(bytes.len(), 512 + 512 + 1024);
            assert_eq!(&bytes[..11], b"comic/1.png");
            assert_eq!(&bytes[512..515], b"one");
        }
        Outcome::Skipped => panic!("nothing was written"),
    }
    assert_eq!(create_tarball(&context, "in/comic", &one_file(), true), Err(ArchiveError::DestinationExists));
}

#[test]
fn an_empty_directory_is_skipped() {
    let args = run_args(Some("out"), false);
    let context = args.as_processing_context();
    assert_eq!(create_tarball(&context, "in/comic", &vec![], false), Ok(Outcome::Skipped));
    assert_eq!(create_tarball(&context, "in/comic", &vec![], true), Ok(Outcome::Skipped));
    assert_eq!(create_tarball(&context, "..", &vec![], true), Ok(Outcome::Skipped));
}

#[test]
fn an_archive_is_rebuilt_for_its_destination() {
    let args = run_args(None, false);
    let context = args.as_processing_context();
    let source = small_archive();
    assert_eq!(
        repair_tarball(&context, "a/x.cbz", &source, 7, false),
        Ok(Outcome::Written { path: "a/x.cbz".to_string(), bytes: repair(&source, 7).unwrap() })
    );
    assert_eq!(repair_tarball(&context, "a/x.cbz", &source, 7, true), Err(ArchiveError::DestinationExists));
    let args = run_args(None, true);
    let context = args.as_processing_context();
    assert_eq!(
        repair_tarball(&context, "a/x.cbz", &source, 7, true),
        Ok(Outcome::Written { path: "a/x.cbz".to_string(), bytes: repair(&source, 7).unwrap() })
    );
}

#[test]
fn a_broken_archive_fails_before_the_guard() {
    let args = run_args(None, false);
    let context = args.as_processing_context();
    assert_eq!(repair_tarball(&context, "x.cbz", &vec![0x41u8; 512], 7, true), Err(ArchiveError::MalformedArchive));
}

#[test]
fn process_routes_by_the_kind_of_item() {
    let args = run_args(None, true);
    let context = args.as_processing_context();
    let source = small_archive();
    let directory = Item::Directory("comic".to_string());
    let tarball = Item::Tarball("x.cbz".to_string());
    assert_eq!(
        directory.process(&context, &ItemInput::Files(one_file()), 1, false),
        create_tarball(&context, "comic", &one_file(), false)
    );
    assert_eq!(
        tarball.process(&context, &ItemInput::Archive(source.clone()), 9, true),
        repair_tarball(&context, "x.cbz", &source, 9, true)
    );
    assert_eq!(directory.process(&context, &ItemInput::Files(vec![]), 1, false), Ok(Outcome::Skipped));
}

#[test]
fn an_input_of_the_wrong_kind_is_unreadable() {
    let args = run_args(None, true);
    let context = args.as_processing_context();
    let directory = Item::Directory("comic".to_string());
    let tarball = Item::Tarball("x.cbz".to_string());
    assert_eq!(directory.process(&context, &ItemInput::Archive(small_archive()), 1, false), Err(ArchiveError::Unreadable));
    assert_eq!(tarball.process(&context, &ItemInput::Files(one_file()), 1, false), Err(ArchiveError::Unreadable));
}

#[test]
fn errors_say_what_went_wrong() {
    assert_eq!(ArchiveError::MalformedArchive.message(), "malformed archive");
    assert_eq!(ArchiveError::Unreadable.message(), "unreadable file");
    assert_eq!(ArchiveError::Unwritable.message(), "archive cannot be written");
    assert_eq!(ArchiveError::DestinationExists.message(), "intended path exists");
    assert_eq!(ArchiveError::NoDestination.message(), "must not be root directory");
}

#[test]
fn a_report_remembers_a_failure() {
    let mut report = comic_archive::item::Report::new();
    assert_eq!(report.exit_status(), 0);
    report.record(&Ok(Outcome::Skipped));
    assert_eq!(report.exit_status(), 0);
    report.record(&Err(ArchiveError::DestinationExists));
    assert_eq!(report.exit_status(), 1);
    report.record(&Ok(Outcome::Written { path: "x.cbz".to_string(), bytes: vec![] }));
    assert!(report.failed);
    assert_eq!(report.exit_status(), 1);
}
