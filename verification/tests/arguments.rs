use comic_archive::args::Args;
use comic_archive::error::ArchiveError;
use comic_archive::item::{Item, PathKind};
use std::path::Path;

fn args_with(output: Option<&str>, force: bool) -> Args {
    Args { paths: vec![], output: output.map(|s| s.to_string()), force }
}

fn placed(output: Option<&str>, path: &str) -> Option<String> {
    args_with(output, false).as_processing_context().find_output_path(path)
}

#[test]
fn the_context_carries_force_and_target() {
    let args = args_with(Some("out"), true);
    let context = args.as_processing_context();
    assert!(context.force);
    assert_eq!(context.target, Some("out"));
    let args = args_with(None, false);
    let context = args.as_processing_context();
    assert!(!context.force);
    assert_eq!(context.target, None);
}

#[test]
fn a_directory_goes_beside_itself() {
    assert_eq!(placed(None, "dir"), Some("dir.cbz".to_string()));
    assert_eq!(placed(None, "a/b/dir"), Some("a/b/dir.cbz".to_string()));
    assert_eq!(placed(None, "dir/"), Some("dir.cbz".to_string()));
}

#[test]
fn an_archive_goes_onto_itself() {
    assert_eq!(placed(None, "x.cbz"), Some("x.cbz".to_string()));
    assert_eq!(placed(None, "a/b/x.cbz"), Some("a/b/x.cbz".to_string()));
}

#[test]
fn another_extension_is_replaced() {
    assert_eq!(placed(None, "my.comic"), Some("my.cbz".to_string()));
    assert_eq!(placed(Some("out"), "a/my.comic"), Some("out/my.cbz".to_string()));
}

#[test]
fn a_last_component_cbz_gets_the_extension_too() {
    assert_eq!(placed(None, "cbz"), Some("cbz.cbz".to_string()));
    assert_eq!(placed(None, "a/cbz"), Some("a/cbz.cbz".to_string()));
    assert_eq!(placed(Some("out"), "a/cbz"), Some("out/cbz.cbz".to_string()));
}

#[test]
fn every_destination_has_the_archive_extension() {
    for target in [None, Some("out"), Some("/abs/out/")] {
        for path in ["dir", "x.cbz", "a/cbz", "a/b.tar.gz", ".hidden", "a/x.", "dir/", "./x", "cbz"] {
            let dest = placed(target, path).unwrap();
            assert_eq!(Path::new(&dest).extension().and_then(|e| e.to_str()), Some("cbz"), "{path}");
        }
    }
}

#[test]
fn output_path_gives_the_destination() {
    let args = args_with(Some("out"), false);
    assert_eq!(args.as_processing_context().output_path("a/b/dir"), "out/dir.cbz");
    assert_eq!(args.as_processing_context().output_path("x.cbz"), "out/x.cbz");
    let args = args_with(None, false);
    assert_eq!(args.as_processing_context().output_path("a/b/dir"), "a/b/dir.cbz");
    assert_eq!(args.as_processing_context().output_path(".."), "..");
}

#[test]
fn a_target_takes_the_final_name() {
    assert_eq!(placed(Some("out"), "dir"), Some("out/dir.cbz".to_string()));
    assert_eq!(placed(Some("out/"), "a/b/dir"), Some("out/dir.cbz".to_string()));
    assert_eq!(placed(Some("out"), "a/b/x.cbz"), Some("out/x.cbz".to_string()));
    assert_eq!(placed(Some("/abs/out"), "x.cbz"), Some("/abs/out/x.cbz".to_string()));
}

#[test]
fn without_a_final_name_a_target_gives_nothing() {
    assert_eq!(placed(Some("out"), ".."), None);
    assert_eq!(placed(Some("out"), "/"), None);
    assert_eq!(placed(Some("out"), "a/.."), None);
}

#[test]
fn destinations_agree_with_std_paths() {
    for path in ["dir", "a/b.cbz", "a.b/c.d", "./x", "x/", "a/cbz", ".hidden", "a/.hidden.cbz"] {
        let beside = Path::new(path).with_extension("cbz");
        assert_eq!(placed(None, path), Some(beside.to_str().unwrap().to_string()));
        let name = Path::new(path).file_name().unwrap();
        let inside = Path::new("out").join(name).with_extension("cbz");
        assert_eq!(placed(Some("out"), path), Some(inside.to_str().unwrap().to_string()));
    }
}

#[test]
fn the_guard_refuses_an_existing_destination() {
    let args = args_with(None, false);
    assert_eq!(args.as_processing_context().guard(true), Err(ArchiveError::DestinationExists));
    assert_eq!(args.as_processing_context().guard(false), Ok(()));
    let args = args_with(None, true);
    assert_eq!(args.as_processing_context().guard(true), Ok(()));
    assert_eq!(args.as_processing_context().guard(false), Ok(()));
}

#[test]
fn items_are_the_archives_and_directories() {
    let args = Args {
        paths: vec!["a.cbz".to_string(), "dir".to_string(), "x.txt".to_string(), "gone".to_string(), "b.cbz".to_string()],
        output: None,
        force: false,
    };
    let kinds = vec![PathKind::File, PathKind::Directory, PathKind::File, PathKind::Other, PathKind::Directory];
    assert_eq!(
        args.items(&kinds),
        vec![Item::Tarball("a.cbz".to_string()), Item::Directory("dir".to_string()), Item::Directory("b.cbz".to_string())]
    );
}

#[test]
fn paths_without_a_kind_are_no_items() {
    let args = Args { paths: vec!["a.cbz".to_string(), "dir".to_string()], output: None, force: false };
    assert_eq!(args.items(&vec![PathKind::File]), vec![Item::Tarball("a.cbz".to_string())]);
    assert_eq!(args.items(&vec![]), vec![]);
}
