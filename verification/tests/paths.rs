use comic_archive::path::{webp, ArchivePath};
use std::path::Path;

fn path_of(text: &str) -> ArchivePath {
    ArchivePath::parse(&text.as_bytes().to_vec())
}

fn names_of_path(text: &str) -> Vec<Vec<u8>> {
    path_of(text).segments
}

#[test]
fn parse_splits_at_slashes() {
    assert_eq!(names_of_path("a/b/c.png"), vec![b"a".to_vec(), b"b".to_vec(), b"c.png".to_vec()]);
    assert_eq!(names_of_path("comic"), vec![b"comic".to_vec()]);
}

#[test]
fn parse_drops_empty_runs() {
    assert_eq!(names_of_path("a//b/"), vec![b"a".to_vec(), b"b".to_vec()]);
    assert_eq!(names_of_path("/a"), vec![b"a".to_vec()]);
    assert_eq!(names_of_path(""), Vec::<Vec<u8>>::new());
    assert_eq!(names_of_path("///"), Vec::<Vec<u8>>::new());
}

#[test]
fn parse_keeps_dots_as_names() {
    assert_eq!(names_of_path("./a"), vec![b".".to_vec(), b"a".to_vec()]);
    assert_eq!(names_of_path("a/../b"), vec![b"a".to_vec(), b"..".to_vec(), b"b".to_vec()]);
}

#[test]
fn to_bytes_joins_with_slashes() {
    assert_eq!(path_of("a/b/c.png").to_bytes(), b"a/b/c.png".to_vec());
    assert_eq!(path_of("a//b/").to_bytes(), b"a/b".to_vec());
    assert_eq!(path_of("a").to_bytes(), b"a".to_vec());
    assert_eq!(path_of("").to_bytes(), Vec::<u8>::new());
}

#[test]
fn written_paths_read_back_as_they_were() {
    for text in ["a", "a/b", "comic/ch 1/001.png", "x/webp/y.webp"] {
        let path = path_of(text);
        let again = ArchivePath::parse(&path.to_bytes());
        assert_eq!(again, path);
    }
}

#[test]
fn parent_and_file_name() {
    assert_eq!(path_of("a/b/c.png").parent(), path_of("a/b"));
    assert_eq!(path_of("a/b/c.png").file_name(), b"c.png".to_vec());
    assert_eq!(path_of("c.png").parent(), path_of(""));
    assert_eq!(path_of("").parent(), path_of(""));
    assert_eq!(path_of("").file_name(), Vec::<u8>::new());
}

#[test]
fn child_adds_one_name() {
    assert_eq!(path_of("a/b").child(&b"c.png".to_vec()), path_of("a/b/c.png"));
    assert_eq!(path_of("").child(&b"root".to_vec()), path_of("root"));
}

#[test]
fn duplicate_is_equal() {
    let path = path_of("a/b/c");
    assert_eq!(path.duplicate(), path);
}

#[test]
fn same_compares_all_names() {
    assert!(path_of("a/b").same(&path_of("a//b/")));
    assert!(!path_of("a/b").same(&path_of("a/c")));
    assert!(!path_of("a/b").same(&path_of("a")));
    assert!(path_of("").same(&path_of("/")));
}

#[test]
fn webp_directories_are_told_by_their_last_name() {
    assert_eq!(webp(), b"webp".to_vec());
    assert!(path_of("a/webp").is_webp_dir());
    assert!(path_of("webp").is_webp_dir());
    assert!(!path_of("a/webp/b").is_webp_dir());
    assert!(!path_of("a/webpx").is_webp_dir());
    assert!(!path_of("a/WEBP").is_webp_dir());
    assert!(!path_of("").is_webp_dir());
}

#[test]
fn order_goes_name_by_name() {
    // as whole strings "a-b" would come before "a/b"
    assert!(path_of("a/b").precedes(&path_of("a-b")));
    assert!(!path_of("a-b").precedes(&path_of("a/b")));
    assert!(path_of("a").precedes(&path_of("a/b")));
    assert!(!path_of("a/b").precedes(&path_of("a")));
    assert!(path_of("a/b").precedes(&path_of("a/b")));
    assert!(path_of("").precedes(&path_of("a")));
    assert!(path_of("a/10").precedes(&path_of("a/2")));
}

#[test]
fn order_agrees_with_the_order_of_std_paths() {
    let samples = [
        "a", "a/b", "a-b", "a/b/c", "a/bc", "ab", "b", "a/webp", "a/webp/x.webp", "a/x.png", "A/x", "a b/c",
        "a/b.png", "a/b-1.png", "comic/001.png", "comic/010.png", "comic/01.png",
    ];
    for s in samples {
        for t in samples {
            assert_eq!(path_of(s).precedes(&path_of(t)), Path::new(s) <= Path::new(t), "{s} against {t}");
        }
    }
}
