use comic_archive::entry::SourceEntry;
use comic_archive::error::ArchiveError;
use comic_archive::index::ArchiveIndex;
use comic_archive::path::ArchivePath;
use comic_archive::repair::{all_plain, pack_plan, plan_repair, repair, resolve};
use comic_archive::tarball::Member;

enum Put<'a> {
    Dir(&'a str),
    File(&'a str, &'a [u8]),
    RawDir(&'a [u8]),
    RawFile(&'a [u8], &'a [u8]),
}

fn archive_with(members: &[Put]) -> Vec<u8> {
    let mut builder = tar::Builder::new(Vec::new());
    for member in members {
        let mut header = tar::Header::new_gnu();
        header.set_mtime(1);
        match member {
            Put::Dir(path) => {
                header.set_entry_type(tar::EntryType::Directory);
                header.set_mode(0o755);
                header.set_size(0);
                builder.append_data(&mut header, path, std::io::empty()).unwrap();
            }
            Put::File(path, data) => {
                header.set_mode(0o644);
                header.set_size(data.len() as u64);
                builder.append_data(&mut header, path, *data).unwrap();
            }
            Put::RawDir(name) => {
                header.set_entry_type(tar::EntryType::Directory);
                header.set_size(0);
                header.as_old_mut().name[..name.len()].copy_from_slice(name);
                header.set_cksum();
                builder.append(&header, std::io::empty()).unwrap();
            }
            Put::RawFile(name, data) => {
                header.set_size(data.len() as u64);
                header.as_old_mut().name[..name.len()].copy_from_slice(name);
                header.set_cksum();
                builder.append(&header, *data).unwrap();
            }
        }
    }
    builder.into_inner().unwrap()
}

fn contents_of(archive: &[u8]) -> Vec<(String, Vec<u8>, u64)> {
    let mut reader = tar::Archive::new(std::io::Cursor::new(archive));
    let mut found = Vec::new();
    for entry in reader.entries().unwrap() {
        let mut entry = entry.unwrap();
        let path = String::from_utf8(entry.path_bytes().into_owned()).unwrap();
        let mtime = entry.header().mtime().unwrap();
        let mut data = Vec::new();
        std::io::Read::read_to_end(&mut entry, &mut data).unwrap();
        found.push((path, data, mtime));
    }
    found
}

fn page(path: &str, data: &[u8], mtime: u64) -> (String, Vec<u8>, u64) {
    (path.to_string(), data.to_vec(), mtime)
}

fn planned(path: &str, offset: u64, len: u64) -> SourceEntry {
    SourceEntry { path: ArchivePath::parse(&path.as_bytes().to_vec()), offset, len }
}

#[test]
fn repair_prefers_the_variant_and_lifts_it() {
    let source = archive_with(&[
        Put::Dir("c/"),
        Put::File("c/a.png", b"the png"),
        Put::Dir("c/webp/"),
        Put::File("c/webp/a.webp", b"the webp"),
    ]);
    let fixed = repair(&source, 777).unwrap();
    assert_eq!(contents_of(&fixed), vec![page("c/a.webp", b"the webp", 777)]);
}

#[test]
fn repair_leaves_out_a_variant_without_a_page() {
    let source = archive_with(&[
        Put::Dir("c/"),
        Put::File("c/b.png", b"page b"),
        Put::Dir("c/webp/"),
        Put::File("c/webp/c.webp", b"variant c"),
    ]);
    let fixed = repair(&source, 5).unwrap();
    assert_eq!(contents_of(&fixed), vec![page("c/b.png", b"page b", 5)]);
}

#[test]
fn repair_puts_directories_and_files_in_order() {
    let source = archive_with(&[
        Put::Dir("c/"),
        Put::File("c/z.png", b"z"),
        Put::Dir("b/"),
        Put::File("b/x.png", b"x"),
        Put::File("c/a.png", b"a"),
        Put::File("b/10.png", b"ten"),
        Put::File("b/2.png", b"two"),
    ]);
    let fixed = repair(&source, 9).unwrap();
    assert_eq!(
        contents_of(&fixed),
        vec![
            page("b/10.png", b"ten", 9),
            page("b/2.png", b"two", 9),
            page("b/x.png", b"x", 9),
            page("c/a.png", b"a", 9),
            page("c/z.png", b"z", 9),
        ]
    );
}

#[test]
fn repair_drops_what_has_no_marker() {
    let source = archive_with(&[Put::File("c/a.png", b"a"), Put::Dir("d/")]);
    let fixed = repair(&source, 9).unwrap();
    assert_eq!(contents_of(&fixed), vec![]);
    assert_eq!(fixed, vec![0u8; 1024]);
}

#[test]
fn repair_never_rebuilds_a_webp_directory_itself() {
    let source = archive_with(&[Put::Dir("c/webp/"), Put::File("c/webp/a.webp", b"a")]);
    assert_eq!(contents_of(&repair(&source, 9).unwrap()), vec![]);
}

#[test]
fn repair_of_an_empty_archive_is_an_empty_archive() {
    assert_eq!(repair(&[], 9).unwrap(), vec![0u8; 1024]);
    assert_eq!(repair(&vec![0u8; 1024], 9).unwrap(), vec![0u8; 1024]);
}

#[test]
fn repair_is_the_same_twice() {
    let source = archive_with(&[
        Put::Dir("c/"),
        Put::File("c/2.png", b"two"),
        Put::File("c/1.png", b"one"),
        Put::Dir("c/webp/"),
        Put::File("c/webp/2.webp", b"two as webp"),
    ]);
    let first = repair(&source, 1000).unwrap();
    let second = repair(&source, 1000).unwrap();
    assert_eq!(first, second);
    let later = repair(&source, 2000).unwrap();
    assert_ne!(first, later);
    assert_eq!(contents_of(&first), vec![page("c/1.png", b"one", 1000), page("c/2.webp", b"two as webp", 1000)]);
    assert_eq!(contents_of(&later), vec![page("c/1.png", b"one", 2000), page("c/2.webp", b"two as webp", 2000)]);
}

#[test]
fn repair_copies_payloads_byte_for_byte() {
    let mut big = Vec::new();
    for i in 0..5000u32 {
        big.push((i.wrapping_mul(2654435761) >> 13) as u8);
    }
    let source = archive_with(&[Put::Dir("c/"), Put::File("c/big.png", &big), Put::File("c/one.png", &[7])]);
    let members = vec![
        Member { path: b"c/".to_vec(), offset: 512, len: 0 },
        Member { path: b"c/big.png".to_vec(), offset: 1024, len: 5000 },
        Member { path: b"c/one.png".to_vec(), offset: 1024 + 5120 + 512, len: 1 },
    ];
    let plan = plan_repair(&ArchiveIndex::build(&members).unwrap());
    assert_eq!(plan, vec![planned("c/big.png", 1024, 5000), planned("c/one.png", 6656, 1)]);
    assert_eq!(&source[1024..6024], &big[..]);
    let fixed = repair(&source, 3).unwrap();
    assert_eq!(contents_of(&fixed), vec![page("c/big.png", &big, 3), page("c/one.png", &[7], 3)]);
    assert_eq!(pack_plan(&plan, &source, 3).unwrap(), fixed);
}

#[test]
fn repair_keeps_long_paths() {
    let long = format!("c/{}.png", "x".repeat(150));
    let source = archive_with(&[Put::Dir("c/"), Put::File(&long, b"long")]);
    assert_eq!(contents_of(&repair(&source, 4).unwrap()), vec![page(&long, b"long", 4)]);
}

#[test]
fn repair_takes_the_last_of_two_variants() {
    let source = archive_with(&[
        Put::Dir("c/"),
        Put::File("c/a.png", b"png"),
        Put::Dir("c/webp/"),
        Put::File("c/webp/a.webp", b"webp"),
        Put::File("c/webp/a.avif", b"avif"),
    ]);
    // the variants are taken in order of their paths, and the later one wins
    assert_eq!(contents_of(&repair(&source, 4).unwrap()), vec![page("c/a.webp", b"webp", 4)]);
}

#[test]
fn repair_handles_a_marker_given_twice() {
    let source = archive_with(&[Put::Dir("c/"), Put::File("c/a.png", b"a"), Put::Dir("c/")]);
    assert_eq!(contents_of(&repair(&source, 4).unwrap()), vec![page("c/a.png", b"a", 4), page("c/a.png", b"a", 4)]);
}

#[test]
fn garbage_is_malformed() {
    assert_eq!(repair(&vec![0x41u8; 512], 1), Err(ArchiveError::MalformedArchive));
    assert_eq!(repair(&vec![0x41u8; 100], 1), Err(ArchiveError::MalformedArchive));
}

#[test]
fn a_file_without_a_name_makes_the_archive_malformed() {
    let source = archive_with(&[Put::Dir("c/"), Put::RawFile(b"/", b"abc")]);
    assert_eq!(repair(&source, 1), Err(ArchiveError::MalformedArchive));
}

#[test]
fn a_cut_off_payload_is_unreadable() {
    let source = archive_with(&[Put::Dir("c/"), Put::File("c/a.png", &vec![9u8; 2000])]);
    let cut = &source[..512 + 512 + 100];
    assert_eq!(repair(cut, 1), Err(ArchiveError::Unreadable));
}

#[test]
fn a_cut_off_payload_that_is_not_chosen_does_no_harm() {
    let source = archive_with(&[Put::Dir("c/"), Put::File("d/a.png", &vec![9u8; 2000])]);
    let cut = &source[..512 + 512 + 100];
    assert_eq!(contents_of(&repair(cut, 1).unwrap()), vec![]);
}

#[test]
fn a_path_that_climbs_is_unwritable() {
    let source = archive_with(&[Put::RawDir(b"x/../"), Put::RawFile(b"x/../f.png", b"abc")]);
    assert_eq!(repair(&source, 1), Err(ArchiveError::Unwritable));
}

#[test]
fn plan_repair_places_files_under_their_directory() {
    let members = vec![
        Member { path: b"c/".to_vec(), offset: 512, len: 0 },
        Member { path: b"c/a.png".to_vec(), offset: 1024, len: 10 },
        Member { path: b"c/b.png".to_vec(), offset: 2048, len: 20 },
        Member { path: b"c/webp/".to_vec(), offset: 3072, len: 0 },
        Member { path: b"c/webp/b.webp".to_vec(), offset: 3584, len: 30 },
        Member { path: b"c/webp/z.webp".to_vec(), offset: 4608, len: 40 },
    ];
    let index = ArchiveIndex::build(&members).unwrap();
    assert_eq!(plan_repair(&index), vec![planned("c/a.png", 1024, 10), planned("c/b.webp", 3584, 30)]);
}

#[test]
fn plan_repair_keeps_webp_inside_a_marker_path() {
    let members = vec![
        Member { path: b"a/webp/b/".to_vec(), offset: 512, len: 0 },
        Member { path: b"a/webp/b/x.png".to_vec(), offset: 1024, len: 10 },
    ];
    let index = ArchiveIndex::build(&members).unwrap();
    assert_eq!(plan_repair(&index), vec![planned("a/webp/b/x.png", 1024, 10)]);
}

#[test]
fn resolve_takes_the_ranges() {
    let source: Vec<u8> = (0u8..200).collect();
    let plan = vec![planned("c/a", 10, 3), planned("c/b", 0, 0), planned("c/c", 199, 1)];
    let pages = resolve(&plan, &source, 42).unwrap();
    assert_eq!(pages.len(), 3);
    assert_eq!(pages[0].target, ArchivePath::parse(&b"c/a".to_vec()));
    assert_eq!(pages[0].data, &[10u8, 11, 12][..]);
    assert_eq!(pages[0].mtime, 42);
    assert_eq!(pages[1].data, &[0u8; 0][..]);
    assert_eq!(pages[2].data, &[199u8][..]);
    assert_eq!(pages[2].mtime, 42);
}

#[test]
fn resolve_refuses_a_range_beyond_the_end() {
    let source: Vec<u8> = (0u8..200).collect();
    let plan = vec![planned("c/a", 10, 3), planned("c/b", 199, 2)];
    assert_eq!(resolve(&plan, &source, 42).err(), Some(ArchiveError::Unreadable));
    assert_eq!(pack_plan(&plan, &source, 42), Err(ArchiveError::Unreadable));
}

#[test]
fn no_rebuilt_path_holds_webp() {
    let source = archive_with(&[
        Put::Dir("c/"),
        Put::Dir("c/ch1/"),
        Put::Dir("c/ch1/webp/"),
        Put::Dir("c/webp/"),
        Put::File("c/1.png", b"1"),
        Put::File("c/webp/1.webp", b"1w"),
        Put::File("c/ch1/2.png", b"2"),
        Put::File("c/ch1/3.png", b"3"),
        Put::File("c/ch1/webp/3.webp", b"3w"),
        Put::File("c/ch1/webp/4.webp", b"4w"),
    ]);
    let fixed = contents_of(&repair(&source, 8).unwrap());
    assert_eq!(
        fixed,
        vec![page("c/1.webp", b"1w", 8), page("c/ch1/2.png", b"2", 8), page("c/ch1/3.webp", b"3w", 8)]
    );
    for (path, _, _) in fixed {
        assert!(path.split('/').all(|name| name != "webp"));
    }
}

fn lone_header(kind: tar::EntryType, size: u64, extended: bool) -> Vec<u8> {
    let mut header = tar::Header::new_gnu();
    header.set_path("x").unwrap();
    header.set_entry_type(kind);
    header.set_size(size);
    if extended {
        header.as_gnu_mut().unwrap().isextended = [1];
    }
    header.set_cksum();
    let mut bytes = header.as_bytes().to_vec();
    bytes.extend_from_slice(&[0u8; 512]);
    bytes
}

#[test]
fn kinds_are_plain_without_sparse_and_pax_members() {
    assert!(all_plain(&vec![]));
    assert!(all_plain(&vec![b'0', b'5', b'L', b'g', 0]));
    assert!(!all_plain(&vec![b'0', b'S']));
    assert!(!all_plain(&vec![b'x', b'0']));
    assert!(!all_plain(&vec![b'5', b'0', b'x', b'0']));
}

#[test]
fn a_sparse_member_makes_the_archive_malformed() {
    assert_eq!(repair(&lone_header(tar::EntryType::GNUSparse, 0, false), 1), Err(ArchiveError::MalformedArchive));
    assert_eq!(repair(&lone_header(tar::EntryType::GNUSparse, 100, true), 1), Err(ArchiveError::MalformedArchive));
}

#[test]
fn a_sparse_member_of_a_size_near_the_limit_is_refused_unread() {
    for back in [512u64, 1000, 1024, 1535, 1536, 2048] {
        let source = lone_header(tar::EntryType::GNUSparse, u64::MAX - back, true);
        assert_eq!(repair(&source, 1), Err(ArchiveError::MalformedArchive));
    }
}

#[test]
fn pax_extensions_make_the_archive_malformed() {
    assert_eq!(repair(&lone_header(tar::EntryType::XHeader, 0, false), 1), Err(ArchiveError::MalformedArchive));
    let mut source = archive_with(&[Put::Dir("c/"), Put::File("c/a.png", b"a")]);
    source.truncate(source.len() - 1024);
    source.extend_from_slice(&lone_header(tar::EntryType::XHeader, 0, false));
    assert_eq!(repair(&source, 1), Err(ArchiveError::MalformedArchive));
}

#[test]
fn a_global_pax_header_does_no_harm() {
    let mut source = lone_header(tar::EntryType::XGlobalHeader, 0, false);
    source.truncate(512);
    source.extend_from_slice(&archive_with(&[Put::Dir("c/"), Put::File("c/a.png", b"a")]));
    assert_eq!(contents_of(&repair(&source, 6).unwrap()), vec![page("c/a.png", b"a", 6)]);
}

#[test]
fn every_archive_ends_in_two_empty_blocks() {
    let source = archive_with(&[Put::Dir("c/"), Put::File("c/a.png", b"a")]);
    let fixed = repair(&source, 6).unwrap();
    assert_eq!(fixed.len(), 512 + 512 + 1024);
    assert_eq!(&fixed[1024..], &[0u8; 1024][..]);
}
