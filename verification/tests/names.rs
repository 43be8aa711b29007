use comic_archive::name::{name_precedes, same_name, stem_of};

#[test]
fn stem_drops_the_last_extension() {
    assert_eq!(stem_of(&b"page.01.png".to_vec()), b"page.01".to_vec());
    assert_eq!(stem_of(&b"page".to_vec()), b"page".to_vec());
    assert_eq!(stem_of(&b".hidden".to_vec()), b".hidden".to_vec());
    assert_eq!(stem_of(&b"page.".to_vec()), b"page".to_vec());
    assert_eq!(stem_of(&b"".to_vec()), b"".to_vec());
}

#[test]
fn names_compare_byte_by_byte() {
    assert!(name_precedes(&b"a".to_vec(), &b"a".to_vec()));
    assert!(name_precedes(&b"a".to_vec(), &b"ab".to_vec()));
    assert!(!name_precedes(&b"ab".to_vec(), &b"a".to_vec()));
    assert!(name_precedes(&b"a10".to_vec(), &b"a2".to_vec()));
    assert!(same_name(&b"x".to_vec(), &b"x".to_vec()));
    assert!(!same_name(&b"x".to_vec(), &b"X".to_vec()));
}
