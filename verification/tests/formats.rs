use schemgen::formats::{source_date_ms, temp_file_name};

#[test]
fn temp_paths_are_unique_siblings() {
    let p = std::path::Path::new("/tmp/out/castle.litematic");
    let a = p.with_file_name(temp_file_name("castle.litematic", 7, 0));
    let b = p.with_file_name(temp_file_name("castle.litematic", 7, 1));
    assert_ne!(a, b);
    assert_eq!(a.parent(), p.parent());
    assert_eq!(temp_file_name("castle.litematic", 7, 12), ".castle.litematic.7.12.partial");
}

#[test]
fn source_date_epoch_fixes_the_time() {
    assert_eq!(source_date_ms(Some(" 1700000000 ")), Some(1_700_000_000_000));
    assert_eq!(source_date_ms(Some("-5")), Some(-5000));
    assert_eq!(source_date_ms(Some("9223372036854775807")), Some(i64::MAX));
    assert_eq!(source_date_ms(Some("soon")), None);
    assert_eq!(source_date_ms(None), None);
}
