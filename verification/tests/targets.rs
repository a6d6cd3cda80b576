use schemgen::error::Error;
use schemgen::targets::{floor, targets, Target};

#[test]
fn table_is_ordered_and_unique() {
    let table = targets();
    for pair in table.windows(2) {
        assert!(pair[0].data_version < pair[1].data_version, "{pair:?}");
        assert_ne!(pair[0].id, pair[1].id);
    }
    assert_eq!(table[0], floor());
}

#[test]
fn schematic_version_switches_at_1_21() {
    assert_eq!(Target::named("1.20.6").unwrap().schematic_version, 6);
    assert_eq!(Target::named("1.21.1").unwrap().schematic_version, 7);
    assert_eq!(Target::named("26.3").unwrap().schematic_version, 7);
}

#[test]
fn default_is_1_21_8() {
    let t = Target::default_target();
    assert_eq!((t.id, t.data_version, t.schematic_version), ("1.21.8", 4440, 7));
    assert_eq!(Target::default(), t);
}

#[test]
fn parses_names_and_data_versions() {
    assert_eq!(Target::parse(" 1.20.4 ").unwrap().data_version, 3700);
    let custom = Target::parse("4435").unwrap();
    assert_eq!((custom.id, custom.data_version), ("custom", 4435));
    assert_eq!(custom.key(), "4435");
    assert_eq!(Target::named("1.21.11").unwrap().key(), "1.21.11");
    assert_eq!(Target::parse("4440").unwrap().id, "1.21.8");
    assert!(Target::parse("1.12.2").is_err());
    assert!(Target::parse("1139").is_err(), "below the floor");
    assert!(Target::parse("banana").is_err());
}

#[test]
fn custom_errors_name_the_target_field() {
    match Target::custom(100) {
        Err(Error::InvalidSetting { field, reason }) => {
            assert_eq!(field, "target");
            assert!(reason.contains("100"));
        }
        other => panic!("{other:?}"),
    }
    assert_eq!(Target::custom(-5).unwrap_err().is_user_error(), true);
    assert_eq!(Target::custom(3953).unwrap().schematic_version, 7);
    assert_eq!(Target::custom(3952).unwrap().schematic_version, 6);
    assert_eq!(Target::parse("+4435").unwrap().data_version, 4435);
    assert!(Target::parse("99999999999").is_err());
}


#[test]
fn a_target_s_key_parses_back_to_it() {
    for raw in ["1.21.11", " 26.1 ", "4435", "2586", "3700", "+4000"] {
        let t = Target::parse(raw).unwrap();
        assert_eq!(Target::parse(&t.key()).unwrap(), t, "{raw}");
    }
    assert_eq!(Target::parse("4435").unwrap().key(), "4435");
    assert_eq!(Target::named("1.21.11").unwrap().key(), "1.21.11");
}
