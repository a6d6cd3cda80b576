use schemgen::settings::{block_id, clamp_max_size, clean_name, max_size_limits, name_or, NAME_CHARS};
use schemgen::targets::Target;

#[test]
fn block_ids_accept_short_and_full_names() {
    assert_eq!(block_id("white").unwrap(), "minecraft:white_concrete");
    assert_eq!(block_id("").unwrap(), "minecraft:white_concrete");
    assert_eq!(block_id("netherrack").unwrap(), "minecraft:netherrack");
    assert_eq!(block_id("minecraft:stone").unwrap(), "minecraft:stone");
    assert_eq!(block_id("Deepslate").unwrap(), "minecraft:deepslate");
    assert!(block_id("a:").is_err());
    assert!(block_id("bad id").is_err());
}

#[test]
fn block_ids_are_trimmed_and_lowercased() {
    assert_eq!(block_id("  Mod:Some/Path.v2 ").unwrap(), "mod:some/path.v2");
    assert!(block_id(":stone").is_err());
    assert!(block_id("ns/x:stone").is_err());
    assert!(block_id("a:b:c").is_err());
}

#[test]
fn names_are_trimmed_and_bounded() {
    let name = clean_name(&format!("  castle\u{7}{}", "x".repeat(500)));
    assert!(name.starts_with("castlex"));
    assert_eq!(name.chars().count(), NAME_CHARS);
    assert_eq!(name_or(&name, "model"), name);
    assert_eq!(name_or("", "model"), "model");
}

#[test]
fn targets_are_canonicalized() {
    let t = |raw: &str| Target::parse(raw).unwrap().key();
    assert_eq!(t(" 1.20.4 "), "1.20.4");
    assert_eq!(t("3700"), "1.20.4");
    assert_eq!(t("4435"), "4435");
    assert_eq!(Target::default_target().data_version, 4440);
}

#[test]
fn the_longest_side_is_clamped() {
    assert_eq!(clamp_max_size(0), 1);
    assert_eq!(clamp_max_size(128), 128);
    assert_eq!(clamp_max_size(5000), 2048);
    let limits = max_size_limits();
    assert_eq!((limits.min, limits.max), (1, 2048));
}

#[test]
fn refusals_quote_the_trimmed_input_and_ids_are_stable() {
    match block_id("  bad id  ") {
        Err(e) => assert_eq!(e.message(), "invalid default_block: \"bad id\" is not a block ID"),
        Ok(id) => panic!("{id}"),
    }
    for raw in ["", "white", "netherrack", "Deepslate", "MyMod:Custom_Block/v2", " stone "] {
        let id = block_id(raw).unwrap();
        assert_eq!(block_id(&id).unwrap(), id, "{raw}");
        assert_eq!(id.to_ascii_lowercase(), id);
    }
}
