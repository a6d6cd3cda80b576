use base64::Engine;
use schemgen::grid::BlockGrid;
use schemgen::preview::{pack, pack_bytes};
use schemgen::schema::{groups, Kind, Scope};
use schemgen::voxelizer::Backend;

#[test]
fn packs_little_endian_quadruples() {
    let g = BlockGrid::from_names(vec![[1, 2, 3], [0, 0, 258]], &["minecraft:stone", "minecraft:dirt"]);
    let bytes = base64::engine::general_purpose::STANDARD.decode(pack(&g)).unwrap();
    let ints: Vec<i32> =
        bytes.chunks(4).map(|c| i32::from_le_bytes(c.try_into().unwrap())).collect();
    assert_eq!(ints, [1, 2, 3, 1, 0, 0, 258, 0]);
    assert_eq!(pack_bytes(&g).len(), 32);
}

#[test]
fn negative_coordinates_pack_as_twos_complement() {
    let g = BlockGrid::from_names(vec![[-1, 0, 0]], &["minecraft:stone"]);
    assert_eq!(&pack_bytes(&g)[0..4], &[0xff, 0xff, 0xff, 0xff]);
    assert_eq!(pack(&BlockGrid::from_names(vec![], &[])), "");
}

#[test]
fn groups_are_in_display_order() {
    let keys: Vec<&str> = groups().iter().map(|g| g.key).collect();
    assert_eq!(keys, ["size", "color", "lighting", "target", "output", "advanced"]);
    assert!(groups()[2].help.is_some() && groups()[0].help.is_none());
    assert_ne!(Kind::Int, Kind::Float);
    assert_ne!(Scope::Conversion, Scope::Job);
}

#[test]
fn voxelizer_names_parse() {
    assert_eq!(Backend::parse(" Rust ").unwrap(), Backend::Native);
    assert_eq!(Backend::parse("native").unwrap(), Backend::Native);
    assert!(Backend::parse("python").unwrap_err().contains("python-voxelizer feature"));
    assert_eq!(
        Backend::parse("Magic").unwrap_err(),
        "unknown voxelizer \"magic\": expected rust or python"
    );
    assert_eq!(Backend::parse(Backend::Native.name()).unwrap(), Backend::Native);
}
