use schemgen::formats::{FormatError, Metadata};
use schemgen::grid::BlockGrid;
use schemgen::litematic::{bits_for, encode, encode_nbt, region_name};
use schemgen::reader::{read, read_gzip, Tag};
use schemgen::targets::Target;

fn meta() -> Metadata {
    Metadata {
        name: "test".into(),
        author: "SchemGen2".into(),
        description: "unit test".into(),
        time_ms: 1_700_000_000_000,
    }
}

/// Read cell `index` back out of a packed stream.
fn unpack(words: &[i64], bits: usize, index: usize) -> u64 {
    let start = index * bits;
    let (word, bit) = (start / 64, start % 64);
    let mut v = (words[word] as u64) >> bit;
    if bit + bits > 64 {
        v |= (words[word + 1] as u64) << (64 - bit);
    }
    v & ((1u64 << bits) - 1)
}

#[test]
fn bit_width_follows_palette_size() {
    assert_eq!(bits_for(1), 2);
    assert_eq!(bits_for(2), 2);
    assert_eq!(bits_for(4), 2);
    assert_eq!(bits_for(5), 3);
    assert_eq!(bits_for(17), 5);
    assert_eq!(bits_for(182), 8);
    assert_eq!(bits_for(257), 9);
}

#[test]
fn empty_grid_is_an_error() {
    let g = BlockGrid::from_names(vec![], &[]);
    assert_eq!(encode(&g, &meta(), &Target::default_target()), Err(FormatError::Empty));
}

#[test]
fn round_trips_through_the_reader() {
    // 5 block types plus air: 3 bits, so values straddle long boundaries.
    let names = [
        "minecraft:stone",
        "minecraft:dirt",
        "minecraft:glass",
        "minecraft:tuff",
        "minecraft:clay",
    ];
    let mut coords = Vec::new();
    let mut per_block = Vec::new();
    for x in 0..7 {
        for y in 0..5 {
            for z in 0..6 {
                if (x + 2 * y + 3 * z) % 4 != 0 {
                    coords.push([x, y, z]);
                    per_block.push(names[((x * 7 + y * 3 + z) % 5) as usize]);
                }
            }
        }
    }
    let grid = BlockGrid::from_names(coords.clone(), &per_block);
    let target = Target::named("1.20.4").unwrap();
    let bytes = encode(&grid, &meta(), &target).unwrap();

    let (_, root) = read_gzip(bytes.as_slice()).unwrap();
    assert_eq!(root.get("Version"), Some(&Tag::Int(6)));
    assert_eq!(root.get("SubVersion"), Some(&Tag::Int(1)));
    assert_eq!(root.get("MinecraftDataVersion"), Some(&Tag::Int(3700)));
    assert_eq!(
        root.at(&["Metadata", "TotalBlocks"]),
        Some(&Tag::Int(coords.len() as i32))
    );
    assert_eq!(root.at(&["Metadata", "TotalVolume"]), Some(&Tag::Int(7 * 5 * 6)));
    assert_eq!(
        root.at(&["Metadata", "TimeCreated"]),
        Some(&Tag::Long(1_700_000_000_000))
    );
    assert_eq!(root.at(&["Metadata", "EnclosingSize", "x"]), Some(&Tag::Int(7)));

    let region = root
        .at(&["Regions", "test"])
        .expect("region named after the schematic");
    let palette: Vec<&str> = region
        .get("BlockStatePalette")
        .and_then(Tag::as_list)
        .unwrap()
        .iter()
        .map(|t| t.get("Name").and_then(Tag::as_str).unwrap())
        .collect();
    assert_eq!(palette[0], "minecraft:air");
    let Some(Tag::LongArray(words)) = region.get("BlockStates") else {
        panic!("BlockStates missing")
    };
    let bits = bits_for(palette.len());
    assert_eq!(bits, 3);
    assert_eq!(words.len(), (7 * 5 * 6 * bits).div_ceil(64));

    let mut placed = 0;
    for x in 0..7usize {
        for y in 0..5usize {
            for z in 0..6usize {
                let got = palette[unpack(words, bits, x + z * 7 + y * 7 * 6) as usize];
                let want = coords
                    .iter()
                    .position(|&c| c == [x as i32, y as i32, z as i32])
                    .map(|i| per_block[i])
                    .unwrap_or("minecraft:air");
                assert_eq!(got, want, "cell {x},{y},{z}");
                placed += (got != "minecraft:air") as usize;
            }
        }
    }
    assert_eq!(placed, coords.len());
}

#[test]
fn version_7_from_1_21() {
    let g = BlockGrid::from_names(vec![[0, 0, 0]], &["minecraft:stone"]);
    let bytes = encode(&g, &meta(), &Target::named("1.21.11").unwrap()).unwrap();
    let (_, root) = read_gzip(bytes.as_slice()).unwrap();
    assert_eq!(root.get("Version"), Some(&Tag::Int(7)));
    assert_eq!(root.get("MinecraftDataVersion"), Some(&Tag::Int(4671)));
}

#[test]
fn files_start_with_a_plain_gzip_header() {
    let g = BlockGrid::from_names(vec![[0, 0, 0]], &["minecraft:stone"]);
    let bytes = encode(&g, &meta(), &Target::default_target()).unwrap();
    assert_eq!(&bytes[..10], &[0x1f, 0x8b, 8, 0, 0, 0, 0, 0, 0, 255]);
    // Compressed, so not the document itself.
    let doc = encode_nbt(&g, &meta(), &Target::default_target()).unwrap();
    assert_ne!(bytes, doc);
    assert_eq!(read(&doc).unwrap(), read_gzip(&bytes).unwrap());
}

#[test]
fn air_in_the_grid_maps_to_palette_index_zero() {
    let g = BlockGrid::from_names(
        vec![[0, 0, 0], [1, 0, 0]],
        &["minecraft:air", "minecraft:stone"],
    );
    let doc = encode_nbt(&g, &meta(), &Target::default_target()).unwrap();
    let (_, root) = read(&doc).unwrap();
    let region = root.at(&["Regions", "test"]).unwrap();
    let palette = region.get("BlockStatePalette").and_then(Tag::as_list).unwrap();
    assert_eq!(palette.len(), 2);
    assert_eq!(root.at(&["Metadata", "TotalBlocks"]), Some(&Tag::Int(1)));
    let Some(Tag::LongArray(words)) = region.get("BlockStates") else {
        panic!("BlockStates missing")
    };
    assert_eq!(unpack(words, 2, 0), 0);
    assert_eq!(unpack(words, 2, 1), 1);
}

#[test]
fn blank_names_give_the_main_region() {
    assert_eq!(region_name("  "), "main");
    assert_eq!(region_name(""), "main");
    assert_eq!(region_name("castle"), "castle");
    let g = BlockGrid::from_names(vec![[0, 0, 0]], &["minecraft:stone"]);
    let mut m = meta();
    m.name = " ".into();
    let doc = encode_nbt(&g, &m, &Target::default_target()).unwrap();
    let (_, root) = read(&doc).unwrap();
    assert!(root.at(&["Regions", "main"]).is_some());
}

#[test]
fn overlong_metadata_is_refused() {
    let g = BlockGrid::from_names(vec![[0, 0, 0]], &["minecraft:stone"]);
    let mut m = meta();
    m.author = "a".repeat(70_000);
    assert_eq!(
        encode_nbt(&g, &m, &Target::default_target()),
        Err(FormatError::Nbt(schemgen::nbt::NbtError::StringTooLong))
    );
}
