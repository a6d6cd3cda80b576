use schemgen::formats::{FormatError, Metadata};
use schemgen::grid::BlockGrid;
use schemgen::reader::{read_gzip, Tag};
use schemgen::sponge::{encode, push_varint, varint_len};
use schemgen::targets::Target;

fn meta() -> Metadata {
    Metadata {
        name: "statue".into(),
        author: "SchemGen2".into(),
        description: String::new(),
        time_ms: 1_700_000_000_000,
    }
}

/// 130 block types so some palette indices need two varint bytes.
fn grid() -> BlockGrid {
    let names: Vec<String> = (0..130).map(|i| format!("minecraft:b{i:03}")).collect();
    let mut coords = Vec::new();
    let mut per_block = Vec::new();
    for i in 0..400i32 {
        let c = [i % 9, (i / 9) % 7, i / 63];
        if (c[0] + c[1] + c[2]) % 3 != 0 {
            coords.push(c);
            per_block.push(names[(i as usize * 7) % 130].as_str());
        }
    }
    BlockGrid::from_names(coords, &per_block)
}

fn decode_varints(bytes: &[u8]) -> Vec<u32> {
    let mut out = Vec::new();
    let (mut value, mut shift) = (0u32, 0);
    for &b in bytes {
        value |= ((b & 0x7F) as u32) << shift;
        if b & 0x80 == 0 {
            out.push(value);
            value = 0;
            shift = 0;
        } else {
            shift += 7;
        }
    }
    out
}

fn check(palette_tag: &Tag, data: &[u8], g: &BlockGrid) {
    let Tag::Compound(entries) = palette_tag else {
        panic!("palette")
    };
    let mut by_index = vec![""; entries.len()];
    for (name, idx) in entries {
        by_index[idx.as_i64().unwrap() as usize] = name.as_str();
    }
    assert_eq!(by_index[0], "minecraft:air");
    let values = decode_varints(data);
    assert_eq!(values.len() as u64, g.volume());
    let [sx, _, sz] = g.size.map(|d| d as usize);
    let mut placed = 0;
    for (i, c) in g.coords.iter().enumerate() {
        let [x, y, z] = c.map(|v| v as usize);
        assert_eq!(by_index[values[x + z * sx + y * sx * sz] as usize], g.name_at(i));
        placed += 1;
    }
    let non_air = values.iter().filter(|&&v| v != 0).count();
    assert_eq!(non_air, placed);
}

#[test]
fn v2_round_trips() {
    let g = grid();
    let bytes = encode(&g, &meta(), &Target::named("1.20.4").unwrap(), 2).unwrap();
    let (name, root) = read_gzip(bytes.as_slice()).unwrap();
    assert_eq!(name, "Schematic");
    assert_eq!(root.get("Version"), Some(&Tag::Int(2)));
    assert_eq!(root.get("DataVersion"), Some(&Tag::Int(3700)));
    assert_eq!(root.get("Width"), Some(&Tag::Short(g.size[0] as i16)));
    assert_eq!(root.get("PaletteMax"), Some(&Tag::Int(g.names.len() as i32 + 1)));
    assert_eq!(root.at(&["Metadata", "Name"]).and_then(Tag::as_str), Some("statue"));
    let Some(Tag::ByteArray(data)) = root.get("BlockData") else {
        panic!("BlockData")
    };
    check(root.get("Palette").unwrap(), data, &g);
}

#[test]
fn v3_nests_under_schematic() {
    let g = grid();
    let bytes = encode(&g, &meta(), &Target::default_target(), 3).unwrap();
    let (name, root) = read_gzip(bytes.as_slice()).unwrap();
    assert_eq!(name, "");
    let s = root.get("Schematic").expect("Schematic compound");
    assert_eq!(s.get("Version"), Some(&Tag::Int(3)));
    assert_eq!(s.get("DataVersion"), Some(&Tag::Int(4440)));
    assert!(s.at(&["Metadata", "RequiredMods"]).is_some());
    let Some(Tag::ByteArray(data)) = s.at(&["Blocks", "Data"]) else {
        panic!("Data")
    };
    check(s.at(&["Blocks", "Palette"]).unwrap(), data, &g);
}

#[test]
fn varints_encode_like_protobuf() {
    let mut v = Vec::new();
    for x in [0, 1, 127, 128, 300, 16384] {
        push_varint(&mut v, x);
        assert_eq!(varint_len(x), {
            let mut one = Vec::new();
            push_varint(&mut one, x);
            one.len()
        });
    }
    assert_eq!(v, [0, 1, 127, 0x80, 1, 0xAC, 2, 0x80, 0x80, 1]);
    assert_eq!(decode_varints(&v), [0, 1, 127, 128, 300, 16384]);
}

#[test]
fn largest_varint_takes_five_bytes() {
    let mut v = Vec::new();
    push_varint(&mut v, u32::MAX);
    assert_eq!(v, [0xFF, 0xFF, 0xFF, 0xFF, 0x0F]);
    assert_eq!(varint_len(u32::MAX), 5);
}

#[test]
fn sponge_errors() {
    let empty = BlockGrid::from_names(vec![], &[]);
    assert_eq!(encode(&empty, &meta(), &Target::default_target(), 2), Err(FormatError::Empty));
    let long = BlockGrid::from_names(vec![[70_000, 0, 0]], &["minecraft:stone"]);
    assert_eq!(
        schemgen::sponge::encode_nbt(&long, &meta(), &Target::default_target(), 2),
        Err(FormatError::SideTooLong)
    );
}
