use schemgen::formats::Metadata;
use schemgen::grid::BlockGrid;
use schemgen::reader::{read_gzip, Tag};
use schemgen::structure::encode;
use schemgen::targets::Target;

#[test]
fn lists_placed_blocks_only() {
    let g = BlockGrid::from_names(
        vec![[2, 0, 1], [0, 1, 0], [1, 0, 0]],
        &["minecraft:stone", "minecraft:dirt", "minecraft:stone"],
    );
    let meta = Metadata::new("s", 0);
    let bytes = encode(&g, &meta, &Target::named("1.19.4").unwrap()).unwrap();
    let (_, root) = read_gzip(bytes.as_slice()).unwrap();
    assert_eq!(root.get("DataVersion"), Some(&Tag::Int(3337)));
    assert_eq!(
        root.get("size"),
        Some(&Tag::List(vec![Tag::Int(3), Tag::Int(2), Tag::Int(2)]))
    );
    let palette: Vec<&str> = root
        .get("palette")
        .and_then(Tag::as_list)
        .unwrap()
        .iter()
        .map(|p| p.get("Name").and_then(Tag::as_str).unwrap())
        .collect();
    assert_eq!(palette, ["minecraft:dirt", "minecraft:stone"]);
    let blocks = root.get("blocks").and_then(Tag::as_list).unwrap();
    assert_eq!(blocks.len(), 3);
    // y first: the dirt at y=1 comes last.
    let last = &blocks[2];
    assert_eq!(
        last.get("pos"),
        Some(&Tag::List(vec![Tag::Int(0), Tag::Int(1), Tag::Int(0)]))
    );
    assert_eq!(last.get("state"), Some(&Tag::Int(0)));
    assert_eq!(root.get("entities"), Some(&Tag::List(vec![])));
}

#[test]
fn blocks_come_layer_by_layer_then_row_by_row() {
    let g = BlockGrid::from_names(
        vec![[1, 1, 0], [0, 0, 1], [1, 0, 0], [0, 0, 0], [0, 1, 1]],
        &["a:a", "a:b", "a:c", "a:d", "a:e"],
    );
    let bytes = encode(&g, &Metadata::new("s", 0), &Target::default_target()).unwrap();
    let (_, root) = read_gzip(bytes.as_slice()).unwrap();
    let blocks = root.get("blocks").and_then(Tag::as_list).unwrap();
    let positions: Vec<Vec<i64>> = blocks
        .iter()
        .map(|b| {
            b.get("pos")
                .and_then(Tag::as_list)
                .unwrap()
                .iter()
                .map(|v| v.as_i64().unwrap())
                .collect()
        })
        .collect();
    assert_eq!(
        positions,
        [vec![0, 0, 0], vec![1, 0, 0], vec![0, 0, 1], vec![1, 1, 0], vec![0, 1, 1]]
    );
}
