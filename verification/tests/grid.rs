use schemgen::grid::BlockGrid;

fn sample() -> BlockGrid {
    BlockGrid::from_names(
        vec![[0, 0, 0], [2, 0, 0], [0, 3, 1], [1, 1, 1]],
        &["minecraft:stone", "minecraft:dirt", "minecraft:stone", "minecraft:stone"],
    )
}

#[test]
fn palette_is_sorted_and_indexed() {
    let g = sample();
    assert_eq!(g.names, ["minecraft:dirt", "minecraft:stone"]);
    assert_eq!(g.blocks, [1, 0, 1, 1]);
    assert_eq!(g.name_at(1), "minecraft:dirt");
}

#[test]
fn indices_that_share_a_name_collapse() {
    let names = ["minecraft:stone", "minecraft:dirt", "minecraft:stone"];
    let g = BlockGrid::from_indices(vec![[0, 0, 0], [1, 0, 0], [2, 0, 0]], &[2, 1, 0], &names);
    assert_eq!(g.names, ["minecraft:dirt", "minecraft:stone"]);
    assert_eq!(g.blocks, [1, 0, 1]);
    assert_eq!(
        g,
        BlockGrid::from_names(
            g.coords.clone(),
            &["minecraft:stone", "minecraft:dirt", "minecraft:stone"],
        )
    );
}

#[test]
fn size_is_tight() {
    let g = sample();
    assert_eq!(g.size, [3, 4, 2]);
    assert_eq!(g.volume(), 24);
}

#[test]
fn materials_are_most_used_first() {
    let m = sample().materials();
    assert_eq!(m[0].name, "minecraft:stone");
    assert_eq!(m[0].count, 3);
    assert_eq!(m[1].count, 1);
}

#[test]
fn material_ties_go_by_name() {
    let g = BlockGrid::from_names(
        vec![[0, 0, 0], [1, 0, 0], [2, 0, 0], [3, 0, 0], [4, 0, 0]],
        &["minecraft:b", "minecraft:a", "minecraft:c", "minecraft:c", "minecraft:a"],
    );
    let m = g.materials();
    let order: Vec<(&str, u64)> = m.iter().map(|x| (x.name.as_str(), x.count)).collect();
    assert_eq!(order, [("minecraft:a", 2), ("minecraft:c", 2), ("minecraft:b", 1)]);
    assert_eq!(g.counts(), [2, 1, 2]);
}

#[test]
fn empty_grid_has_no_extent() {
    let g = BlockGrid::from_names(vec![], &[]);
    assert!(g.is_empty());
    assert_eq!(g.len(), 0);
    assert_eq!(g.size, [0, 0, 0]);
    assert_eq!(g.volume(), 0);
}

#[test]
fn negative_coordinates_count_as_zero_for_the_extent() {
    let g = BlockGrid::from_names(vec![[-3, 0, 0], [0, 2, 0]], &["a:x", "a:x"]);
    assert_eq!(g.size, [1, 3, 1]);
}
