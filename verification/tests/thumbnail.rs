use schemgen::grid::BlockGrid;
use schemgen::thumbnail::{
    bounds, draw_sprites, painter_order, premultiply, project, sprite, unpremultiply, Raster,
};

#[test]
fn sprite_is_a_hexagon_of_three_faces() {
    let s = sprite(4);
    let count = |f: u8| s.iter().filter(|&&p| p == f).count();
    // Top rhombus is half the 8×4 box above it; each side is a
    // parallelogram of the same area.
    assert_eq!(count(1), 16);
    assert_eq!(count(2), 16);
    assert_eq!(count(3), 16);
    // Corners of the box are outside the hexagon.
    assert_eq!(s[0], 0);
    assert_eq!(s[7], 0);
    assert_eq!(s[8 * 7], 0);
}

#[test]
fn sprites_cover_a_two_unit_square() {
    assert_eq!(sprite(1).len(), 4);
    assert_eq!(sprite(16).len(), 32 * 32);
}

#[test]
fn projection_is_isometric() {
    assert_eq!(project([0, 0, 0], 4), (0, 0));
    assert_eq!(project([1, 0, 0], 4), (4, 2));
    assert_eq!(project([0, 0, 1], 4), (-4, 2));
    assert_eq!(project([0, 1, 0], 4), (0, -4));
    // Halves round toward zero, as integer division does.
    assert_eq!(project([-1, 0, 0], 1), (-1, 0));
}

#[test]
fn painting_goes_back_to_front() {
    let grid = BlockGrid::from_indices(
        vec![[2, 0, 0], [0, 0, 0], [1, 0, 0], [0, 1, 1], [0, 0, 1]],
        &[0, 0, 0, 0, 0],
        &["minecraft:stone"],
    );
    let order: Vec<usize> = painter_order(&grid).iter().map(|p| p.1).collect();
    assert_eq!(order, vec![1, 2, 4, 0, 3]);
}

#[test]
fn blocks_of_equal_depth_keep_their_input_order() {
    let grid = BlockGrid::from_indices(
        vec![[0, 0, 2], [1, 1, 0], [2, 0, 0], [0, 2, 0], [0, 0, 0]],
        &[0, 0, 0, 0, 0],
        &["minecraft:stone"],
    );
    let order: Vec<usize> = painter_order(&grid).iter().map(|p| p.1).collect();
    assert_eq!(order, vec![4, 0, 1, 2, 3]);
}

/// Top, left and right faces of a block of color `rgb`, the sides darker.
fn shades(rgb: [u8; 3]) -> [[u8; 4]; 3] {
    let scale = |n: u16, d: u16| rgb.map(|c| (c as u16 * n / d) as u8);
    let [t, l, r] = [scale(1, 1), scale(4, 5), scale(3, 5)];
    [[t[0], t[1], t[2], 255], [l[0], l[1], l[2], 255], [r[0], r[1], r[2], 255]]
}

#[test]
fn a_single_block_is_its_sprite() {
    let g = BlockGrid::from_names(vec![[0, 0, 0]], &["minecraft:stone"]);
    assert_eq!(bounds(&g, 4), (-4, -4, 4, 4));
    let img = draw_sprites(&g, &[shades([200, 0, 0])], 4);
    assert_eq!((img.width, img.height), (8, 8));
    let s = sprite(4);
    for (k, p) in img.pixels.iter().enumerate() {
        match s[k] {
            0 => assert_eq!(*p, [0, 0, 0, 0]),
            f => assert_eq!(*p, shades([200, 0, 0])[f as usize - 1]),
        }
    }
}

#[test]
fn front_blocks_hide_back_blocks() {
    // A blue block directly in front of (and hiding) a red one.
    let g = BlockGrid::from_names(
        vec![[0, 0, 0], [1, 1, 1]],
        &["minecraft:red_concrete", "minecraft:blue_concrete"],
    );
    let colors: Vec<[[u8; 4]; 3]> = g
        .names
        .iter()
        .map(|n| shades(if n.contains("red") { [255, 0, 0] } else { [0, 0, 255] }))
        .collect();
    let img = draw_sprites(&g, &colors, 4);
    // The front block's sprite center.
    let (px, py) = project([1, 1, 1], 4);
    let (min_x, min_y, _, _) = bounds(&g, 4);
    let (cx, cy) = ((px - min_x) as u32, (py - min_y) as u32);
    let center = img.pixels[(cy * img.width + cx) as usize];
    assert!(center[2] > center[0], "front block wins: {center:?}");
}

#[test]
fn premultiplying_scales_by_alpha_and_back() {
    let r = Raster { width: 2, height: 1, pixels: vec![[200, 100, 0, 128], [10, 20, 30, 0]] };
    let p = premultiply(r);
    assert_eq!(p.pixels, vec![[100, 50, 0, 128], [0, 0, 0, 0]]);
    let back = unpremultiply(p);
    assert_eq!(back.pixels, vec![[199, 100, 0, 128], [0, 0, 0, 0]]);
    let opaque = Raster { width: 1, height: 1, pixels: vec![[1, 2, 3, 255]] };
    assert_eq!(unpremultiply(premultiply(opaque)).pixels, vec![[1, 2, 3, 255]]);
}
