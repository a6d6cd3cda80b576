use schemgen::voxel::{cell_key, key_cell};

#[test]
fn keys_pack_x_major() {
    let dims = [4, 3, 5];
    assert_eq!(cell_key([0, 0, 0], dims), 0);
    assert_eq!(cell_key([0, 0, 4], dims), 4);
    assert_eq!(cell_key([0, 1, 0], dims), 5);
    assert_eq!(cell_key([1, 0, 0], dims), 15);
    assert_eq!(cell_key([3, 2, 4], dims), 59);
}

#[test]
fn points_outside_the_grid_land_on_its_edge() {
    let dims = [4, 3, 5];
    assert_eq!(cell_key([-7, 1, 99], dims), cell_key([0, 1, 4], dims));
    assert_eq!(cell_key([i32::MAX, i32::MIN, 2], dims), cell_key([3, 0, 2], dims));
}

#[test]
fn every_key_reads_back_as_its_cell() {
    let dims = [3, 4, 2];
    let mut keys = Vec::new();
    for x in 0..3 {
        for y in 0..4 {
            for z in 0..2 {
                let key = cell_key([x, y, z], dims);
                assert_eq!(key_cell(key, dims), [x, y, z]);
                keys.push(key);
            }
        }
    }
    // Cells visited x, then y, then z give increasing keys.
    assert!(keys.windows(2).all(|w| w[0] < w[1]));
    assert_eq!(keys.len(), 24);
}
