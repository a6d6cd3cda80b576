use schemgen::scene::walk_order;

#[test]
fn the_last_root_and_the_last_child_come_first() {
    let children = vec![vec![2, 3], vec![], vec![], vec![]];
    assert_eq!(
        walk_order(&[0, 1], &children),
        vec![(None, 1), (None, 0), (Some(0), 3), (Some(0), 2)]
    );
}

#[test]
fn a_node_under_two_parents_is_visited_under_each() {
    let children = vec![vec![2], vec![2], vec![]];
    assert_eq!(
        walk_order(&[0, 1], &children),
        vec![(None, 1), (Some(1), 2), (None, 0), (Some(0), 2)]
    );
}

#[test]
fn a_cycle_ends_once_every_edge_was_taken() {
    let children = vec![vec![1], vec![0]];
    assert_eq!(
        walk_order(&[0], &children),
        vec![(None, 0), (Some(0), 1), (Some(1), 0)]
    );
    assert_eq!(walk_order(&[], &children), vec![]);
    assert_eq!(walk_order(&[0, 0], &[vec![]].to_vec()), vec![(None, 0)]);
}
