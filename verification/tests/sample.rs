use schemgen::sample::{wrap_index, Wrap};

#[test]
fn wrap_modes() {
    assert_eq!(wrap_index(-1, 4, Wrap::Repeat), 3);
    assert_eq!(wrap_index(-1, 4, Wrap::Clamp), 0);
    assert_eq!(wrap_index(4, 4, Wrap::Mirror), 3);
    assert_eq!(wrap_index(-1, 4, Wrap::Mirror), 0);
    assert_eq!(wrap_index(9, 4, Wrap::Mirror), 1);
}

#[test]
fn every_mode_lands_inside_the_row() {
    for n in 1..6i64 {
        for i in -20..20i64 {
            for wrap in [Wrap::Repeat, Wrap::Clamp, Wrap::Mirror] {
                let k = wrap_index(i, n, wrap);
                assert!((0..n).contains(&k), "{i} {n} {wrap:?} -> {k}");
            }
        }
    }
}

#[test]
fn far_indices_wrap_exactly() {
    assert_eq!(wrap_index(i64::MIN, 3, Wrap::Repeat), i64::MIN.rem_euclid(3));
    assert_eq!(wrap_index(i64::MAX, 7, Wrap::Repeat), i64::MAX % 7);
    assert_eq!(wrap_index(i64::MIN, 5, Wrap::Clamp), 0);
    assert_eq!(wrap_index(i64::MAX, 5, Wrap::Clamp), 4);
    assert_eq!(wrap_index(-9, 4, Wrap::Mirror), 0);
    assert_eq!(wrap_index(13, 4, Wrap::Mirror), 2);
}
