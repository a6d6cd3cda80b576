use schemgen::rng::NumpyRng;

fn random(rng: &mut NumpyRng) -> f64 {
    (rng.next_u64() >> 11) as f64 * (1.0 / 9_007_199_254_740_992.0)
}

#[test]
fn seeding_matches_numpy() {
    let rng = NumpyRng::new(0x5CE2);
    assert_eq!(rng.state, 0xe528_dbe1_3dcf_b74e_88ee_3210_b4d8_3fbb);
    assert_eq!(rng.increment, 0xd4a4_06e5_543d_cca9_1fbb_b562_efc7_ac0b);
}

#[test]
fn draws_match_numpy() {
    let mut rng = NumpyRng::new(0x5CE2);
    let expected: [u64; 5] = [
        0x3fd4_8ea6_7a94_fafa,
        0x3fc5_a136_c8ca_abb0,
        0x3fef_30d6_a979_436a,
        0x3fe1_faa3_9c89_a860,
        0x3fc2_d93c_9674_a000,
    ];
    for bits in expected {
        assert_eq!(random(&mut rng).to_bits(), bits);
    }
    let mut rng = NumpyRng::new(0x5CE2);
    assert_eq!(rng.next_u64(), 0x523a_99ea_53eb_eb10);
}

#[test]
fn other_seeds_match_numpy() {
    for (seed, bits) in [
        (0u64, 0x3fe4_61fd_79fb_3850u64),
        (1, 0x3fe0_60d7_be6f_245c),
        (0xffff_ffff, 0x3fd0_1fd7_ea4c_363e),
        (0x1_0000_0000, 0x3fec_78bd_7c50_b582),
        (u64::MAX, 0x3fe5_c2c7_4f51_88ea),
    ] {
        assert_eq!(random(&mut NumpyRng::new(seed)).to_bits(), bits, "seed {seed:#x}");
    }
}

#[test]
fn advance_skips_exactly() {
    let mut stepped = NumpyRng::new(0x5CE2);
    for _ in 0..1000 {
        random(&mut stepped);
    }
    let mut jumped = NumpyRng::new(0x5CE2);
    jumped.advance(1000);
    assert_eq!(random(&mut jumped).to_bits(), 0x3fef_ee14_76a8_0be9);
    assert_eq!(random(&mut stepped).to_bits(), 0x3fef_ee14_76a8_0be9);
    assert_eq!(
        random(&mut NumpyRng::new(7).skipped(0)),
        random(&mut NumpyRng::new(7))
    );
}

#[test]
fn skipping_twice_is_skipping_the_sum() {
    let a = NumpyRng::new(42).skipped(123_456).skipped(789);
    let b = NumpyRng::new(42).skipped(123_456 + 789);
    assert_eq!((a.state, a.increment), (b.state, b.increment));
    let mut c = NumpyRng::new(42);
    for _ in 0..(123_456 + 789) {
        c.next_u64();
    }
    assert_eq!(c.state, b.state);
}
