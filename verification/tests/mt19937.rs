use chronos::mt19937::MT19937;

#[test]
fn init_by_array_matches_c_reference() {
    let mut mt = MT19937::new();
    mt.init_by_array(&[0x123, 0x234, 0x345, 0x456]);
    let expected: [u32; 10] = [
        1_067_595_299, 955_945_823, 477_289_528, 4_107_218_783, 4_228_976_476,
        3_344_332_714, 3_355_579_695, 227_628_506, 810_200_273, 2_591_290_167,
    ];
    for &want in &expected {
        assert_eq!(mt.genrand_int32(), want);
    }
}

#[test]
fn default_seed_matches_c_reference() {
    let mut mt = MT19937::new();
    mt.init_genrand(5489);
    assert_eq!(mt.genrand_int32(), 3_499_211_612);
    assert_eq!(mt.genrand_int32(), 581_869_302);
}

#[test]
fn unseeded_generator_uses_default_seed() {
    let mut mt = MT19937::new();
    assert_eq!(mt.genrand_int32(), 3_499_211_612);
    assert_eq!(mt.genrand_int32(), 581_869_302);
}

#[test]
fn same_seed_same_sequence() {
    let mut a = MT19937::new();
    let mut b = MT19937::new();
    a.init_by_array(&[1, 2, 3]);
    b.init_by_array(&[1, 2, 3]);
    for _ in 0..1000 {
        assert_eq!(a.genrand_int32(), b.genrand_int32());
    }
}
