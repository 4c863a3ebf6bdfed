use lottery_stats::odds::{binomial, jackpot_combos};

#[test]
fn binomials_are_exact() {
    assert_eq!(binomial(33, 6), 1_107_568);
    assert_eq!(binomial(35, 5), 324_632);
    assert_eq!(binomial(12, 2), 66);
    assert_eq!(binomial(30, 7), 2_035_800);
    assert_eq!(binomial(80, 10), 1_646_492_110_120);
    assert_eq!(binomial(20, 10), 184_756);
    assert_eq!(binomial(5, 0), 1);
    assert_eq!(binomial(5, 5), 1);
    assert_eq!(binomial(5, 6), 0);
    assert_eq!(binomial(0, 0), 1);
    assert_eq!(binomial(127, 63), 11_975_573_020_964_041_433_067_793_888_190_275_875_u128);
}

#[test]
fn jackpot_counts_match_the_rules() {
    let c = jackpot_combos();
    assert_eq!(
        c,
        vec![
            (17_721_088, 1),
            (21_425_712, 1),
            (1_000, 1),
            (1_000, 1),
            (100_000, 1),
            (15_000_000, 1),
            (2_035_800, 1),
            (1_646_492_110_120, 184_756),
        ]
    );
    let kl8 = c[7].0 as f64 / c[7].1 as f64;
    assert!((kl8 - 8_911_711.18).abs() < 0.01);
}
