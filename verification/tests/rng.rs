use lottery_stats::rng::Rng;

#[test]
fn same_seed_same_sequence() {
    let mut a = Rng::new(20260703);
    let mut b = Rng::new(20260703);
    for _ in 0..100 {
        assert_eq!(a.next_u64(), b.next_u64());
    }
}

#[test]
fn splitmix_seeding_matches_reference_values() {
    // splitmix64 from seed 0: the outputs after one and two further advances
    let mut r = Rng::new(0);
    let x = r.next_u64();
    // state is (mix(2C), mix(3C)) with C = 0x9E3779B97F4A7C15
    let c: u64 = 0x9E3779B97F4A7C15;
    let mix = |z: u64| {
        let mut x = z;
        x = (x ^ (x >> 30)).wrapping_mul(0xBF58476D1CE4E5B9);
        x = (x ^ (x >> 27)).wrapping_mul(0x94D049BB133111EB);
        x ^ (x >> 31)
    };
    let s0 = mix(c.wrapping_mul(2));
    let s1 = mix(c.wrapping_mul(3));
    let mut t = s0;
    t ^= t << 23;
    let n1 = t ^ s1 ^ (t >> 17) ^ (s1 >> 26);
    assert_eq!(x, n1.wrapping_add(s1));
}

#[test]
fn below_stays_in_range() {
    let mut r = Rng::new(7);
    for n in 1..50u64 {
        assert!(r.below(n) < n);
    }
    assert_eq!(r.below(1), 0);
}

#[test]
fn sample_gives_sorted_distinct_numbers() {
    let mut r = Rng::new(1);
    for _ in 0..50 {
        let s = r.sample(33, 6);
        assert_eq!(s.len(), 6);
        for w in s.windows(2) {
            assert!(w[0] < w[1]);
        }
        assert!(s.iter().all(|&x| 1 <= x && x <= 33));
    }
    let all = r.sample(5, 5);
    assert_eq!(all, vec![1, 2, 3, 4, 5]);
    assert!(r.sample(5, 0).is_empty());
}
