use lottery_stats::rng::Rng;
use lottery_stats::sim::{bet_wins, contains_u32, simulate_frequencies, simulate_gap_hits, simulate_presence};

#[test]
fn frequencies_count_every_sampled_number() {
    let mut rng = Rng::new(20260703);
    let freq = simulate_frequencies(&mut rng, 1000, 33, 6);
    assert_eq!(freq.len(), 34);
    assert_eq!(freq[0], 0);
    assert_eq!(freq.iter().sum::<u64>(), 6000);
    // the same draws, counted by hand
    let mut again = Rng::new(20260703);
    let mut by_hand = vec![0u64; 34];
    for _ in 0..1000 {
        for b in again.sample(33, 6) {
            by_hand[b as usize] += 1;
        }
    }
    assert_eq!(freq, by_hand);
    assert_eq!(rng.next_u64(), again.next_u64());
}

#[test]
fn gap_hits_agree_with_presence_sequence() {
    let mut a = Rng::new(42);
    let seq = simulate_presence(&mut a, 5000, 33, 6, 7);
    assert_eq!(seq.len(), 5000);
    let mut expect = [0u64; 2];
    for i in 1..seq.len() {
        if !seq[i - 1] {
            expect[if seq[i] { 0 } else { 1 }] += 1;
        }
    }
    let mut b = Rng::new(42);
    let gap = simulate_gap_hits(&mut b, 5000, 33, 6, 7);
    assert_eq!(gap, expect);
    let absent_before_last = seq[..seq.len() - 1].iter().filter(|&&x| !x).count() as u64;
    assert_eq!(gap[0] + gap[1], absent_before_last);
    assert_eq!(a.next_u64(), b.next_u64());
}

#[test]
fn bet_rows_follow_marks_in_order() {
    let mut rng = Rng::new(20260703);
    let (rows, wins) = bet_wins(&mut rng, 20000, 1000, 123, &[1000, 10000, 20000]);
    assert_eq!(rows.len(), 3);
    assert_eq!(rows[0].0, 1000);
    assert_eq!(rows[2], (20000, wins));
    assert!(rows[0].1 <= rows[1].1 && rows[1].1 <= rows[2].1);
    // counted by hand
    let mut again = Rng::new(20260703);
    let mut w = 0u32;
    for i in 1..=20000u32 {
        if again.below(1000) == 123 {
            w += 1;
        }
        if i == 10000 {
            assert_eq!(rows[1].1, w);
        }
    }
    assert_eq!(w, wins);
}

#[test]
fn marks_out_of_order_stop_the_rows() {
    let mut rng = Rng::new(3);
    let (rows, _) = bet_wins(&mut rng, 100, 10, 3, &[50, 20, 80]);
    assert_eq!(rows.len(), 1);
    assert_eq!(rows[0].0, 50);
}

#[test]
fn contains_finds_values() {
    assert!(contains_u32(&vec![3, 9, 27], 9));
    assert!(!contains_u32(&vec![3, 9, 27], 8));
    assert!(!contains_u32(&vec![], 1));
}
