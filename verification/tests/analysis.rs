use lottery_stats::analysis::{
    analysis_ready, coverage, default_target, digit_counts, game_counts, overlap, pick_digit, pick_pool, pick_top,
    pool_counts, prediction_totals, strategy_picks, target_gap_hits, target_hit, target_presence, TargetKind,
};
use lottery_stats::game_spec::{real_data_games, Component, GameSpec};
use lottery_stats::realdata::{parse_lines, DrawRecord};
use lottery_stats::rng::Rng;

fn rec(components: Vec<Vec<u32>>) -> DrawRecord {
    DrawRecord { issue: "1".into(), date: "d".into(), components }
}

fn game(key: &str) -> GameSpec {
    real_data_games().into_iter().find(|g| g.key == key).unwrap()
}

#[test]
fn pool_counts_tally() {
    let draws = vec![rec(vec![vec![1, 2, 3, 4, 5, 6], vec![9]]), rec(vec![vec![1, 2, 3, 4, 5, 7], vec![3]])];
    let c = pool_counts(&draws, 0, 33);
    assert_eq!(c.len(), 34);
    assert_eq!(c[1], 2);
    assert_eq!(c[6], 1);
    assert_eq!(c[7], 1);
    assert_eq!(c[8], 0);
    let blue = pool_counts(&draws, 1, 16);
    assert_eq!((blue[9], blue[3], blue[1]), (1, 1, 0));
}

#[test]
fn digit_counts_tally() {
    let draws = vec![rec(vec![vec![7, 7, 2]]), rec(vec![vec![7, 0, 2]])];
    let pos0 = digit_counts(&draws, 0, 0, 10);
    assert_eq!(pos0.len(), 10);
    assert_eq!(pos0[7], 2);
    assert_eq!(pos0[0], 0);
    let pos1 = digit_counts(&draws, 0, 1, 10);
    assert_eq!(pos1[7], 1);
    assert_eq!(pos1[0], 1);
}

#[test]
fn target_hit_pool_and_digit() {
    let pool_rec = rec(vec![vec![1, 7, 15, 22, 28, 33], vec![9]]);
    assert!(target_hit(&pool_rec, 0, &TargetKind::PoolBall(7)));
    assert!(!target_hit(&pool_rec, 0, &TargetKind::PoolBall(8)));
    let digit_rec = rec(vec![vec![7, 0, 2]]);
    assert!(target_hit(&digit_rec, 0, &TargetKind::DigitAt { pos: 0, digit: 7 }));
    assert!(!target_hit(&digit_rec, 0, &TargetKind::DigitAt { pos: 0, digit: 3 }));
}

#[test]
fn default_target_values() {
    assert_eq!(default_target(&Component::Pool { label: "x", size: 33, pick: 6 }), TargetKind::PoolBall(7));
    assert_eq!(default_target(&Component::Pool { label: "x", size: 5, pick: 1 }), TargetKind::PoolBall(5));
    assert_eq!(
        default_target(&Component::Digits { label: "x", bases: vec![10, 10, 10] }),
        TargetKind::DigitAt { pos: 0, digit: 7 }
    );
    assert_eq!(
        default_target(&Component::Digits { label: "x", bases: vec![4, 10] }),
        TargetKind::DigitAt { pos: 0, digit: 3 }
    );
}

#[test]
fn tracked_number_presence_and_gaps() {
    let draws = vec![
        rec(vec![vec![1, 2, 3, 4, 5, 6], vec![1]]),
        rec(vec![vec![2, 7, 9, 10, 11, 12], vec![1]]),
        rec(vec![vec![1, 2, 3, 4, 5, 6], vec![1]]),
        rec(vec![vec![1, 2, 3, 4, 5, 6], vec![1]]),
        rec(vec![vec![7, 8, 9, 10, 11, 12], vec![1]]),
    ];
    let t = TargetKind::PoolBall(7);
    assert_eq!(target_presence(&draws, 0, &t), vec![false, true, false, false, true]);
    assert_eq!(target_gap_hits(&draws, 0, &t), [2, 1]);
}

#[test]
fn ranked_picks_break_ties_by_number() {
    let mut wc = vec![0u64; 34];
    for k in 1..=6 {
        wc[k] = 10;
    }
    wc[20] = 12;
    assert_eq!(pick_pool(&wc, 33, 6, true), vec![20, 1, 2, 3, 4, 5]);
    assert_eq!(pick_pool(&wc, 33, 6, false), vec![7, 8, 9, 10, 11, 12]);
    // more asked than available: all of them
    assert_eq!(pick_pool(&vec![0, 3, 1, 2], 3, 5, true), vec![1, 3, 2]);
    assert_eq!(pick_digit(&[4, 1, 1, 9], false), 1);
    assert_eq!(pick_digit(&[4, 1, 1, 9], true), 3);
    assert_eq!(pick_top(&[5, 5, 5], 0, 2, 0, true), Vec::<u32>::new());
}

#[test]
fn overlap_counts_common_numbers() {
    assert_eq!(overlap(&[1, 3, 5, 7], &[1, 2, 3, 4]), 2);
    assert_eq!(overlap(&[], &[1]), 0);
    assert_eq!(overlap(&[9, 9], &[9]), 2);
}

#[test]
fn pool_hot_wins_on_rigged_data() {
    let ssq = game("ssq");
    let rows: Vec<DrawRecord> = (0..40).map(|_| rec(vec![vec![1, 2, 3, 4, 5, 6], vec![9]])).collect();
    let mut rng = Rng::new(1);
    let (n, sums) = prediction_totals(&ssq, &rows, 30, &mut rng);
    assert!(n > 0);
    // component 0 (red): the hot pick hits all six every time, the cold pick none
    let hot = sums[0][1] as f64 / n as f64;
    let cold = sums[0][0] as f64 / n as f64;
    assert!((hot - 6.0).abs() < 1e-9, "hot={}", hot);
    assert!(cold.abs() < 1e-9, "cold={}", cold);
    assert_eq!(n, 10);
    assert_eq!(sums.len(), 2);
    // blue is always 9: the hot blue pick is 9
    assert_eq!(sums[1][1], 10);
}

#[test]
fn digit_hot_wins_on_rigged_data() {
    let d3 = game("d3");
    let rows: Vec<DrawRecord> = (0..40).map(|_| rec(vec![vec![7, 7, 7]])).collect();
    let mut rng = Rng::new(2);
    let (n, sums) = prediction_totals(&d3, &rows, 30, &mut rng);
    assert!(n > 0);
    let hot = sums[0][1] as f64 / n as f64;
    let cold = sums[0][0] as f64 / n as f64;
    assert!((hot - 3.0).abs() < 1e-9, "hot={}", hot);
    assert!(cold.abs() < 1e-9, "cold={}", cold);
}

#[test]
fn short_history_has_no_backtest() {
    let ssq = game("ssq");
    let rows: Vec<DrawRecord> = (0..30).map(|_| rec(vec![vec![1, 2, 3, 4, 5, 6], vec![9]])).collect();
    let mut rng = Rng::new(3);
    let (n, sums) = prediction_totals(&ssq, &rows, 30, &mut rng);
    assert_eq!(n, 0);
    assert!(sums.is_empty());
    assert_eq!(rng.next_u64(), Rng::new(3).next_u64());
}

#[test]
fn strategy_picks_hot_cold_random() {
    let ssq = game("ssq");
    let rows: Vec<DrawRecord> = (0..10).map(|_| rec(vec![vec![1, 2, 3, 4, 5, 6], vec![1]])).collect();
    let mut rng = Rng::new(1);
    let picks = strategy_picks(&ssq, &rows, &mut rng);
    assert_eq!(picks.len(), 3);
    assert_eq!(picks[0].strategy, "冷号");
    assert_eq!(picks[1].strategy, "热号");
    assert_eq!(picks[2].strategy, "机选");
    assert_eq!(picks[0].ticket.len(), 2);
    assert_eq!(picks[1].ticket[0], vec![1, 2, 3, 4, 5, 6]);
    assert_eq!(picks[0].ticket[0], vec![7, 8, 9, 10, 11, 12]);
    assert_eq!(picks[1].ticket[1], vec![1]);
    assert_eq!(picks[0].ticket[1], vec![2]);
    let r = &picks[2].ticket[0];
    assert_eq!(r.len(), 6);
    assert!(r.iter().all(|&n| (1..=33).contains(&n)));
    // the random ticket replays the generator
    let mut again = Rng::new(1);
    assert_eq!(&again.sample(33, 6), r);
    assert_eq!(picks[2].ticket[1], again.sample(16, 1));
}

#[test]
fn coverage_of_history() {
    let draws = vec![
        DrawRecord { issue: "2024001".into(), date: "2024-01-02".into(), components: vec![vec![3, 8, 1]] },
        DrawRecord { issue: "2024002".into(), date: "2024-01-03".into(), components: vec![vec![0, 5, 9]] },
    ];
    let c = coverage(&draws);
    assert_eq!(c.first_issue, "2024001");
    assert_eq!(c.first_date, "2024-01-02");
    assert_eq!(c.last_issue, "2024002");
    assert_eq!(c.last_date, "2024-01-03");
    assert_eq!(c.count, 2);
    assert_eq!(c.latest, vec![vec![0, 5, 9]]);
}

#[test]
fn parsed_history_is_ready_for_analysis() {
    let d3 = game("d3");
    let content = "2024001,2024-01-02,3,8,1\n2024002,2024-01-03,0,5,9\n2024003,2024-01-04,7,7,2\n";
    let (draws, skips) = parse_lines(&d3, content);
    assert_eq!((draws.len(), skips.len()), (3, 0));
    assert!(analysis_ready(&d3, &draws));
    assert!(!analysis_ready(&d3, &[]));
    // a record that does not fit the game is refused
    let bad = vec![rec(vec![vec![3, 8, 10]])];
    assert!(!analysis_ready(&d3, &bad));
    let unsorted = vec![rec(vec![vec![2, 1, 3, 4, 5, 6], vec![1]])];
    assert!(!analysis_ready(&game("ssq"), &unsorted));
}

#[test]
fn game_counts_runs_every_count() {
    let d3 = game("d3");
    let content = "2024001,2024-01-02,3,8,1\n2024002,2024-01-03,0,5,9\n2024003,2024-01-04,7,7,2\n2024004,2024-01-05,1,4,6\n2024005,2024-01-06,9,0,3\n";
    let (draws, _) = parse_lines(&d3, content);
    let mut rng = Rng::new(20260703);
    let g = game_counts(&d3, &draws, &mut rng);
    assert_eq!(g.coverage.count, 5);
    assert_eq!(g.components.len(), 1);
    let cc = &g.components[0];
    assert_eq!(cc.tallies.len(), 3);
    assert_eq!(cc.tallies[0], vec![1, 1, 0, 1, 0, 0, 0, 1, 0, 1]);
    assert_eq!(cc.target, TargetKind::DigitAt { pos: 0, digit: 7 });
    assert_eq!(cc.presence, vec![false, false, true, false, false]);
    assert_eq!(cc.gap, [1, 2]);
    assert_eq!(g.pred_n, 0);
    assert!(g.pred.is_empty());
    assert_eq!(g.picks.len(), 3);
    // coldest value per position, ties to the smaller value
    assert_eq!(g.picks[0].ticket[0], vec![2, 1, 0]);
    assert_eq!(g.picks[1].ticket[0], vec![0, 0, 1]);
}
