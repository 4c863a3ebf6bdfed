use lottery_stats::rng::Rng;
use lottery_stats::ssq::{
    coldest_hottest, gap_hits, has_red, hits, parse_draw_fields, parse_lines, pick_by_window, prediction_sums,
    presence, red_counts, Draw,
};

fn make_draws(rows: &[[u8; 6]]) -> Vec<Draw> {
    rows.iter()
        .map(|r| Draw { issue: "x".into(), date: "d".into(), reds: *r, blue: 1 })
        .collect()
}

#[test]
fn red_counts_tallies_each_ball() {
    let draws = make_draws(&[[1, 2, 3, 4, 5, 6], [1, 2, 3, 4, 5, 7]]);
    let c = red_counts(&draws);
    assert_eq!(c[1], 2);
    assert_eq!(c[6], 1);
    assert_eq!(c[7], 1);
    assert_eq!(c[8], 0);
}

#[test]
fn parses_valid_row() {
    let d = parse_draw_fields(&["2024001", "2024-01-02", "1", "7", "15", "22", "28", "33", "9"]).unwrap();
    assert_eq!(d.issue, "2024001");
    assert_eq!(d.reds, [1, 7, 15, 22, 28, 33]);
    assert_eq!(d.blue, 9);
}

#[test]
fn ssq_rejects_wrong_field_count() {
    assert!(parse_draw_fields(&["2024001", "1", "2", "3"]).is_err());
}

#[test]
fn rejects_red_out_of_range() {
    assert!(parse_draw_fields(&["x", "d", "0", "7", "15", "22", "28", "33", "9"]).is_err());
    assert!(parse_draw_fields(&["x", "d", "1", "7", "15", "22", "28", "34", "9"]).is_err());
}

#[test]
fn rejects_duplicate_reds() {
    assert!(parse_draw_fields(&["x", "d", "7", "7", "15", "22", "28", "33", "9"]).is_err());
}

#[test]
fn rejects_blue_out_of_range() {
    assert!(parse_draw_fields(&["x", "d", "1", "7", "15", "22", "28", "33", "17"]).is_err());
    assert!(parse_draw_fields(&["x", "d", "1", "7", "15", "22", "28", "33", "0"]).is_err());
}

#[test]
fn parse_lines_skips_comments_blank_header_and_bad_rows() {
    let content = "\
# 注释行
期号,日期,红1,红2,红3,红4,红5,红6,蓝

2024001,2024-01-02,1,7,15,22,28,33,9
2024002,2024-01-04,3,5,11,19,26,31,99
2024003,2024-01-06,2,4,6,8,10,12,3
";
    let (draws, skips) = parse_lines(content);
    assert_eq!(draws.len(), 2, "应解析 2 期有效数据");
    assert_eq!(skips.len(), 1, "蓝球=99 的一行应被跳过");
}

// ---- further cases

#[test]
fn draw_messages_are_exact() {
    let e = |f: &[&str]| parse_draw_fields(f).err().unwrap();
    assert_eq!(e(&["2024001", "1", "2", "3"]), "字段数应为 9,实际 4");
    assert_eq!(e(&["x", "d", "1", " y", "3", "4", "5", "6", "9"]), "红球 ' y' 非法整数");
    assert_eq!(e(&["x", "d", "1", "7", "15", "22", "28", "34", "9"]), "红球 34 超出 1-33");
    assert_eq!(e(&["x", "d", "300", "7", "15", "22", "28", "33", "9"]), "红球 '300' 非法整数");
    assert_eq!(e(&["x", "d", "7", "7", "15", "22", "28", "33", "9"]), "红球重复:7");
    assert_eq!(e(&["x", "d", "1", "7", "15", "22", "28", "33", "b"]), "蓝球 'b' 非法整数");
    assert_eq!(e(&["x", "d", "1", "7", "15", "22", "28", "33", "17"]), "蓝球 17 超出 1-16");
}

#[test]
fn reds_are_sorted() {
    let d = parse_draw_fields(&["1", "d", "33", "7", "1", "22", "28", "15", "16"]).unwrap();
    assert_eq!(d.reds, [1, 7, 15, 22, 28, 33]);
    assert_eq!(d.blue, 16);
}

#[test]
fn hot_and_cold_picks_break_ties_by_number() {
    let mut c = [0u64; 34];
    for k in 1..=6 {
        c[k] = 5;
    }
    c[20] = 9;
    assert_eq!(pick_by_window(&c, true), [20, 1, 2, 3, 4, 5]);
    assert_eq!(pick_by_window(&c, false), [7, 8, 9, 10, 11, 12]);
}

#[test]
fn hits_counts_common_balls() {
    let d = make_draws(&[[1, 2, 3, 4, 5, 6]]);
    assert_eq!(hits(&[1, 3, 5, 7, 9, 11], &d[0]), 3);
    assert_eq!(hits(&[7, 8, 9, 10, 11, 12], &d[0]), 0);
}

#[test]
fn hot_strategy_wins_on_rigged_data() {
    // every draw is [1..6]: after the window the hot pick is exactly {1..6}
    let rows: Vec<[u8; 6]> = (0..40).map(|_| [1, 2, 3, 4, 5, 6]).collect();
    let draws = make_draws(&rows);
    let mut rng = Rng::new(1);
    let s = prediction_sums(&draws, 30, &mut rng);
    let hot = s.hot as f64 / s.n as f64;
    let cold = s.cold as f64 / s.n as f64;
    assert!((hot - 6.0).abs() < 1e-9, "hot={}", hot);
    assert!(cold.abs() < 1e-9, "cold={}", cold);
    assert!(s.n > 0);
}

#[test]
fn prediction_sums_counts_backtested_draws() {
    let rows: Vec<[u8; 6]> = (0..40).map(|_| [1, 2, 3, 4, 5, 6]).collect();
    let draws = make_draws(&rows);
    let mut rng = Rng::new(1);
    let s = prediction_sums(&draws, 30, &mut rng);
    assert_eq!(s.n, 10);
    assert_eq!(s.hot, 60);
    assert_eq!(s.cold, 0);
    // the random pick replays the generator: same seed, same total
    let mut again = Rng::new(1);
    let mut total = 0u64;
    for i in 30..40 {
        let v = again.sample(33, 6);
        let pred = [v[0] as u8, v[1] as u8, v[2] as u8, v[3] as u8, v[4] as u8, v[5] as u8];
        total += hits(&pred, &draws[i]) as u64;
    }
    assert_eq!(s.random, total);
    assert_eq!(rng.next_u64(), again.next_u64());
}

#[test]
fn prediction_sums_short_history_is_empty() {
    let draws = make_draws(&[[1, 2, 3, 4, 5, 6]; 30]);
    let mut rng = Rng::new(5);
    let s = prediction_sums(&draws, 30, &mut rng);
    assert_eq!((s.cold, s.hot, s.random, s.n), (0, 0, 0, 0));
    assert_eq!(rng.next_u64(), Rng::new(5).next_u64());
}

#[test]
fn red_counts_add_up_to_six_per_draw() {
    let draws = make_draws(&[[1, 2, 3, 4, 5, 6], [7, 9, 11, 13, 15, 33], [1, 7, 15, 22, 28, 33]]);
    let c = red_counts(&draws);
    assert_eq!(c.iter().sum::<u64>(), 18);
    assert_eq!(c[0], 0);
    assert_eq!(c[33], 2);
}

#[test]
fn presence_and_gap_hits_follow_absent_draws() {
    // ball 7: absent, present, absent, absent, present
    let draws = make_draws(&[
        [1, 2, 3, 4, 5, 6],
        [7, 8, 9, 10, 11, 12],
        [1, 2, 3, 4, 5, 6],
        [1, 2, 3, 4, 5, 6],
        [2, 7, 9, 10, 11, 12],
    ]);
    assert!(!has_red(&draws[0], 7));
    assert!(has_red(&draws[4], 7));
    assert_eq!(presence(&draws, 7), vec![false, true, false, false, true]);
    // after the 1st (absent): present; after the 3rd: absent; after the 4th: present
    assert_eq!(gap_hits(&draws, 7), [2, 1]);
    assert_eq!(gap_hits(&draws[..1], 7), [0, 0]);
}

#[test]
fn coldest_and_hottest_break_ties_like_a_stable_sort() {
    let mut c = [5u64; 34];
    c[4] = 2;
    c[9] = 2;
    c[12] = 8;
    c[30] = 8;
    assert_eq!(coldest_hottest(&c), (4, 30));
    let flat = [3u64; 34];
    assert_eq!(coldest_hottest(&flat), (1, 33));
}
