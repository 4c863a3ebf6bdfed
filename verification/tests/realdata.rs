use lottery_stats::game_spec::{real_data_games, GameSpec};
use lottery_stats::realdata::{parse_lines, parse_record};

fn ssq() -> GameSpec {
    real_data_games().into_iter().find(|g| g.key == "ssq").unwrap()
}

fn d3() -> GameSpec {
    real_data_games().into_iter().find(|g| g.key == "d3").unwrap()
}

#[test]
fn parses_pool_game_row() {
    let d = parse_record(&ssq(), &["2024001", "2024-01-02", "7", "1", "33", "15", "22", "28", "9"]).unwrap();
    assert_eq!(d.components[0], vec![1, 7, 15, 22, 28, 33]);
    assert_eq!(d.components[1], vec![9]);
}

#[test]
fn parses_digit_game_row_keeps_order_and_repeats() {
    let d = parse_record(&d3(), &["2024001", "2024-01-02", "7", "7", "2"]).unwrap();
    assert_eq!(d.components[0], vec![7, 7, 2]);
}

#[test]
fn realdata_rejects_wrong_field_count() {
    assert!(parse_record(&ssq(), &["2024001", "2024-01-02", "1", "2", "3"]).is_err());
}

#[test]
fn rejects_pool_out_of_range_and_dupes() {
    assert!(parse_record(&ssq(), &["i", "d", "0", "7", "15", "22", "28", "33", "9"]).is_err());
    assert!(parse_record(&ssq(), &["i", "d", "7", "7", "15", "22", "28", "33", "9"]).is_err());
    assert!(parse_record(&ssq(), &["i", "d", "1", "7", "15", "22", "28", "33", "17"]).is_err());
}

#[test]
fn rejects_digit_out_of_range() {
    assert!(parse_record(&d3(), &["i", "d", "7", "7", "10"]).is_err());
}

#[test]
fn parse_lines_skips_comment_blank_header_and_bad() {
    let content = "\
# 注释
期号,日期,红,红,红,红,红,红,蓝

2024001,2024-01-02,1,7,15,22,28,33,9
2024002,2024-01-04,3,5,11,19,26,31,99
2024003,2024-01-06,2,4,6,8,10,12,3
";
    let (draws, skips) = parse_lines(&ssq(), content);
    assert_eq!(draws.len(), 2);
    assert_eq!(skips.len(), 1);
}

// ---- further cases

#[test]
fn record_messages_are_exact() {
    let g = ssq();
    let e = |f: &[&str]| parse_record(&g, f).err().unwrap();
    assert_eq!(e(&["1", "2", "3"]), "字段数应为 9,实际 3");
    assert_eq!(e(&["i", "d", "1", " x ", "3", "4", "5", "6", "7"]), "'x' 非法整数");
    assert_eq!(e(&["i", "d", "1", "2", "3", "4", "5", "34", "7"]), "号 34 超出 1-33");
    assert_eq!(e(&["i", "d", "5", "2", "3", "2", "5", "6", "7"]), "号重复:5");
    assert_eq!(e(&["i", "d", "1", "2", "3", "4", "5", "6", "0"]), "号 0 超出 1-16");
    assert_eq!(
        parse_record(&d3(), &["i", "d", "1", "10", "2"]).err().unwrap(),
        "第 2 位值 10 超出 0-9"
    );
}

#[test]
fn record_trims_fields_and_accepts_plus_sign() {
    let d = parse_record(&ssq(), &[" 2024001 ", " 2024-01-02", "+7", " 1", "33 ", "15", "22", "28", "9"]).unwrap();
    assert_eq!(d.issue, "2024001");
    assert_eq!(d.date, "2024-01-02");
    assert_eq!(d.components[0], vec![1, 7, 15, 22, 28, 33]);
}

#[test]
fn record_rejects_overflowing_number() {
    assert_eq!(
        parse_record(&d3(), &["i", "d", "1", "4294967296", "2"]).err().unwrap(),
        "'4294967296' 非法整数"
    );
}

#[test]
fn parse_lines_reports_line_numbers_and_reasons() {
    let content = "2024001,d,1,7,15,22,28,33,9\r\n\r\nabc,1\n2024002,d,1,1,2,3,4,5,6\n";
    let (draws, skips) = parse_lines(&ssq(), content);
    assert_eq!(draws.len(), 1);
    assert_eq!(skips.len(), 1);
    assert_eq!(skips[0].line, 4);
    assert_eq!(skips[0].reason, "号重复:1");
}

#[test]
fn parse_lines_on_empty_text_is_empty() {
    let (draws, skips) = parse_lines(&d3(), "");
    assert!(draws.is_empty());
    assert!(skips.is_empty());
}
