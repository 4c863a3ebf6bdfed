use lottery_stats::fetch::{build_csv, build_url, clean_date, map_entry, parse_result_entries, Entry};
use lottery_stats::game_spec::{real_data_games, GameSpec};

const SAMPLE: &str = r#"{"state":0,"message":"","result":[
{"code":"2024002","date":"2024-01-04(四)","red":"03,05,11,19,26,31","blue":"02","sales":"1"},
{"code":"2024001","date":"2024-01-02(二)","red":"01,07,15,22,28,33","blue":"09","sales":"1"}
]}"#;

#[test]
fn clean_date_strips_weekday() {
    assert_eq!(clean_date("2024-01-02(二)"), "2024-01-02");
    assert_eq!(clean_date("2024-01-02"), "2024-01-02");
}

#[test]
fn parses_entries() {
    let e = parse_result_entries(SAMPLE).unwrap();
    assert_eq!(e.len(), 2);
    assert_eq!(e[0].code, "2024002");
    assert_eq!(e[0].date, "2024-01-04");
    assert_eq!(e[0].red, "03,05,11,19,26,31");
    assert_eq!(e[1].blue, "09");
}

#[test]
fn rejects_non_success_state() {
    assert!(parse_result_entries(r#"{"state":1,"message":"限流"}"#).is_err());
}

#[test]
fn rejects_empty_result() {
    assert!(parse_result_entries(r#"{"state":0,"result":[]}"#).is_err());
}

#[test]
fn error_snippet_is_char_boundary_safe() {
    let mut s = String::from("{\"state\":1,\"message\":\"");
    while s.len() < 199 {
        s.push('x');
    }
    s.push('限');
    s.push_str("\"}");
    assert!(parse_result_entries(&s).is_err());
}

fn game(k: &str) -> GameSpec {
    real_data_games().into_iter().find(|g| g.key == k).unwrap()
}

fn entry(code: &str, red: &str, blue: &str) -> Entry {
    Entry { code: code.into(), date: "2024-01-02".into(), red: red.into(), blue: blue.into() }
}

#[test]
fn url_format() {
    assert_eq!(
        build_url("ssq", 100),
        "https://www.cwl.gov.cn/cwl_admin/front/cwlkj/search/kjxx/findDrawNotice?name=ssq&issueCount=100"
    );
}

#[test]
fn map_ssq_appends_blue() {
    let f = map_entry(&game("ssq"), &entry("2024001", "01,07,15,22,28,33", "09")).unwrap();
    assert_eq!(f, vec!["2024001", "2024-01-02", "01", "07", "15", "22", "28", "33", "09"]);
}

#[test]
fn map_qlc_drops_special_ball() {
    let f = map_entry(&game("qlc"), &entry("1", "01,05,11,17,22,26,29", "30")).unwrap();
    assert_eq!(f.len(), 9);
    assert!(!f[2..].contains(&"30".to_string()));
}

#[test]
fn map_3d_keeps_positions() {
    let f = map_entry(&game("d3"), &entry("1", "3,8,1", "")).unwrap();
    assert_eq!(f, vec!["1", "2024-01-02", "3", "8", "1"]);
}

#[test]
fn map_kl8_twenty_numbers() {
    let red = (1..=20).map(|n| format!("{:02}", n)).collect::<Vec<_>>().join(",");
    let f = map_entry(&game("kl8"), &entry("1", &red, "")).unwrap();
    assert_eq!(f.len(), 22);
}

#[test]
fn map_rejects_insufficient_numbers() {
    assert!(map_entry(&game("ssq"), &entry("1", "01,02,03", "")).is_err());
}

// ---- further cases of the same functions

#[test]
fn state_error_messages_are_exact() {
    assert_eq!(
        parse_result_entries(r#"{"state":1,"message":"x"}"#).err().unwrap(),
        "接口返回 state=1(非成功):{\"state\":1,\"message\":\"x\"}"
    );
    assert_eq!(
        parse_result_entries("not-json").err().unwrap(),
        "响应无法识别(缺 state):not-json"
    );
    assert_eq!(
        parse_result_entries(r#"{"state":-3}"#).err().unwrap(),
        "接口返回 state=-3(非成功):{\"state\":-3}"
    );
    assert_eq!(
        parse_result_entries(r#"{"state":0,"result":[]}"#).err().unwrap(),
        "未找到任何开奖记录(result 为空?)"
    );
    assert_eq!(parse_result_entries(r#"{"state":0,"code":"x"#).err().unwrap(), "记录缺 code 字段");
}

#[test]
fn error_snippet_keeps_at_most_200_bytes() {
    let mut s = String::from("{\"state\":1,\"message\":\"");
    while s.len() < 199 {
        s.push('x');
    }
    s.push('限');
    s.push_str("\"}");
    let e = parse_result_entries(&s).err().unwrap();
    let prefix = "接口返回 state=1(非成功):";
    assert!(e.starts_with(prefix));
    let snippet = &e[prefix.len()..];
    assert_eq!(snippet.len(), 199);
    assert!(s.starts_with(snippet));
}

#[test]
fn entry_fields_default_to_empty() {
    let e = parse_result_entries(r#"{"state": 0, "result":[{"code":"7"}]}"#).unwrap();
    assert_eq!(e.len(), 1);
    assert_eq!(e[0].code, "7");
    assert_eq!(e[0].date, "");
    assert_eq!(e[0].red, "");
    assert_eq!(e[0].blue, "");
}

#[test]
fn map_entry_messages_are_exact() {
    assert_eq!(
        map_entry(&game("ssq"), &entry("1", "01,02,03", "")).err().unwrap(),
        "双色球 期号 1:号码数不足(3 < 7)"
    );
    assert_eq!(
        map_entry(&game("ssq"), &entry("5", "01,01,03,04,05,06", "07")).err().unwrap(),
        "双色球 期号 5:号重复:1"
    );
}

#[test]
fn build_csv_sorts_and_formats() {
    let (csv, report) = build_csv(&game("ssq"), SAMPLE).unwrap();
    let lines: Vec<&str> = csv.lines().collect();
    assert!(lines[0].starts_with('#'));
    assert_eq!(lines[0], "# 双色球 2 期  期号,日期,号码...");
    assert_eq!(lines[1], "2024001,2024-01-02,01,07,15,22,28,33,09");
    assert_eq!(lines[2], "2024002,2024-01-04,03,05,11,19,26,31,02");
    assert!(report.contains("解析 2 期"));
    assert_eq!(report, "解析 2 期(丢弃 0 条),期号 2024001 → 2024002");
}

#[test]
fn build_csv_rejects_bad_state() {
    assert!(build_csv(&game("ssq"), r#"{"state":1,"message":"x"}"#).is_err());
}

#[test]
fn build_csv_rejects_all_invalid() {
    let json = r#"{"state":0,"result":[{"code":"1","date":"2024-01-01","red":"01,02","blue":""}]}"#;
    assert_eq!(
        build_csv(&game("ssq"), json).err().unwrap(),
        "解析到 0 条有效记录(共 1 条,均校验失败)。"
    );
}

#[test]
fn build_csv_orders_by_number_then_text_and_counts_drops() {
    let json = r#"{"state":0,"result":[
{"code":"10","date":"d","red":"1,2,3","blue":""},
{"code":"9","date":"d","red":"4,5,6","blue":""},
{"code":"x","date":"d","red":"1,1","blue":""},
{"code":"09","date":"d","red":"7,8,9","blue":""}]}"#;
    let (csv, report) = build_csv(&game("d3"), json).unwrap();
    let lines: Vec<&str> = csv.lines().collect();
    assert_eq!(lines[1], "09,d,7,8,9");
    assert_eq!(lines[2], "9,d,4,5,6");
    assert_eq!(lines[3], "10,d,1,2,3");
    assert_eq!(report, "解析 3 期(丢弃 1 条),期号 09 → 10");
}
