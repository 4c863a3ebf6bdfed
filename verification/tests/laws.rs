use lottery_stats::analysis::{digit_counts, pool_counts};
use lottery_stats::fetch::build_csv;
use lottery_stats::game_spec::{real_data_games, GameSpec};
use lottery_stats::realdata::{parse_lines, parse_record};
use lottery_stats::server::{find_subslice, jesc, parse_content_length, url_decode, Response};
use lottery_stats::ssq;
use lottery_stats::ssq::parse_draw_fields;
use lottery_stats::stats::group_thousands;

fn game(k: &str) -> GameSpec {
    real_data_games().into_iter().find(|g| g.key == k).unwrap()
}

#[test]
fn imported_file_reads_back_as_its_rows() {
    let json = r#"{"state":0,"result":[
{"code":"2024003","date":"2024-01-06(六)","red":"02,04,06,08,10,12","blue":"03"},
{"code":"2024001","date":"2024-01-02(二)","red":" 01,07, 15,22,28,33","blue":"09"},
{"code":"2024002","date":"2024-01-04(四)","red":"03,05,11,19,26,31","blue":"02"}]}"#;
    let ssq = game("ssq");
    let (csv, _) = build_csv(&ssq, json).unwrap();
    let (records, skips) = parse_lines(&ssq, &csv);
    assert!(skips.is_empty());
    let issues: Vec<&str> = records.iter().map(|r| r.issue.as_str()).collect();
    assert_eq!(issues, vec!["2024001", "2024002", "2024003"]);
    assert_eq!(records[0].date, "2024-01-02");
    assert_eq!(records[0].components, vec![vec![1, 7, 15, 22, 28, 33], vec![9]]);
    assert_eq!(records[2].components, vec![vec![2, 4, 6, 8, 10, 12], vec![3]]);
}

#[test]
fn imported_digit_file_reads_back() {
    let json = r#"{"state":0,"result":[{"code":"2024002","date":"2024-01-03","red":"0,5,9","blue":""},
{"code":"2024001","date":"2024-01-02","red":"3,8,1","blue":""}]}"#;
    let d3 = game("d3");
    let (csv, _) = build_csv(&d3, json).unwrap();
    let (records, skips) = parse_lines(&d3, &csv);
    assert!(skips.is_empty());
    assert_eq!(records.len(), 2);
    assert_eq!(records[0].components, vec![vec![3, 8, 1]]);
    assert_eq!(records[1].components, vec![vec![0, 5, 9]]);
}

#[test]
fn accepted_pool_segments_ascend_within_range() {
    let d = parse_record(&game("dlt"), &["1", "d", "34", "3", "18", "11", "27", "10", "4"]).unwrap();
    assert_eq!(d.components, vec![vec![3, 11, 18, 27, 34], vec![4, 10]]);
    let k = parse_record(&game("qxc"), &["1", "d", "9", "9", "0", "1", "2", "3", "14"]).unwrap();
    assert_eq!(k.components, vec![vec![9, 9, 0, 1, 2, 3, 14]]);
}

#[test]
fn every_data_line_is_kept_or_reported() {
    let content = "# c\nh,x\n\n2024001,2024-01-02,1,7,15,22,28,33,9\n2024002,d,1,1,2,3,4,5,6\n2024003,d,1,2\n 2024004 , d ,2,4,6,8,10,12,3 \n";
    let (recs, skips) = parse_lines(&game("ssq"), content);
    assert_eq!(recs.len() + skips.len(), 4);
    assert_eq!(recs.len(), 2);
    assert_eq!(recs[1].issue, "2024004");
    assert_eq!(skips.iter().map(|s| s.line).collect::<Vec<_>>(), vec![5, 6]);
    let (draws, dskips) = ssq::parse_lines(content);
    assert_eq!(draws.len() + dskips.len(), 4);
    for d in &draws {
        assert!(d.reds.windows(2).all(|w| w[0] < w[1]));
        assert!(d.reds.iter().all(|&r| (1..=33).contains(&r)));
        assert!((1..=16).contains(&d.blue));
    }
}

#[test]
fn counts_add_up_per_draw() {
    let content = "2024001,2024-01-02,3,11,18,27,34,4,10\n2024002,2024-01-04,1,2,3,4,5,11,12\n";
    let dlt = game("dlt");
    let (recs, _) = parse_lines(&dlt, content);
    let front = pool_counts(&recs, 0, 35);
    let back = pool_counts(&recs, 1, 12);
    assert_eq!(front.iter().sum::<u64>(), 10);
    assert_eq!(back.iter().sum::<u64>(), 4);
    let d3 = game("d3");
    let (drecs, _) = parse_lines(&d3, "1,d,3,8,1\n2,d,0,5,9\n3,d,7,7,2\n");
    for pos in 0..3 {
        assert_eq!(digit_counts(&drecs, 0, pos, 10).iter().sum::<u64>(), 3);
    }
}

#[test]
fn escaped_text_has_no_control_characters() {
    let e = jesc("a\u{0}b\u{1f}\n\r\t\"\\é");
    assert!(e.chars().all(|c| c as u32 >= 0x20));
    assert_eq!(e, "a\\u0000b\\u001f\\n\\r\\t\\\"\\\\é");
}

#[test]
fn grouping_only_adds_commas() {
    for n in [0u64, 7, 999, 1000, 123456, 1234567, 17721088, u64::MAX] {
        assert_eq!(group_thousands(n).replace(',', ""), n.to_string());
    }
}

#[test]
fn percent_encoded_text_decodes_back() {
    let s = "中文 a+b%/?";
    let enc: String = s.bytes().map(|b| format!("%{:02X}", b)).collect();
    assert_eq!(url_decode(&enc), s);
    assert_eq!(url_decode(&enc.to_lowercase()), s);
    assert_eq!(url_decode("plain-中文_text"), "plain-中文_text");
}

#[test]
fn text_without_specials_is_not_escaped() {
    assert_eq!(jesc("plain 中文 text"), "plain 中文 text");
    assert_eq!(jesc("q\"\\\n"), "q\\\"\\\\\\n");
}

#[test]
fn response_bytes_read_back() {
    let body = "{\"a\":\"中\"}".to_string();
    let bytes = Response::json(200, body.clone()).to_bytes();
    let k = find_subslice(&bytes, b"\r\n\r\n").unwrap();
    assert_eq!(&bytes[k + 4..], body.as_bytes());
    let head = String::from_utf8_lossy(&bytes[..k]).to_string();
    assert_eq!(parse_content_length(&head), body.len());
    assert!(bytes.starts_with(b"HTTP/1.1 200 OK\r\n"));
}

#[test]
fn ssq_parsers_agree_on_rows() {
    let g = game("ssq");
    let rows: Vec<Vec<&str>> = vec![
        vec!["2024001", " 2024-01-02 ", "33", "7", "1", "22", "28", "15", "16"],
        vec!["x", "d", "0", "7", "15", "22", "28", "33", "9"],
        vec!["x", "d", "300", "7", "15", "22", "28", "33", "9"],
        vec!["x", "d", "7", "7", "15", "22", "28", "33", "9"],
        vec!["x", "d", "1", "7", "15", "22", "28", "33", "17"],
        vec!["x", "d", "1", "7", "15", "22", "28", "33", "+3"],
        vec!["x", "d", "1", "7"],
    ];
    for f in &rows {
        let d = parse_draw_fields(f);
        let r = parse_record(&g, f);
        assert_eq!(d.is_ok(), r.is_ok());
        if let (Ok(d), Ok(r)) = (d, r) {
            assert_eq!(r.issue, d.issue);
            assert_eq!(r.date, d.date);
            let reds: Vec<u32> = d.reds.iter().map(|&x| x as u32).collect();
            assert_eq!(r.components, vec![reds, vec![d.blue as u32]]);
        }
    }
}
