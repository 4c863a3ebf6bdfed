use lottery_stats::analysis::analysis_ready;
use lottery_stats::game_spec::real_data_games;
use lottery_stats::server::{
    analysis_reply, find_subslice, frame_request, games_json, games_reply, handle, import_reply, jesc,
    parse_content_length, parse_request, query_get, url_decode, Analysis, Framing, Handled, Response,
};

fn reply(h: Handled) -> Response {
    match h {
        Handled::Reply(r) => r,
        _ => panic!("expected a finished reply"),
    }
}

#[test]
fn jesc_escapes() {
    assert_eq!(jesc("a\"b\\c"), "a\\\"b\\\\c");
    assert_eq!(jesc("line\n"), "line\\n");
}

#[test]
fn parse_get_with_query() {
    let r = parse_request("GET /api/analysis?game=ssq HTTP/1.1\r\nHost: x", "").unwrap();
    assert_eq!(r.method, "GET");
    assert_eq!(r.path, "/api/analysis");
    assert_eq!(r.query, "game=ssq");
    assert_eq!(query_get(&r.query, "game").as_deref(), Some("ssq"));
}

#[test]
fn parse_post_body_and_urldecode() {
    let r = parse_request("POST /api/import?game=ssq HTTP/1.1", "{\"a\":1}").unwrap();
    assert_eq!(r.method, "POST");
    assert_eq!(r.body, "{\"a\":1}");
    assert_eq!(query_get("k=%E4%B8%AD", "k").as_deref(), Some("中"));
}

#[test]
fn response_bytes_have_status_and_length() {
    let bytes = Response::json(404, "{}".to_string()).to_bytes();
    let s = String::from_utf8_lossy(&bytes);
    assert!(s.starts_with("HTTP/1.1 404 Not Found\r\n"));
    assert!(s.contains("Content-Length: 2\r\n"));
    assert!(s.ends_with("{}"));
}

#[test]
fn parse_rejects_garbage() {
    assert!(parse_request("", "").is_none());
}

#[test]
fn route_games_lists_ssq() {
    assert!(matches!(handle("GET", "/api/games", "", ""), Handled::ListGames));
    let contents: Vec<Option<String>> = vec![None; 8];
    let r = games_reply(&contents);
    assert_eq!(r.status, 200);
    assert_eq!(r.content_type, "application/json; charset=utf-8");
    assert!(r.body.starts_with("{\"games\":["));
    assert!(r.body.contains("\"key\":\"ssq\""));
    assert!(r.body.contains("\"hasData\":"));
    assert_eq!(r.body, games_json(&contents));
}

const SSQ_PLACEHOLDER: &str = "\
# 双色球历史开奖数据  期号,日期,红1,红2,红3,红4,红5,红6,蓝
# ⚠ 以下为占位示例数据,请替换为真实开奖号码(数据源见 data/README.md)。
# 红球 6 个(1-33 互不相同),蓝球 1 个(1-16)。# 开头为注释,空行忽略。
2024001,2024-01-02,1,7,15,22,28,33,9
2024002,2024-01-04,3,5,11,19,26,31,2
2024003,2024-01-06,2,8,14,20,27,30,5
2024004,2024-01-09,4,6,12,18,25,32,11
2024005,2024-01-11,9,13,17,21,24,29,7
";

#[test]
fn route_analysis_ssq_available() {
    // the library's half of the route: the handler asks for game 0's file, and the
    // placeholder data (5 draws) goes on to the analysis
    let i = match handle("GET", "/api/analysis", "game=ssq", "") {
        Handled::Analyze(i) => i,
        _ => panic!("expected an analysis"),
    };
    assert_eq!(i, 0);
    let draws = match analysis_reply(i, Some(SSQ_PLACEHOLDER.to_string())) {
        Analysis::Ready(d) => d,
        Analysis::Reply(r) => panic!("unexpected reply {}", r.body),
    };
    assert_eq!(draws.len(), 5);
    assert!(analysis_ready(&real_data_games()[0], &draws));
}

#[test]
fn route_analysis_unknown_game_404() {
    let r = reply(handle("GET", "/api/analysis", "game=zzz", ""));
    assert_eq!(r.status, 404);
}

#[test]
fn route_unknown_path_404() {
    assert_eq!(reply(handle("GET", "/nope", "", "")).status, 404);
}

#[test]
fn route_import_unsupported_game_400() {
    let r = reply(handle("POST", "/api/import", "game=dlt", "{}"));
    assert_eq!(r.status, 400);
    assert!(r.body.contains("\"ok\":false"));
}

#[test]
fn route_import_garbage_body_no_overwrite() {
    let r = reply(handle("POST", "/api/import", "game=ssq", "not-json"));
    assert_eq!(r.status, 200);
    assert!(r.body.contains("\"ok\":false"));
}

#[test]
fn index_page_served() {
    let r = reply(handle("GET", "/", "", ""));
    assert_eq!(r.status, 200);
    assert_eq!(r.content_type, "text/html; charset=utf-8");
    assert!(r.body.contains("<title>彩票随机性分析</title>"));
    assert!(r.body.contains("id=\"game\""));
    assert!(r.body.contains("/api/analysis"));
    assert!(r.body.contains("方法与策略说明"));
    assert!(r.body.contains("策略选号(仅演示)"));
    assert!(r.body.contains("这三注中奖概率与任意号码完全相同"));
    assert!(r.body.find("策略选号").unwrap() < r.body.find("分析结果").unwrap());
    assert!(r.body.contains("renderPicks(a.picks"));
}

#[test]
fn find_subslice_works() {
    assert_eq!(find_subslice(b"abcXYdef", b"XY"), Some(3));
    assert_eq!(find_subslice(b"abc", b"ZZ"), None);
}

#[test]
fn parse_content_length_reads_header() {
    assert_eq!(parse_content_length("POST / HTTP/1.1\r\nContent-Length: 42\r\nHost: x"), 42);
    assert_eq!(parse_content_length("GET / HTTP/1.1\r\nHost: x"), 0);
}

// ---- further cases

#[test]
fn jesc_escapes_control_characters() {
    assert_eq!(jesc("\r\t\u{1}\u{1f}é"), "\\r\\t\\u0001\\u001fé");
}

#[test]
fn request_without_query_and_with_extra_spaces() {
    let r = parse_request("  GET   /x   HTTP/1.1", "b").unwrap();
    assert_eq!(r.method, "GET");
    assert_eq!(r.path, "/x");
    assert_eq!(r.query, "");
    assert!(parse_request("GET\r\n/x", "").is_none());
}

#[test]
fn query_get_takes_first_matching_key() {
    assert_eq!(query_get("a=1&game=d3&game=ssq", "game").as_deref(), Some("d3"));
    assert_eq!(query_get("game", "game"), None);
    assert_eq!(query_get("x=a+b%2", "x").as_deref(), Some("a b%2"));
    assert_eq!(query_get("", "x"), None);
}

#[test]
fn url_decode_keeps_invalid_escapes() {
    assert_eq!(url_decode("%zz%4"), "%zz%4");
    assert_eq!(url_decode("%41%42"), "AB");
}

#[test]
fn url_decode_replaces_invalid_utf8() {
    assert_eq!(url_decode("a%FFb"), "a\u{FFFD}b");
    assert_eq!(url_decode("%E4%B8"), "\u{FFFD}");
    assert_eq!(url_decode("%FF"), "\u{FFFD}");
    assert_eq!(url_decode("a+b%20c%zz%4"), "a b c%zz%4");
    assert_eq!(url_decode("100%"), "100%");
}

#[test]
fn framing_waits_for_headers_and_body() {
    assert!(matches!(frame_request(b"GET / HTTP/1.1\r\nHost: x", false), Framing::NeedMore));
    match frame_request(b"GET / HTTP/1.1\r\nHost: x", true) {
        Framing::Bad(r) => {
            assert_eq!(r.status, 400);
            assert_eq!(r.body, "{\"error\":\"bad request\"}");
        }
        _ => panic!("expected 400"),
    }
    let post = b"POST /api/import?game=ssq HTTP/1.1\r\nContent-Length: 5\r\n\r\nab";
    assert!(matches!(frame_request(post, false), Framing::NeedMore));
    match frame_request(post, true) {
        Framing::Ready(q) => assert_eq!(q.body, "ab"),
        _ => panic!("expected a request"),
    }
    let full = b"POST /api/import?game=ssq HTTP/1.1\r\nContent-Length: 5\r\n\r\nabcdeXYZ";
    match frame_request(full, false) {
        Framing::Ready(q) => {
            assert_eq!(q.method, "POST");
            assert_eq!(q.path, "/api/import");
            assert_eq!(q.query, "game=ssq");
            assert_eq!(q.body, "abcde");
        }
        _ => panic!("expected a request"),
    }
    match frame_request(b"\r\n\r\n", false) {
        Framing::Bad(r) => assert_eq!(r.status, 400),
        _ => panic!("expected 400"),
    }
}

#[test]
fn framing_gives_up_past_the_cap() {
    let big = vec![b'a'; 2_000_001];
    assert!(matches!(frame_request(&big, false), Framing::Bad(_)));
    let mut head = b"POST / HTTP/1.1\r\nContent-Length: 9999999\r\n\r\n".to_vec();
    head.extend(std::iter::repeat(b'x').take(2_000_000));
    match frame_request(&head, false) {
        Framing::Ready(q) => assert_eq!(q.body.len(), 2_000_000),
        _ => panic!("expected a request"),
    }
}

#[test]
fn response_statuses_and_reasons() {
    let b = Response::json(405, "é".to_string()).to_bytes();
    let s = String::from_utf8(b).unwrap();
    assert_eq!(
        s,
        "HTTP/1.1 405 Method Not Allowed\r\nContent-Type: application/json; charset=utf-8\r\nContent-Length: 2\r\nConnection: close\r\n\r\né"
    );
    let h = Response::html("x".to_string());
    assert_eq!(h.status, 200);
    let s = String::from_utf8(h.to_bytes()).unwrap();
    assert!(s.starts_with("HTTP/1.1 200 OK\r\nContent-Type: text/html; charset=utf-8\r\n"));
    let s = String::from_utf8(Response::json(500, String::new()).to_bytes()).unwrap();
    assert!(s.starts_with("HTTP/1.1 500 OK\r\n"));
}

#[test]
fn wrong_method_is_405() {
    let r = reply(handle("POST", "/api/games", "", ""));
    assert_eq!(r.status, 405);
    assert_eq!(r.body, "{\"error\":\"method not allowed\"}");
}

#[test]
fn analysis_route_names_the_game() {
    assert!(matches!(handle("GET", "/api/analysis", "game=d3", ""), Handled::Analyze(2)));
}

#[test]
fn import_route_returns_rows_to_write() {
    let body = r#"{"state":0,"result":[{"code":"2024001","date":"2024-01-02(二)","red":"3,8,1","blue":""}]}"#;
    match handle("POST", "/api/import", "game=d3", body) {
        Handled::Import(i, csv, report) => {
            assert_eq!(i, 2);
            assert_eq!(csv, "# 福彩3D 1 期  期号,日期,号码...\n2024001,2024-01-02,3,8,1\n");
            assert_eq!(report, "解析 1 期(丢弃 0 条),期号 2024001 → 2024001");
        },
        _ => panic!("expected an import"),
    }
}

#[test]
fn content_length_header_is_case_insensitive() {
    assert_eq!(parse_content_length("POST / HTTP/1.1\ncontent-LENGTH : 7 \n"), 7);
    assert_eq!(parse_content_length("POST / HTTP/1.1\nContent-Length: x\nContent-Length: 5"), 0);
}

#[test]
fn games_json_reports_data_presence() {
    let mut contents: Vec<Option<String>> = vec![None; 8];
    contents[2] = Some("1,d,1,2,3\n2,d,4,5,6\n".to_string());
    let body = games_json(&contents);
    assert!(body.starts_with("{\"games\":[{\"key\":\"ssq\",\"name\":\"双色球\",\"fetchable\":true,\"hasData\":false},"));
    assert!(body.contains("{\"key\":\"d3\",\"name\":\"福彩3D\",\"fetchable\":true,\"hasData\":true}"));
    assert!(body.ends_with("{\"key\":\"kl8\",\"name\":\"快乐8\",\"fetchable\":true,\"hasData\":false}]}"));
}

#[test]
fn analysis_reply_cases() {
    match analysis_reply(0, None) {
        Analysis::Reply(r) => {
            assert_eq!(r.status, 200);
            assert_eq!(r.body, "{\"available\":false,\"reason\":\"未找到数据文件 data/ssq.csv\"}");
        },
        _ => panic!(),
    }
    match analysis_reply(2, Some("1,d,1,2,3\n".to_string())) {
        Analysis::Reply(r) => assert_eq!(r.body, "{\"available\":false,\"reason\":\"有效数据不足(<2 期)\"}"),
        _ => panic!(),
    }
    match analysis_reply(2, Some("1,d,1,2,3\n2,d,4,5,6\n".to_string())) {
        Analysis::Ready(d) => assert_eq!(d.len(), 2),
        _ => panic!(),
    }
}

#[test]
fn import_reply_messages() {
    let r = import_reply(0, "解析 2 期", None);
    assert_eq!(r.body, "{\"ok\":true,\"message\":\"双色球:解析 2 期,已写入 data/ssq.csv\"}");
    let r = import_reply(0, "x", Some("denied".to_string()));
    assert_eq!(r.body, "{\"ok\":false,\"message\":\"写入 data/ssq.csv 失败:denied\"}");
}
