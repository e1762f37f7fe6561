use tape::http::{read_header, HttpHeader, HttpRequest};
use tape::http_util::RequestUri;
use tape::ingest::{
    compose_tag, entries_from_body, entries_from_json, entries_from_query, format_colored_line,
    format_line, handle_request, level_color, now_ts, parse_params, RawEntry,
};
use tape::json::{parse, Json, Number};
use tape::log_file::{path, path_with, stamp};
use tape::logcat::{
    choose_device, format_colored, format_plain, level_rank, log_file_stamp, on_line,
    parse_devices, parse_log_line, search_key, DeviceError,
};

#[test]
fn query_simple() {
    let entries = entries_from_query("msg=hello%20world&level=warn&tag=page");
    assert_eq!(entries.len(), 1);
    assert_eq!(entries[0].level, "warn");
    assert_eq!(entries[0].tag, "page");
    assert_eq!(entries[0].message, "hello world");
}

#[test]
fn query_with_url_line_and_plus() {
    let entries = entries_from_query("msg=a+b&url=https://x.com/p&line=12");
    assert_eq!(entries[0].message, "a b");
    assert_eq!(entries[0].tag, "https://x.com/p:12");
}

#[test]
fn query_multiline_msg_splits_lines() {
    let entries = entries_from_query("msg=line1%0Aline2");
    assert_eq!(entries.len(), 2);
    assert_eq!(entries[0].message, "line1");
    assert_eq!(entries[1].message, "line2");
}

#[test]
fn query_aliases_and_bad_lines() {
    let entries = entries_from_query("log=x&l=ERROR&page=p&ln=+7&junk&t=");
    assert_eq!(entries.len(), 1);
    assert_eq!(entries[0].level, "error");
    assert_eq!(entries[0].tag, "p");
    let entries = entries_from_query("text=x&src=p&ln=7&msg=y");
    assert_eq!(entries[0].message, "y");
    assert_eq!(entries[0].tag, "p:7");
    let entries = entries_from_query("msg=x&src=p&line=4294967296");
    assert_eq!(entries[0].tag, "p");
}

#[test]
fn params_without_an_equals_sign_are_skipped() {
    assert_eq!(
        parse_params("a=1&b&c=%26=x"),
        vec![
            ("a".to_string(), "1".to_string()),
            ("c".to_string(), "&=x".to_string())
        ]
    );
}

#[test]
fn plain_text_body_multiline() {
    let entries = entries_from_body("text/plain", b"first\nsecond\n");
    assert_eq!(entries.len(), 2);
    assert_eq!(entries[0].level, "log");
}

#[test]
fn plain_text_body_line_endings() {
    let entries = entries_from_body("", b"a\r\n\r\nb\rc\r");
    assert_eq!(entries.len(), 2);
    assert_eq!(entries[0].message, "a");
    assert_eq!(entries[1].message, "b\rc\r");
    assert!(entries_from_body("text/plain", b"\xff\xfe").is_empty());
}

#[test]
fn form_body() {
    let entries = entries_from_body(
        "application/x-www-form-urlencoded",
        b"msg=hi&level=error&tag=t1",
    );
    assert_eq!(entries.len(), 1);
    assert_eq!(entries[0].level, "error");
    assert_eq!(entries[0].tag, "t1");
}

#[test]
fn json_object_and_msg_alias() {
    let entries = entries_from_body(
        "application/json",
        br#"{"msg":"hi","level":"debug","url":"https://a/b","line":3}"#,
    );
    assert_eq!(entries.len(), 1);
    assert_eq!(entries[0].level, "debug");
    assert_eq!(entries[0].tag, "https://a/b:3");
    assert_eq!(entries[0].message, "hi");
}

#[test]
fn json_array() {
    let entries = entries_from_body(
        "application/json",
        br#"[{"message":"a"},{"message":"b","level":"error"}]"#,
    );
    assert_eq!(entries.len(), 2);
    assert_eq!(entries[1].level, "error");
}

#[test]
fn json_invalid_falls_back_to_error_entry() {
    let entries = entries_from_body("application/json", b"not-json");
    assert_eq!(entries.len(), 1);
    assert_eq!(entries[0].level, "error");
}

#[test]
fn json_invalid_entry_names_the_text() {
    let entries = entries_from_body("application/json", b"{");
    assert_eq!(entries[0].tag, "tape");
    assert!(entries[0].message.starts_with("JSON 解析失败: "));
    assert!(entries[0].message.ends_with(": {"));
}

fn number(v: &Json) -> (String, Option<u64>) {
    match v {
        Json::Number(n) => (n.text.clone(), n.whole),
        _ => panic!("expected a number"),
    }
}

#[test]
fn json_values_are_turned_over() {
    let v = parse(r#"{"b":[null,true,-1,2,1.5,"x"],"a":{}}"#).unwrap();
    match v {
        Json::Object(members) => {
            assert_eq!(members.len(), 2);
            let list = &members.iter().find(|m| m.0 == "b").unwrap().1;
            match list {
                Json::List(items) => {
                    assert_eq!(items.len(), 6);
                    assert!(matches!(items[0], Json::Null));
                    assert!(matches!(items[1], Json::Bool(true)));
                    assert_eq!(number(&items[2]), ("-1".to_string(), None));
                    assert_eq!(number(&items[3]), ("2".to_string(), Some(2)));
                    assert_eq!(number(&items[4]), ("1.5".to_string(), None));
                    match &items[5] {
                        Json::Text(s) => assert_eq!(s, "x"),
                        _ => panic!("expected a string"),
                    }
                }
                _ => panic!("expected an array"),
            }
        }
        _ => panic!("expected an object"),
    }
}

#[test]
fn json_numbers_of_lines_are_cut_to_their_lower_bits() {
    let v = Json::List(vec![
        Json::Object(vec![
            ("message".to_string(), Json::Text("m".to_string())),
            ("url".to_string(), Json::Text("u".to_string())),
            ("line".to_string(), Json::Number(Number {
                    text: "4294967299".to_string(),
                    whole: Some(4294967299),
                    bits: None,
                })),
        ]),
        Json::Bool(true),
        Json::List(vec![Json::Object(vec![(
            "msg".to_string(),
            Json::Text("n\n\no".to_string()),
        )])]),
    ]);
    let entries = entries_from_json(&v);
    assert_eq!(entries.len(), 3);
    assert_eq!(entries[0].tag, "u:3");
    assert_eq!(entries[1].message, "n");
    assert_eq!(entries[2].message, "o");
    assert_eq!(entries[2].level, "log");
}

#[test]
fn empty_message_is_dropped() {
    assert!(entries_from_query("msg=&level=info").is_empty());
}

fn entry(level: &str, tag: &str, message: &str) -> RawEntry {
    RawEntry {
        level: level.into(),
        tag: tag.into(),
        message: message.into(),
    }
}

#[test]
fn format_line_shape() {
    let entry = RawEntry {
        level: "warn".into(),
        tag: "page".into(),
        message: "boom".into(),
    };
    assert_eq!(
        format_line("2026-08-02 15:44:41", &entry),
        "2026-08-02 15:44:41 [warn] [page] boom"
    );
}

#[test]
fn lines_for_a_terminal_are_coloured() {
    assert_eq!(
        format_colored_line("T", &entry("warn", "", "[warn] x")),
        "T [\x1b[33mwarn\x1b[0m] [warn] x"
    );
    assert_eq!(
        format_colored_line("T", &entry("other", "t", "x")),
        "T [other\x1b[0m] [t] x"
    );
    assert_eq!(level_color("FATAL"), "\x1b[31m");
    assert_eq!(level_color("Info"), "\x1b[34m");
    assert_eq!(level_color("verbose"), "\x1b[32m");
    assert_eq!(level_color("?"), "");
}

#[test]
fn tags_are_composed() {
    assert_eq!(compose_tag("t", "u", Some(1)), "t");
    assert_eq!(compose_tag("", "u", Some(1)), "u:1");
    assert_eq!(compose_tag("", "u", None), "u");
    assert_eq!(compose_tag("", "", Some(1)), "");
}

#[test]
fn log_times_have_their_shape() {
    let ts = now_ts();
    assert_eq!(ts.len(), 19);
    assert_eq!(&ts[4..5], "-");
    assert_eq!(&ts[10..11], " ");
    assert_eq!(&ts[13..14], ":");
}

fn request(method: &str, target: &str, content_type: &str, body: &[u8]) -> HttpRequest {
    HttpRequest {
        method: method.to_string(),
        uri: RequestUri {
            scheme: None,
            authority: None,
            path_and_query: Some(target.to_string()),
            path: "/".to_string(),
        },
        headers: vec![HttpHeader {
            name: "Content-Type".to_string(),
            value: content_type.as_bytes().to_vec(),
        }],
        body: body.to_vec(),
    }
}

#[test]
fn pushes_are_answered() {
    let (r, entries) = handle_request(&request("GET", "/?msg=a%0Ab", "", b""));
    assert_eq!(r.status, 200);
    assert_eq!(r.body, b"ok: 2 line(s) recorded\n".to_vec());
    assert_eq!(read_header(&r.headers, "access-control-allow-origin"), "*");
    assert_eq!(entries.len(), 2);

    let (r, entries) =
        handle_request(&request("POST", "/", "Application/JSON", br#"{"msg":"x"}"#));
    assert_eq!(r.status, 200);
    assert_eq!(entries[0].message, "x");

    let (r, entries) = handle_request(&request("OPTIONS", "/", "", b""));
    assert_eq!(r.status, 204);
    assert!(r.body.is_empty());
    assert!(entries.is_empty());
    assert_eq!(
        read_header(&r.headers, "access-control-allow-methods"),
        "GET, POST, OPTIONS"
    );

    let (r, entries) = handle_request(&request("PUT", "/?msg=x", "", b"x"));
    assert_eq!(r.status, 405);
    assert_eq!(r.body, b"method not allowed\n".to_vec());
    assert!(entries.is_empty());
}

#[test]
fn stamp_shape() {
    let stamp = stamp();
    assert_eq!(stamp.len(), 15, "expected YYYYMMDD-HHMMSS, got {stamp}");
    assert_eq!(&stamp[8..9], "-");
    assert!(stamp.chars().all(|c| c.is_ascii_digit() || c == '-'));
}

#[test]
fn path_uses_prefix_and_stamp() {
    let p = path("logs", "console");
    let name = p.strip_prefix("logs/").unwrap();
    assert!(name.starts_with("console-"), "got {name}");
    assert!(name.ends_with(".log"), "got {name}");
    assert_eq!(name.len(), "console-".len() + 15 + ".log".len());
}

#[test]
fn paths_of_log_files() {
    assert_eq!(
        path_with("./logs/", "app", "20260802-154441"),
        "./logs/app-20260802-154441.log"
    );
    assert_eq!(path_with("", "app", "s"), "app-s.log");
}

#[test]
fn parse_standard_threadtime_line() {
    let entry = parse_log_line("02-03 15:44:41.704  2359  3654 I TagName: Hello world").unwrap();
    assert_eq!(entry.time, "15:44:41.704");
    assert_eq!(entry.pid, "2359");
    assert_eq!(entry.tid, "3654");
    assert_eq!(entry.level, "I");
    assert_eq!(entry.tag, "TagName");
    assert_eq!(entry.message, "Hello world");
}

#[test]
fn parse_line_without_message() {
    let entry = parse_log_line("02-03 15:44:41.704  2359  3654 W TagOnly").unwrap();
    assert_eq!(entry.tag, "TagOnly");
    assert_eq!(entry.message, "");
}

#[test]
fn parse_rejects_invalid_or_short_lines() {
    assert!(parse_log_line("").is_none());
    assert!(parse_log_line("not enough tokens").is_none());
    assert!(parse_log_line("02-03 15:44:41.704  2359  3654 X Tag: nope").is_none());
}

#[test]
fn level_rank_ordering() {
    assert!(level_rank("V") < level_rank("D"));
    assert!(level_rank("D") < level_rank("I"));
    assert!(level_rank("I") < level_rank("W"));
    assert!(level_rank("W") < level_rank("E"));
    assert!(level_rank("E") < level_rank("F"));
}

#[test]
fn log_file_stamp_shape() {
    let stamp = log_file_stamp();
    assert_eq!(stamp.len(), 15, "expected YYYYMMDD-HHMMSS, got {stamp}");
    assert_eq!(&stamp[8..9], "-");
    assert!(stamp.chars().all(|c| c.is_ascii_digit() || c == '-'));
}

#[test]
fn device_lines_are_written() {
    let e = parse_log_line("02-03 15:44:41.704 9 3654 E My Tag: a: b").unwrap();
    assert_eq!(format_plain(&e), "15:44:41.704     9  3654 E My Tag: a: b");
    assert_eq!(
        format_colored(&e),
        "15:44:41.704     9  3654 \x1b[31mE My Tag: a: b\x1b[0m"
    );
}

#[test]
fn device_lines_are_filtered() {
    let line = "02-03 15:44:41.704 9 3654 W Tag: Straße CRASH";
    let (shown, plain) = on_line(line, 3, "", false).unwrap();
    assert_eq!(shown, plain);
    assert!(on_line(line, 4, "", false).is_none());
    let key = search_key(Some("StraßE cr"));
    assert_eq!(key, "straße cr");
    assert!(on_line(line, 0, &key, true).unwrap().0.ends_with("\x1b[0m"));
    assert!(on_line(line, 0, "absent", true).is_none());
    assert!(on_line(line, 0, "3654", true).is_some());
    assert!(on_line("garbage", 0, "", true).is_none());
    assert_eq!(search_key(None), "");
}

#[test]
fn devices_are_listed_and_chosen() {
    let out = "List of devices attached\nemulator-5554\tdevice\nabc\toffline\nxyz  device product:p\n\n";
    let devices = parse_devices(out);
    assert_eq!(devices, vec!["emulator-5554", "xyz"]);
    assert!(parse_devices("").is_empty());
    assert_eq!(choose_device(&devices, None).ok(), Some("emulator-5554".to_string()));
    assert_eq!(
        choose_device(&devices, Some("xyz".to_string())).ok(),
        Some("xyz".to_string())
    );
    match choose_device(&devices, Some("abc".to_string())) {
        Err(e) => assert_eq!(e.message(), "未找到在线设备 abc"),
        Ok(_) => panic!("an offline device must not be chosen"),
    }
    match choose_device(&[], None) {
        Err(e) => {
            assert!(matches!(e, DeviceError::NoneOnline));
            assert_eq!(e.message(), "未检测到 adb 在线设备（请连接设备并授权）");
        }
        Ok(_) => panic!("there is no device to choose"),
    }
}
