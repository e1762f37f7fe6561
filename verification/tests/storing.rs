use tape::clock::{
    format_log_time, format_stamp, local_time, now_rfc3339, time_or_epoch, CivilTime,
};
use tape::codec::{decompress, recompress};
use tape::list::{
    count_json_files, list_sites, nothing_recorded_message, site_asset_count, table, totals_fit,
    Row,
};
use tape::net::insecure_tls_enabled;
use tape::paths::join;
use tape::snapshot::{
    decode_body, encode_body, RequestRecord, ResponseRecord, Snapshot, ENCODING_BASE64,
    ENCODING_UTF8,
};
use tape::store::{
    is_snapshot_file, max_id, origin_dir_name, path_hash, sanitize_method, sha256_hex, snapshot_file_name,
    snapshot_path, sort_origins, sort_snapshots, Recorder,
};
use tape::tree::{collect_json_files, DirItem};

fn sample_snapshot(id: &str, body: &str, encoding: &str) -> Snapshot {
    Snapshot {
        id: id.to_string(),
        origin: "http://10.1.2.3:8080".to_string(),
        recorded_at: "2026-08-01T00:00:00Z".to_string(),
        duration_ms: 7,
        request: RequestRecord {
            method: "GET".to_string(),
            url: format!("http://10.1.2.3:8080/api/user?id={id}"),
            headers: vec![("accept".to_string(), "*/*".to_string())],
            body: String::new(),
            body_encoding: ENCODING_UTF8.to_string(),
        },
        response: ResponseRecord {
            status: 200,
            headers: vec![("content-type".to_string(), "application/json".to_string())],
            body: body.to_string(),
            body_encoding: encoding.to_string(),
        },
    }
}

#[test]
fn encode_utf8_body_roundtrip() {
    let body = "{\"a\":\"中文\"}";
    let (encoded, encoding) = encode_body(body.as_bytes());
    assert_eq!(encoding, ENCODING_UTF8);
    assert_eq!(encoded, body);
    assert_eq!(decode_body(&encoded, &encoding), body.as_bytes());
}

#[test]
fn encode_binary_body_roundtrip() {
    let body = vec![0u8, 159, 146, 150, 255, 1, 2, 3];
    let (encoded, encoding) = encode_body(&body);
    assert_eq!(encoding, ENCODING_BASE64);
    assert_eq!(decode_body(&encoded, &encoding), body);
}

#[test]
fn bodies_are_encoded_in_base64() {
    let (encoded, _) = encode_body(&[0xff, 0xfe]);
    assert_eq!(encoded, "//4=");
    assert!(decode_body("not base64!", ENCODING_BASE64).is_empty());
    assert_eq!(decode_body("abc", "anything"), b"abc".to_vec());
}

#[test]
fn origin_dir_name_normalizes() {
    assert_eq!(
        origin_dir_name("http://10.1.2.3:8080"),
        "http_10.1.2.3_8080"
    );
    assert_eq!(
        origin_dir_name("https://a.b.com:8443"),
        "https_a.b.com_8443"
    );
    assert_eq!(origin_dir_name("http://10.1.2.3"), "http_10.1.2.3");
    assert_ne!(
        origin_dir_name("http://a.b.com:8080"),
        origin_dir_name("https://a.b.com:8080")
    );
}

#[test]
fn origin_dir_names_of_odd_origins() {
    assert_eq!(origin_dir_name(""), "unknown");
    assert_eq!(origin_dir_name("http://"), "unknown");
    assert_eq!(origin_dir_name("a.com/b"), "a.com_b");
    assert_eq!(origin_dir_name("HTTPS://a"), "https_a");
    assert_eq!(origin_dir_name("ftp://a:1"), "a_1");
}

#[test]
fn path_hash_is_stable_and_distinct() {
    assert_eq!(path_hash("/api/user?id=1"), path_hash("/api/user?id=1"));
    assert_ne!(path_hash("/api/user?id=1"), path_hash("/api/user?id=2"));
}

#[test]
fn digests_are_written_in_hex() {
    assert_eq!(
        sha256_hex(b"abc"),
        "ba7816bf8f01cfea414140de5dae2223b00361a396177a9cb410ff61f20015ad"
    );
    assert_eq!(path_hash("abc"), "ba7816bf8f01");
}

#[test]
fn methods_are_cleaned_for_file_names() {
    assert_eq!(sanitize_method("GET"), "GET");
    assert_eq!(sanitize_method("M-SEARCH*"), "MSEARCH");
    assert_eq!(sanitize_method("ABCDEFGHIJKLM"), "ABCDEFGHIJ");
    assert_eq!(sanitize_method("--"), "REQ");
}

#[test]
fn snapshots_have_their_files() {
    let mut s = sample_snapshot("000007", "{}", ENCODING_UTF8);
    s.request.url = "abc".to_string();
    assert_eq!(snapshot_file_name(&s), "000007-GET-ba7816bf8f01.json");
    assert_eq!(
        snapshot_path(&s),
        "snapshots/http_10.1.2.3_8080/000007-GET-ba7816bf8f01.json"
    );
}

#[test]
fn recorder_numbers_and_counts() {
    let mut recorder = Recorder::new("/d".to_string(), &[]);
    assert_eq!(recorder.root(), "/d");
    let session = recorder.session("0.1");
    assert_eq!(session.snapshot_count, 0);
    assert!(session.origins.is_empty());

    let mut snap1 = sample_snapshot("", r#"{"name":"中文"}"#, ENCODING_UTF8);
    snap1.id = recorder.next_id();
    let mut snap2 = sample_snapshot("", "binary", ENCODING_BASE64);
    snap2.id = recorder.next_id();
    recorder.note_written(&snap1);
    recorder.note_written(&snap2);
    assert_eq!(recorder.next_id(), "000003");

    let loaded = sort_snapshots(vec![snap2, snap1]);
    assert_eq!(loaded.len(), 2);
    assert_eq!(loaded[0].id, "000001");
    assert_eq!(loaded[1].id, "000002");
    assert_eq!(loaded[0].response.body, r#"{"name":"中文"}"#);
    assert_eq!(loaded[1].response.body_encoding, ENCODING_BASE64);

    let session = recorder.session("0.1");
    assert_eq!(session.tool_version, "0.1");
    assert_eq!(session.snapshot_count, 2);
    assert_eq!(session.origins, vec!["http://10.1.2.3:8080"]);
}

#[test]
fn recorder_resumes_after_existing_snapshots() {
    let existing = vec![
        sample_snapshot("000002", "b", ENCODING_UTF8),
        sample_snapshot("000001", "a", ENCODING_UTF8),
        sample_snapshot("odd", "c", ENCODING_UTF8),
    ];
    let mut recorder = Recorder::new("/d".to_string(), &existing);
    assert!(!recorder.is_exhausted());
    let id3 = recorder.next_id();
    assert_eq!(id3, "000003");
    let snap3 = sample_snapshot(&id3, "c", ENCODING_UTF8);
    recorder.note_written(&snap3);
    assert_eq!(recorder.session("").snapshot_count, 4);
}

#[test]
fn recorder_knows_when_it_has_no_number_left() {
    let last = vec![sample_snapshot("18446744073709551615", "a", ENCODING_UTF8)];
    assert!(Recorder::new("/d".to_string(), &last).is_exhausted());
    let over = vec![sample_snapshot("18446744073709551616", "a", ENCODING_UTF8)];
    assert_eq!(max_id(&over), 0);
    assert_eq!(max_id(&[]), 0);
}

#[test]
fn ids_grow_past_six_digits() {
    let last = vec![sample_snapshot("999999", "a", ENCODING_UTF8)];
    let mut recorder = Recorder::new("/d".to_string(), &last);
    assert_eq!(recorder.next_id(), "1000000");
}

#[test]
fn origins_are_sorted_and_listed_once() {
    let list: Vec<String> = ["b", "a", "b", "A", ""].iter().map(|s| s.to_string()).collect();
    assert_eq!(sort_origins(&list), vec!["", "A", "a", "b"]);
}

#[test]
fn sites_are_listed_by_their_snapshots() {
    let row = |site: &str, api_count, asset_count| Row {
        site: site.to_string(),
        api_count,
        asset_count,
    };
    let rows = vec![row("b.com", 1, 0), row("a.com", 1, 2), row("c.com", 30, 4)];
    assert!(totals_fit(&rows));
    let pad = |s: &str| format!("{s}{}", " ".repeat(26 - s.chars().count()));
    assert_eq!(
        table(rows),
        vec![
            format!("{}      接口       资源", pad("站点")),
            format!("{}      30        4", pad("c.com")),
            format!("{}       1        2", pad("a.com")),
            format!("{}       1        0", pad("b.com")),
            format!("{}      32        6", pad("合计")),
        ]
    );
    assert!(!totals_fit(&[row("a", usize::MAX, 0), row("b", 1, 0)]));
    assert!(!totals_fit(&[row("a", 0, usize::MAX), row("b", 0, 1)]));
    assert_eq!(
        nothing_recorded_message("./tape-api"),
        "数据目录 ./tape-api 下没有 snapshots/，请先运行 tape record"
    );
}

#[test]
fn certificates_are_checked_unless_switched_off() {
    for on in ["1", "true", " YES ", "On"] {
        assert!(insecure_tls_enabled(Some(on)));
    }
    for off in ["", "0", "false", "2", "enabled"] {
        assert!(!insecure_tls_enabled(Some(off)));
    }
    assert!(!insecure_tls_enabled(None));
}

#[test]
fn times_are_written() {
    let t = CivilTime { year: 2026, month: 8, day: 2, hour: 5, minute: 44, second: 1 };
    assert_eq!(format_stamp(t), "20260802-054401");
    let t = CivilTime { year: 2026, month: 8, day: 2, hour: 15, minute: 44, second: 41 };
    assert_eq!(format_log_time(t), "2026-08-02 15:44:41");
    assert_eq!(time_or_epoch(None), "1970-01-01T00:00:00Z");
    assert_eq!(time_or_epoch(Some("x".to_string())), "x");
    assert!(local_time().year >= 2024);
    let now = now_rfc3339();
    assert!(now.ends_with('Z'));
    assert!(now.as_str() > "2024");
}

#[test]
fn compression_is_undone() {
    for encoding in ["gzip", "br", "deflate"] {
        let data = b"hello hello hello hello".to_vec();
        let packed = recompress(encoding, &data).unwrap();
        assert_ne!(packed, data);
        assert_eq!(decompress(encoding, &packed), Some(data));
    }
    assert_eq!(recompress("zstd", b"x"), None);
    assert_eq!(decompress("zstd", b"x"), None);
    assert_eq!(decompress("gzip", b"x"), None);
}

#[test]
fn paths_are_joined() {
    assert_eq!(join("a", "b"), "a/b");
    assert_eq!(join("a/", "b"), "a/b");
    assert_eq!(join("", "b"), "b");
}

fn file(name: &str) -> DirItem {
    DirItem::File(name.to_string())
}

fn dir(name: &str, items: Vec<DirItem>) -> DirItem {
    DirItem::Dir(name.to_string(), items)
}

#[test]
fn snapshot_files_are_told_by_their_extension() {
    let items = vec![
        file("001-GET-x.json"),
        file("002-POST-y.json"),
        file("readme.txt"),
        dir("old.json", vec![file("003-GET-z.json")]),
    ];
    assert_eq!(count_json_files(&items), 2);
    assert_eq!(
        collect_json_files(&dir("snapshots", items), "d"),
        vec![
            "d/snapshots/001-GET-x.json",
            "d/snapshots/002-POST-y.json",
            "d/snapshots/old.json/003-GET-z.json"
        ]
    );
    assert_eq!(
        collect_json_files(&dir("snapshots", vec![file("1.json")]), ""),
        vec!["snapshots/1.json"]
    );
    assert_eq!(
        collect_json_files(&dir("snapshots", vec![file("1.json")]), "d/"),
        vec!["d/snapshots/1.json"]
    );
    assert!(is_snapshot_file("a..json"));
    assert!(!is_snapshot_file(".json"));
    assert!(!is_snapshot_file("a.JSON"));
    assert!(!is_snapshot_file("json"));
}

#[test]
fn assets_are_counted_at_any_depth() {
    let resources = vec![
        file("index.json"),
        dir("blobs", vec![file("x"), file("y"), file("z")]),
        dir("b.com", vec![dir("img", vec![file("a.png")]), file("index.html")]),
    ];
    assert_eq!(site_asset_count(&resources, "b.com"), 2);
    assert_eq!(site_asset_count(&resources, "c.com"), 0);
    assert_eq!(site_asset_count(&resources, "index.json"), 0);
    let snapshots = vec![
        file("session.json"),
        dir("b.com", vec![file("1.json"), dir("x", vec![file("2.json")])]),
        dir("c.com", vec![]),
    ];
    let rows = list_sites(&snapshots, &resources);
    let found: Vec<(&str, usize, usize)> = rows
        .iter()
        .map(|r| (r.site.as_str(), r.api_count, r.asset_count))
        .collect();
    assert_eq!(found, vec![("b.com", 1, 2), ("c.com", 0, 0)]);
}
