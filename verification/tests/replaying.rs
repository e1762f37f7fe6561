use std::io::{Read, Write};

use tape::download::{ResourceIndexEntry, ResourceStore};
use tape::http::{read_header, HttpHeader, HttpRequest, HttpResponse};
use tape::http_util::RequestUri;
use tape::replay::{
    origin_host, request_method_path, resource_response, unbuildable, ReplayAction, ReplayState,
};
use tape::rewrite::RewriteRule;
use tape::snapshot::{
    encode_body, RequestRecord, ResponseRecord, Snapshot, ENCODING_UTF8,
};

const HOST: &str = "127.0.0.1:9000";

fn snap(id: &str, method: &str, url: &str, origin: &str) -> Snapshot {
    Snapshot {
        id: id.to_string(),
        origin: origin.to_string(),
        recorded_at: "2026-08-01T00:00:00Z".to_string(),
        duration_ms: 1,
        request: RequestRecord {
            method: method.to_string(),
            url: url.to_string(),
            headers: vec![],
            body: String::new(),
            body_encoding: ENCODING_UTF8.to_string(),
        },
        response: ResponseRecord {
            status: 200,
            headers: vec![("content-type".to_string(), "application/json".to_string())],
            body: "{}".to_string(),
            body_encoding: ENCODING_UTF8.to_string(),
        },
    }
}

fn answer(url: &str, headers: &[(&str, &str)], body: &str) -> Snapshot {
    let mut s = snap("000001", "GET", url, "http://10.1.2.3:8080");
    s.response.headers = headers
        .iter()
        .map(|(k, v)| (k.to_string(), v.to_string()))
        .collect();
    s.response.body = body.to_string();
    s
}

fn request(method: &str, target: &str, host: &str) -> HttpRequest {
    let u: hyper::Uri = target.parse().unwrap();
    HttpRequest {
        method: method.to_string(),
        uri: RequestUri {
            scheme: u.scheme_str().map(|s| s.to_string()),
            authority: u.authority().map(|a| a.as_str().to_string()),
            path_and_query: u.path_and_query().map(|p| p.as_str().to_string()),
            path: u.path().to_string(),
        },
        headers: vec![HttpHeader {
            name: "Host".to_string(),
            value: host.as_bytes().to_vec(),
        }],
        body: Vec::new(),
    }
}

fn index(entries: &[(&str, &str, &str)]) -> Vec<ResourceIndexEntry> {
    let mut store = ResourceStore::open("resources".to_string(), Vec::new());
    for (data, origin, path) in entries {
        let plan = store.plan(data.as_bytes(), origin, path, "image/png");
        store.store(plan.entry);
    }
    store.index().iter().map(|e| e.clone()).collect()
}

fn replay(rule: RewriteRule, snapshots: Vec<Snapshot>) -> ReplayState {
    ReplayState::new("d".to_string(), rule, snapshots, Vec::new())
}

fn response(action: ReplayAction) -> HttpResponse {
    match action {
        ReplayAction::Respond(r) => r,
        ReplayAction::ReadBlob(b) => panic!("unexpected blob {}", b.file),
    }
}

fn text(r: &HttpResponse) -> String {
    String::from_utf8(r.body.clone()).unwrap()
}

#[test]
fn parses_request_path_ignoring_query() {
    let s = snap(
        "000001",
        "GET",
        "http://10.1.2.3:8080/api/user?id=1",
        "http://10.1.2.3:8080",
    );
    assert_eq!(
        request_method_path(&s),
        ("GET".to_string(), "/api/user".to_string())
    );
}

#[test]
fn origin_host_extraction() {
    assert_eq!(origin_host("http://10.1.2.3:8080"), "10.1.2.3:8080");
}

#[test]
fn replay_rewrites_compressed_bodies() {
    let html = r#"<script src="//img.alicdn.com/a.js"></script>"#;
    let mut enc = flate2::write::GzEncoder::new(Vec::new(), flate2::Compression::default());
    enc.write_all(html.as_bytes()).unwrap();
    let (body, body_encoding) = encode_body(&enc.finish().unwrap());
    let mut s = answer(
        "http://10.1.2.3:8080/page",
        &[("content-type", "text/html"), ("content-encoding", "gzip")],
        &body,
    );
    s.response.body_encoding = body_encoding;
    let state = replay(RewriteRule::Relative, vec![s]);
    let r = response(state.handle_request(&request("GET", "/http://10.1.2.3:8080/page", HOST)));
    assert_eq!(r.status, 200);
    assert_eq!(read_header(&r.headers, "content-encoding"), "gzip");
    let mut plain = String::new();
    flate2::read::GzDecoder::new(&r.body[..])
        .read_to_string(&mut plain)
        .unwrap();
    assert!(plain.contains(r#"src="http://127.0.0.1:9000/http://img.alicdn.com/a.js""#));
}

#[test]
fn replay_rewrites_page_links_back() {
    let s = answer(
        "http://10.1.2.3:8080/page",
        &[("content-type", "text/html")],
        r#"<link rel="stylesheet" href="/assets/website/index.css"><script src="//img.alicdn.com/a.js"></script><a href="https://www.test.com/x">x</a>"#,
    );
    let state = replay(RewriteRule::Relative, vec![s]);
    let r = response(state.handle_request(&request("GET", "/http://10.1.2.3:8080/page", HOST)));
    let page = text(&r);
    assert!(page.contains(r#"src="http://127.0.0.1:9000/http://img.alicdn.com/a.js""#));
    assert!(page.contains(r#"href="http://127.0.0.1:9000/https://www.test.com/x""#));
    assert!(page.contains(
        r#"href="http://127.0.0.1:9000/http://10.1.2.3:8080/assets/website/index.css""#
    ));
}

#[test]
fn replay_matches_by_method_and_path() {
    let s = answer(
        "http://10.1.2.3:8080/api/user?id=1",
        &[("content-type", "application/json")],
        r#"{"url":"http://10.1.2.3:8080/api/user?id=1"}"#,
    );
    let state = ReplayState::new(
        "d".to_string(),
        RewriteRule::Relative,
        vec![s],
        index(&[("PNGDATA", "http://10.1.2.3:8080", "/img/a.png")]),
    );
    assert_eq!(state.snapshot_count(), 1);
    assert_eq!(state.resource_count(), 1);
    assert_eq!(state.root(), "d");
    let r = response(state.handle_request(&request("GET", "/api/user", HOST)));
    assert_eq!(r.status, 200);
    assert_eq!(text(&r), r#"{"url":"/api/user?id=1"}"#);

    match state.handle_request(&request("GET", "/img/a.png", HOST)) {
        ReplayAction::ReadBlob(b) => {
            assert!(b.file.starts_with("resources/blobs/"));
            let r = resource_response(&b, Some(b"PNGDATA".to_vec()));
            assert_eq!(r.status, 200);
            assert_eq!(r.body, b"PNGDATA".to_vec());
            assert_eq!(read_header(&r.headers, "content-type"), "image/png");
            let gone = resource_response(&b, None);
            assert_eq!(gone.status, 404);
        }
        ReplayAction::Respond(_) => panic!("the resource must be read"),
    }

    let r = response(state.handle_request(&request("GET", "/nope", HOST)));
    assert_eq!(r.status, 404);
    assert_eq!(text(&r), "未找到 GET /nope 的录制快照");
    let r = response(state.handle_request(&request("POST", "/api/user", HOST)));
    assert_eq!(r.status, 404);
}

#[test]
fn replay_rewrites_redirects_back() {
    let mut s = answer(
        "http://10.1.2.3:8080/start",
        &[("location", "https://www.dingtalk.com/"), ("content-type", "text/plain")],
        "redirecting",
    );
    s.response.status = 302;
    let state = replay(RewriteRule::Relative, vec![s]);
    let r = response(state.handle_request(&request("GET", "/http://10.1.2.3:8080/start", HOST)));
    assert_eq!(r.status, 302);
    assert_eq!(
        read_header(&r.headers, "location"),
        "http://127.0.0.1:9000/https://www.dingtalk.com/"
    );
    let r = response(state.handle_request(&request(
        "GET",
        "http://10.1.2.3:8080/start",
        "10.1.2.3:8080",
    )));
    assert_eq!(r.status, 302);
    assert_eq!(read_header(&r.headers, "location"), "https://www.dingtalk.com/");
}

#[test]
fn replay_ignores_queries_in_every_form() {
    let s = answer(
        "http://10.1.2.3:8080/api/user?id=1",
        &[("content-type", "application/json")],
        r#"{"url":"http://10.1.2.3:8080/api/user?id=1"}"#,
    );
    let state = ReplayState::new(
        "d".to_string(),
        RewriteRule::Keep,
        vec![s],
        index(&[("PNGDATA", "http://10.1.2.3:8080", "/img/a.png")]),
    );
    let r = response(state.handle_request(&request(
        "GET",
        "http://10.1.2.3:8080/api/user?id=1",
        "10.1.2.3:8080",
    )));
    assert_eq!(r.status, 200);
    assert_eq!(text(&r), r#"{"url":"http://10.1.2.3:8080/api/user?id=1"}"#);
    let r = response(state.handle_request(&request(
        "GET",
        "/http://10.1.2.3:8080/api/user?id=1",
        HOST,
    )));
    assert_eq!(
        text(&r),
        r#"{"url":"http://127.0.0.1:9000/http://10.1.2.3:8080/api/user?id=1"}"#
    );
    for target in ["/http://10.1.2.3:8080/img/a.png?v=2", "http://10.1.2.3:8080/img/a.png?v=2"] {
        match state.handle_request(&request("GET", target, HOST)) {
            ReplayAction::ReadBlob(_) => {}
            ReplayAction::Respond(r) => panic!("unexpected status {}", r.status),
        }
    }
}

#[test]
fn replay_takes_the_latest_snapshot() {
    let origin = "http://10.1.2.3:8080";
    let mut a = snap("000001", "GET", "http://10.1.2.3:8080/api/user?id=1", origin);
    a.response.body = "\"OLD\"".to_string();
    let mut b = snap("000002", "GET", "http://10.1.2.3:8080/api/user?id=2", origin);
    b.response.body = "\"NEW\"".to_string();
    let state = replay(RewriteRule::Keep, vec![a, b]);
    let r = response(state.handle_request(&request("GET", "/api/user", HOST)));
    assert_eq!(text(&r), "\"NEW\"");
    let r = response(state.handle_request(&request("GET", "/api/user", "10.1.2.3:8080")));
    assert_eq!(text(&r), "\"NEW\"");
}

#[test]
fn replay_prefers_the_host_that_was_asked_for() {
    let mut a = snap("000001", "GET", "http://a/x", "http://a");
    a.response.body = "A".to_string();
    let mut b = snap("000002", "GET", "http://b/x", "http://b");
    b.response.body = "B".to_string();
    let state = replay(RewriteRule::Keep, vec![a, b]);
    assert_eq!(state.match_snapshot("GET", "/x", "a").unwrap().id, "000001");
    assert_eq!(state.match_snapshot("GET", "/x", "c").unwrap().id, "000002");
    assert!(state.match_snapshot("GET", "/y", "a").is_none());
}

#[test]
fn replay_resources_stay_with_their_origin() {
    let state = ReplayState::new(
        "d".to_string(),
        RewriteRule::Keep,
        Vec::new(),
        index(&[
            ("ORIGIN-A", "http://10.1.2.3:8080", "/img/a.png"),
            ("ORIGIN-B", "http://10.2.3.4:8080", "/img/a.png"),
        ]),
    );
    let blob = |target: &str| match state.handle_request(&request("GET", target, HOST)) {
        ReplayAction::ReadBlob(b) => b.file,
        ReplayAction::Respond(r) => panic!("unexpected status {}", r.status),
    };
    let a = blob("/http://10.1.2.3:8080/img/a.png");
    let b = blob("/http://10.2.3.4:8080/img/a.png");
    assert_ne!(a, b);
    assert_eq!(blob("/img/a.png"), a);
    assert!(state.match_resource("/img/b.png", "x").is_none());
}

#[test]
fn replay_resources_are_only_read() {
    let state = ReplayState::new(
        "d".to_string(),
        RewriteRule::Keep,
        Vec::new(),
        index(&[("PNGDATA", "http://10.1.2.3:8080", "/img/a.png")]),
    );
    let r = response(state.handle_request(&request("POST", "/img/a.png", HOST)));
    assert_eq!(r.status, 405);
    assert_eq!(read_header(&r.headers, "allow"), "GET, HEAD");
    match state.handle_request(&request("HEAD", "/img/a.png", HOST)) {
        ReplayAction::ReadBlob(_) => {}
        ReplayAction::Respond(_) => panic!("the resource must be read"),
    }
}

#[test]
fn replay_serves_prefixed_addresses() {
    let s = answer(
        "http://10.1.2.3:8080/api/user?id=1",
        &[("content-type", "application/json")],
        r#"{"url":"http://10.1.2.3:8080/api/user?id=1"}"#,
    );
    let state = replay(RewriteRule::Relative, vec![s]);
    let r = response(state.handle_request(&request("GET", "/http://10.1.2.3:8080/api/user", HOST)));
    assert_eq!(r.status, 200);
    assert_eq!(
        text(&r),
        r#"{"url":"http://127.0.0.1:9000/http://10.1.2.3:8080/api/user?id=1"}"#
    );
}

#[test]
fn replayed_headers_leave_out_the_connection() {
    let s = answer(
        "http://10.1.2.3:8080/img/x.svg",
        &[("Connection", "close"), ("Content-Length", "5"), ("x-kept", "yes")],
        "<svg/>",
    );
    let state = replay(RewriteRule::Keep, vec![s]);
    let r = response(state.handle_request(&request("GET", "/img/x.svg", HOST)));
    assert_eq!(read_header(&r.headers, "connection"), "");
    assert_eq!(read_header(&r.headers, "content-length"), "");
    assert_eq!(read_header(&r.headers, "x-kept"), "yes");
    assert_eq!(read_header(&r.headers, "content-type"), "image/svg+xml");
}

#[test]
fn answers_that_cannot_be_built_are_not_found() {
    let r = unbuildable();
    assert_eq!(r.status, 404);
    assert_eq!(text(&r), "构造响应失败");
}

#[test]
fn resources_are_found_under_their_own_path() {
    let list = ["/img/a.png", "/图/é.png", "/img/con", "/img/c_d.png", "/img/c!d.png", "/static/"];
    let entries: Vec<(&str, &str, &str)> = list.iter().map(|p| (*p, "http://a", *p)).collect();
    let state =
        ReplayState::new("d".to_string(), RewriteRule::Keep, Vec::new(), index(&entries));
    for path in list {
        assert!(state.match_resource(path, "a").is_some(), "{path}");
    }
    let hash = |path: &str| state.match_resource(path, "a").map(|e| e.hash.clone());
    assert_ne!(hash("/img/c_d.png"), hash("/img/c!d.png"));
    assert!(state.match_resource("/img/a!.png", "a").is_none());
    assert!(state.match_resource("/static", "a").is_none());
    assert!(state.match_resource("/img//a.png", "a").is_none());
    assert!(state.match_resource("/img/a.png/", "a").is_none());
    assert!(state.match_resource("img/a.png", "a").is_none());
}

#[test]
fn resources_of_an_older_index_are_found_under_their_path_on_disk() {
    let mut entries = index(&[("x", "http://a", "/img/c!d.png")]);
    entries[0].url_path = None;
    let state = ReplayState::new("d".to_string(), RewriteRule::Keep, Vec::new(), entries);
    assert!(state.match_resource("/img/c_d.png", "a").is_some());
    assert!(state.match_resource("/img/c!d.png", "a").is_none());
}
