use std::io::{Read, Write};

use tape::config::RecordFilter;
use tape::http::{read_header, HttpHeader, HttpResponse};
use tape::http_util::RequestUri;
use tape::record::{
    failure_response, keep_exchange, plan_request, record_response, retries, return_response,
    CallData, ForwardFailure, ForwardPlan, RecordAction,
};
use tape::snapshot::decode_body;
use tape::store::Recorder;

const TAPE: &str = "127.0.0.1:8888";

fn uri(s: &str) -> RequestUri {
    let u: hyper::Uri = s.parse().unwrap();
    RequestUri {
        scheme: u.scheme_str().map(|s| s.to_string()),
        authority: u.authority().map(|a| a.as_str().to_string()),
        path_and_query: u.path_and_query().map(|p| p.as_str().to_string()),
        path: u.path().to_string(),
    }
}

fn headers(list: &[(&str, &str)]) -> Vec<HttpHeader> {
    list.iter()
        .map(|(k, v)| HttpHeader { name: k.to_string(), value: v.as_bytes().to_vec() })
        .collect()
}

fn plan_with(target: &str, extra: &[(&str, &str)], filter: &RecordFilter) -> ForwardPlan {
    let mut list = vec![("host", TAPE), ("connection", "close")];
    list.extend_from_slice(extra);
    match plan_request("GET", &uri(target), &headers(&list), filter) {
        RecordAction::Forward(p) => p,
        RecordAction::Respond(r) => panic!("unexpected status {}", r.status),
    }
}

fn plan(target: &str) -> ForwardPlan {
    plan_with(target, &[], &RecordFilter::all())
}

fn upstream(status: u16, list: &[(&str, &str)], body: &[u8]) -> HttpResponse {
    HttpResponse { status, headers: headers(list), body: body.to_vec() }
}

fn call<'a>(plan: &'a ForwardPlan, response: &'a HttpResponse) -> CallData<'a> {
    CallData { method: "GET", plan, req_body: b"", response, duration_ms: 5 }
}

#[test]
fn record_keeps_what_was_forwarded() {
    let target = "http://127.0.0.1:7001/api/user?x=1";
    let p = plan(target);
    assert_eq!(p.url, target);
    assert_eq!(p.origin, "http://127.0.0.1:7001");
    assert!(p.prefix.is_none());
    assert!(p.record);
    let body = br#"{"name":"x","avatar":"http://10.1.2.3:9090/img/a.png"}"#;
    let up = upstream(200, &[("content-type", "application/json")], body);
    let back = return_response(&up, &p.prefix, false);
    assert_eq!(back.body, body.to_vec());

    let mut recorder = Recorder::new("d".to_string(), &[]);
    let kept = record_response(&mut recorder, &call(&p, &up));
    assert_eq!(kept.snapshot.id, "000001");
    assert_eq!(kept.snapshot.request.url, target);
    assert_eq!(kept.snapshot.request.method, "GET");
    assert_eq!(kept.snapshot.response.status, 200);
    assert_eq!(kept.snapshot.duration_ms, 5);
    assert!(kept.snapshot.response.body.contains("http://10.1.2.3:9090/img/a.png"));
    assert_eq!(
        kept.downloads,
        vec!["http://10.1.2.3:9090/img/a.png", "http://127.0.0.1:7001/img/a.png"]
    );
    assert!(kept.asset.is_none());
    assert!(kept.file.starts_with("snapshots/http_127.0.0.1_7001/000001-GET-"));
}

#[test]
fn record_rewrites_redirects_for_prefixed_addresses() {
    let up = upstream(302, &[("location", "http://10.9.9.9:9999/landing")], b"");
    let p = plan("/http://127.0.0.1:7001/start");
    let back = return_response(&up, &p.prefix, false);
    assert_eq!(back.status, 302);
    assert_eq!(
        read_header(&back.headers, "location"),
        "http://127.0.0.1:8888/http://10.9.9.9:9999/landing"
    );
    let mut recorder = Recorder::new("d".to_string(), &[]);
    let kept = record_response(&mut recorder, &call(&p, &up));
    assert_eq!(kept.snapshot.response.status, 302);
    assert!(kept
        .snapshot
        .response
        .headers
        .iter()
        .any(|(k, v)| k == "location" && v == "http://10.9.9.9:9999/landing"));

    let p = plan("http://127.0.0.1:7001/start");
    let back = return_response(&up, &p.prefix, false);
    assert_eq!(read_header(&back.headers, "location"), "http://10.9.9.9:9999/landing");
}

#[test]
fn record_rewrites_page_links_for_prefixed_addresses() {
    let html = r#"<link rel="stylesheet" href="/assets/website/index.css"><script src="//img.alicdn.com/a.js"></script><a href="https://www.test.com/x">x</a><img src="http://cdn.test.com/img/a.png">"#;
    let up = upstream(200, &[("content-type", "text/html")], html.as_bytes());
    let p = plan("/http://127.0.0.1:7001/page");
    let page = String::from_utf8(return_response(&up, &p.prefix, false).body).unwrap();
    for part in [
        r#"src="http://127.0.0.1:8888/http://img.alicdn.com/a.js""#,
        r#"href="http://127.0.0.1:8888/https://www.test.com/x""#,
        r#"src="http://127.0.0.1:8888/http://cdn.test.com/img/a.png""#,
        r#"href="http://127.0.0.1:8888/http://127.0.0.1:7001/assets/website/index.css""#,
    ] {
        assert!(page.contains(part), "{page}");
    }
    let mut recorder = Recorder::new("d".to_string(), &[]);
    let kept = record_response(&mut recorder, &call(&p, &up));
    assert_eq!(kept.snapshot.response.body, html);
}

#[test]
fn record_asks_for_plain_bodies_and_rewrites_packed_ones() {
    let p = plan_with(
        "/http://127.0.0.1:7001/page",
        &[("accept-encoding", "gzip, br")],
        &RecordFilter::all(),
    );
    assert_eq!(read_header(&p.headers, "accept-encoding"), "identity");
    let html =
        r#"<script src="//img.alicdn.com/a.js"></script><a href="https://www.test.com/x">x</a>"#;
    let mut enc = flate2::write::GzEncoder::new(Vec::new(), flate2::Compression::default());
    enc.write_all(html.as_bytes()).unwrap();
    let gz = enc.finish().unwrap();
    let up = upstream(
        200,
        &[("content-type", "text/html"), ("content-encoding", "gzip")],
        &gz,
    );
    let back = return_response(&up, &p.prefix, false);
    assert_eq!(read_header(&back.headers, "content-encoding"), "gzip");
    let mut plain = String::new();
    flate2::read::GzDecoder::new(&back.body[..])
        .read_to_string(&mut plain)
        .unwrap();
    assert!(plain.contains(r#"src="http://127.0.0.1:8888/http://img.alicdn.com/a.js""#));
    assert!(plain.contains(r#"href="http://127.0.0.1:8888/https://www.test.com/x""#));
    let mut recorder = Recorder::new("d".to_string(), &[]);
    let kept = record_response(&mut recorder, &call(&p, &up)).snapshot.response;
    assert!(kept.headers.iter().any(|(k, v)| k == "content-encoding" && v == "gzip"));
    assert_eq!(decode_body(&kept.body, &kept.body_encoding), gz);
}

#[test]
fn record_can_rewrite_what_it_returns() {
    let up = upstream(200, &[("content-type", "text/html")], b"http://10.1.2.3/x");
    let p = plan("http://127.0.0.1:7001/page");
    assert_eq!(return_response(&up, &p.prefix, true).body, b"/x".to_vec());
    assert_eq!(return_response(&up, &p.prefix, false).body, b"http://10.1.2.3/x".to_vec());
}

#[test]
fn record_goes_by_the_filter() {
    let filter = RecordFilter::with_rules(
        vec!["127.0.0.1:7001".to_string()],
        vec![r"^10\.1\.2\.\d+:\d+$".to_string()],
    )
    .unwrap();
    assert!(plan_with("http://127.0.0.1:7001/api/user", &[], &filter).record);
    assert!(plan_with("http://10.1.2.9:80/api/user", &[], &filter).record);
    assert!(!plan_with("http://127.0.0.1:7002/api/user", &[], &filter).record);
}

#[test]
fn record_finds_the_target_of_every_form() {
    let target = "https://127.0.0.1:7001/api/user";
    let encoded = target.replace("://", "%3A%2F%2F").replace(':', "%3A");
    for form in [format!("/{target}"), format!("/{encoded}"), target.to_string()] {
        let p = plan(&form);
        assert_eq!(p.url, target);
        assert_eq!(p.origin, "https://127.0.0.1:7001");
    }
    assert!(plan(&format!("/{target}")).prefix.is_some());
}

#[test]
fn record_forwards_one_host() {
    let p = plan("/http://127.0.0.1:7001/api/user");
    let hosts: Vec<&HttpHeader> = p
        .headers
        .iter()
        .filter(|h| h.name.eq_ignore_ascii_case("host"))
        .collect();
    assert_eq!(hosts.len(), 1);
    assert_eq!(hosts[0].value, b"127.0.0.1:7001".to_vec());
    assert_eq!(read_header(&p.headers, "connection"), "");
    assert!(p.request_headers.iter().any(|(k, v)| k == "host" && v == TAPE));
}

#[test]
fn record_adds_a_referer_for_resources() {
    let p = plan("/http://127.0.0.1:7001/img/a.png");
    assert_eq!(read_header(&p.headers, "referer"), "http://127.0.0.1:7001/");
    let p = plan("/http://127.0.0.1:7001/api/user");
    assert_eq!(read_header(&p.headers, "referer"), "");
    let p = plan_with(
        "/http://127.0.0.1:7001/img/a.png",
        &[("referer", "http://client.example/from-browser")],
        &RecordFilter::all(),
    );
    assert_eq!(read_header(&p.headers, "referer"), "http://client.example/from-browser");
}

#[test]
fn record_refuses_requests_without_a_target() {
    match plan_request("GET", &uri("/api/user"), &headers(&[("host", TAPE)]), &RecordFilter::all())
    {
        RecordAction::Respond(r) => assert_eq!(r.status, 400),
        RecordAction::Forward(_) => panic!("there is nowhere to forward to"),
    }
    match plan_request("GET", &uri("ftp://a/x"), &[], &RecordFilter::all()) {
        RecordAction::Respond(r) => assert!(r.status >= 400),
        RecordAction::Forward(_) => panic!("the scheme must be refused"),
    }
}

#[test]
fn record_keeps_assets_that_were_asked_for() {
    let p = plan("http://127.0.0.1:7001/img/a.png");
    let up = upstream(200, &[("content-type", "image/png")], b"FAKE-PNG-BYTES");
    let mut recorder = Recorder::new("d".to_string(), &[]);
    let kept = record_response(&mut recorder, &call(&p, &up));
    let place = kept.asset.unwrap();
    assert_eq!(place.origin, "http://127.0.0.1:7001");
    assert_eq!(place.path, "/img/a.png");
    assert_eq!(place.content_type, "image/png");
}

#[test]
fn failures_are_answered() {
    let body = |f: &ForwardFailure| {
        let r = failure_response(f);
        (r.status, String::from_utf8(r.body).unwrap())
    };
    assert_eq!(
        body(&ForwardFailure::UnreadableBody("e".to_string())),
        (400, "读取请求体失败: e".to_string())
    );
    assert_eq!(
        body(&ForwardFailure::InvalidRequest("e".to_string())),
        (500, "构造转发请求失败: e".to_string())
    );
    assert_eq!(
        body(&ForwardFailure::Unreachable("http://a".to_string())),
        (502, "无法连接上游 http://a".to_string())
    );
    assert_eq!(
        body(&ForwardFailure::Timeout(30)),
        (504, "上游响应超时（30s）".to_string())
    );
    assert_eq!(
        body(&ForwardFailure::InvalidResponse("e".to_string())),
        (500, "构造回传响应失败: e".to_string())
    );
}

#[test]
fn a_filter_only_decides_what_is_kept() {
    let target = "http://10.1.2.3:8080/img/a.png";
    let mine = RecordFilter::with_rules(vec!["10.1.2.3".to_string()], vec![]).unwrap();
    let other = RecordFilter::with_rules(vec!["10.9.9.9".to_string()], vec![]).unwrap();
    let p = plan_with(target, &[], &mine);
    let q = plan_with(target, &[], &other);
    assert!(p.record);
    assert!(!q.record);
    assert_eq!(p.url, q.url);
    assert_eq!(p.timeout_secs, q.timeout_secs);
    assert_eq!(p.request_headers, q.request_headers);
    let up = upstream(200, &[("content-type", "image/png")], b"png");
    let a = return_response(&up, &p.prefix, true);
    let b = return_response(&up, &q.prefix, true);
    assert_eq!((a.status, a.body), (b.status, b.body));

    let mut recorder = Recorder::new("d".to_string(), &[]);
    assert!(keep_exchange(&mut recorder, &call(&q, &up)).is_none());
    let kept = keep_exchange(&mut recorder, &call(&p, &up)).unwrap();
    assert_eq!(kept.snapshot.id, "000001");
    assert_eq!(kept.asset.unwrap().path, "/img/a.png");
}

#[test]
fn a_query_does_not_make_a_resource() {
    let p = plan("http://10.1.2.3:8080/api?u=http://h/img/a.png");
    assert_eq!(p.timeout_secs, 30);
    assert_eq!(read_header(&p.headers, "referer"), "");
    let p = plan("http://10.1.2.3:8080/img/a.png?u=1");
    assert_eq!(p.timeout_secs, 120);
    assert_eq!(read_header(&p.headers, "referer"), "http://10.1.2.3:8080/");
}

#[test]
fn only_reads_are_sent_again() {
    let p = plan("http://10.1.2.3:8080/api");
    assert!(retries(&p, 1));
    assert!(!retries(&p, 2));
    let list = headers(&[("host", TAPE)]);
    match plan_request("POST", &uri("http://h/api"), &list, &RecordFilter::all()) {
        RecordAction::Forward(p) => assert!(!retries(&p, 1)),
        RecordAction::Respond(r) => panic!("unexpected status {}", r.status),
    }
}

fn is_utc_time(s: &str) -> bool {
    let shape: String =
        s.chars().map(|c| if c.is_ascii_digit() { '0' } else { c }).take(19).collect();
    let rest = &s[19..];
    shape == "0000-00-00T00:00:00"
        && (rest == "Z"
            || (rest.starts_with('.')
                && rest.ends_with('Z')
                && rest[1..rest.len() - 1].chars().all(|c| c.is_ascii_digit())))
}

#[test]
fn recordings_say_when_they_were_made() {
    let mut recorder = Recorder::new("d".to_string(), &[]);
    assert!(is_utc_time(&recorder.session("1").recorded_at));
    let p = plan("http://10.1.2.3:8080/api");
    let up = upstream(200, &[], b"");
    let kept = record_response(&mut recorder, &call(&p, &up));
    assert!(is_utc_time(&kept.snapshot.recorded_at), "{}", kept.snapshot.recorded_at);
    assert!(kept.snapshot.recorded_at.as_str() > "2020-01-01T00:00:00Z");
}
