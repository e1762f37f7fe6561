use std::io::{Read, Write};

use tape::pattern::slice;
use tape::rewrite::{
    base_host, extract_http_urls, extract_relative_asset_paths, is_local_host, is_namespace_host,
    replaced, rewrite_css_response_bytes, rewrite_location, rewrite_response_bytes,
    rewrite_response_bytes_for, rewrite_text, url_path, RewriteRule,
};

fn prefix(base: &str, scheme: &str, origin: &str) -> RewriteRule {
    RewriteRule::Prefix {
        base: base.to_string(),
        scheme: scheme.to_string(),
        origin: origin.to_string(),
    }
}

fn chars(s: &str) -> Vec<char> {
    s.chars().collect()
}

fn gzip(data: &[u8]) -> Vec<u8> {
    let mut enc = flate2::write::GzEncoder::new(Vec::new(), flate2::Compression::default());
    enc.write_all(data).unwrap();
    enc.finish().unwrap()
}

fn gunzip(data: &[u8]) -> String {
    let mut d = flate2::read::GzDecoder::new(data);
    let mut plain = String::new();
    d.read_to_string(&mut plain).unwrap();
    plain
}

#[test]
fn relative_basic() {
    let out = rewrite_text(
        r#"{"url":"http://10.1.2.3:8080/api/user?id=1"}"#,
        &RewriteRule::Relative,
    );
    assert_eq!(out, r#"{"url":"/api/user?id=1"}"#);
}

#[test]
fn relative_keeps_port_and_query() {
    let out = rewrite_text(
        "http://10.1.2.3:9090/img/a.png?x=1&y=2",
        &RewriteRule::Relative,
    );
    assert_eq!(out, "/img/a.png?x=1&y=2");
}

#[test]
fn relative_no_path() {
    assert_eq!(
        rewrite_text("http://10.1.2.3:8080", &RewriteRule::Relative),
        "/"
    );
    assert_eq!(
        rewrite_text("https://10.1.2.3", &RewriteRule::Relative),
        "/"
    );
}

#[test]
fn relative_keeps_query_without_path() {
    assert_eq!(
        rewrite_text("http://10.1.2.3:8080?x=1", &RewriteRule::Relative),
        "/?x=1"
    );
    let rule = prefix("http://127.0.0.1:8888", "http", "10.1.2.3:8080");
    assert_eq!(
        rewrite_text("http://10.1.2.3:8080?x=1", &rule),
        "http://127.0.0.1:8888/http://10.1.2.3:8080/?x=1"
    );
    assert_eq!(
        extract_http_urls("http://10.1.2.3:8080?x=1"),
        vec!["http://10.1.2.3:8080?x=1"]
    );
}

#[test]
fn relative_in_html() {
    let html = r#"<img src="http://10.1.2.3:8080/img/a.png"><a href="http://10.1.2.3:8080/page">p</a>"#;
    let out = rewrite_text(html, &RewriteRule::Relative);
    assert_eq!(out, r#"<img src="/img/a.png"><a href="/page">p</a>"#);
}

#[test]
fn relative_in_css() {
    let css = "body { background: url(http://10.1.2.3:8080/img/bg.png); }";
    let out = rewrite_text(css, &RewriteRule::Relative);
    assert_eq!(out, "body { background: url(/img/bg.png); }");
}

#[test]
fn absolute_mode() {
    let rule = RewriteRule::Absolute {
        base: "http://127.0.0.1:8080/".to_string(),
    };
    let out = rewrite_text("http://10.1.2.3:8080/api/user?id=1", &rule);
    assert_eq!(out, "http://127.0.0.1:8080/api/user?id=1");
}

#[test]
fn absolute_mode_skips_same_host() {
    let rule = RewriteRule::Absolute {
        base: "http://127.0.0.1:8080/".to_string(),
    };
    let out = rewrite_text("http://127.0.0.1:8080/api/user?id=1", &rule);
    assert_eq!(out, "http://127.0.0.1:8080/api/user?id=1");
}

#[test]
fn absolute_mode_skips_its_own_base() {
    let rule = RewriteRule::Absolute {
        base: "http://Tape.Local:8080/x/".to_string(),
    };
    assert_eq!(
        rewrite_text("http://tape.local:9/a http://b.com/c", &rule),
        "http://tape.local:9/a http://Tape.Local:8080/x/c"
    );
}

#[test]
fn prefix_mode_rewrites_to_tape_url() {
    let rule = prefix("http://127.0.0.1:8888", "http", "10.1.2.3:8080");
    assert_eq!(
        rewrite_text("http://10.1.2.3:8080/api/user?id=1", &rule),
        "http://127.0.0.1:8888/http://10.1.2.3:8080/api/user?id=1"
    );
    assert_eq!(
        rewrite_text("https://api.company.com/v1/login", &rule),
        "http://127.0.0.1:8888/https://api.company.com/v1/login"
    );
    assert_eq!(
        rewrite_text("https://www.test.com/", &rule),
        "http://127.0.0.1:8888/https://www.test.com/"
    );
    assert_eq!(
        rewrite_text("http://127.0.0.1:8888/x", &rule),
        "http://127.0.0.1:8888/x"
    );
    assert_eq!(
        rewrite_text("http://localhost:8080/x", &rule),
        "http://localhost:8080/x"
    );
}

#[test]
fn prefix_mode_rewrites_protocol_relative_links() {
    let rule = prefix("http://127.0.0.1:8888", "https", "www.dingtalk.com");
    assert_eq!(
        rewrite_text(
            r#"<script src="//g.alicdn.com/alilog/mlog/aplus_v2.js"></script>"#,
            &rule
        ),
        r#"<script src="http://127.0.0.1:8888/https://g.alicdn.com/alilog/mlog/aplus_v2.js"></script>"#
    );
    assert_eq!(
        rewrite_text("body{background:url(//img.alicdn.com/bg.png)}", &rule),
        "body{background:url(http://127.0.0.1:8888/https://img.alicdn.com/bg.png)}"
    );
    let once = rewrite_text("src=\"//g.alicdn.com/a.js\"", &rule);
    assert_eq!(rewrite_text(&once, &rule), once);
    assert_eq!(
        rewrite_text("https://g.alicdn.com/x", &rule),
        "http://127.0.0.1:8888/https://g.alicdn.com/x"
    );
    assert_eq!(
        rewrite_text("src=\"//localhost/x.js\"", &rule),
        "src=\"//localhost/x.js\""
    );
}

#[test]
fn prefix_mode_rewrites_root_relative_html_attrs() {
    let rule = prefix("http://127.0.0.1:8888", "https", "qwenwork.cn");
    let html = r#"<link rel="stylesheet" href="/assets/website/index.css"><img src="/img/a.png"><form action="/login"><a href="/">home</a>"#;
    let out = rewrite_text(html, &rule);
    assert!(
        out.contains(
            r#"href="http://127.0.0.1:8888/https://qwenwork.cn/assets/website/index.css""#
        ),
        "root-relative css: {out}"
    );
    assert!(
        out.contains(r#"src="http://127.0.0.1:8888/https://qwenwork.cn/img/a.png""#),
        "root-relative img: {out}"
    );
    assert!(
        out.contains(r#"action="http://127.0.0.1:8888/https://qwenwork.cn/login""#),
        "root-relative action: {out}"
    );
    assert!(
        out.contains(r#"href="http://127.0.0.1:8888/https://qwenwork.cn/""#),
        "href=/: {out}"
    );
    assert_eq!(
        rewrite_text(r#"<script src="//g.alicdn.com/a.js"></script>"#, &rule),
        r#"<script src="http://127.0.0.1:8888/https://g.alicdn.com/a.js"></script>"#
    );
    assert_eq!(
        rewrite_text(r#"<a href="https://www.test.com/x">x</a>"#, &rule),
        r#"<a href="http://127.0.0.1:8888/https://www.test.com/x">x</a>"#
    );
    let once = rewrite_text(html, &rule);
    assert_eq!(rewrite_text(&once, &rule), once);
}

#[test]
fn prefix_mode_rewrites_root_relative_css_urls() {
    let rule = prefix("http://127.0.0.1:8888", "https", "qwenwork.cn");
    let css = r#"@font-face{src:url(/fonts/Alimama.woff2)}.a{background:url('/img/bg.png')}"#;
    let out = rewrite_css_response_bytes(css.as_bytes(), "", &rule).unwrap();
    assert_eq!(
        String::from_utf8(out.to_vec()).unwrap(),
        r#"@font-face{src:url(http://127.0.0.1:8888/https://qwenwork.cn/fonts/Alimama.woff2)}.a{background:url('http://127.0.0.1:8888/https://qwenwork.cn/img/bg.png')}"#
    );
    let out = rewrite_css_response_bytes(b"url(./assets/x.ttf)", "", &rule).unwrap();
    assert_eq!(
        String::from_utf8(out.to_vec()).unwrap(),
        "url(./assets/x.ttf)"
    );
    assert!(rewrite_css_response_bytes(b"x", "", &RewriteRule::Relative).is_none());
    let gz = gzip(b"url(/fonts/x.woff2)");
    let out = rewrite_css_response_bytes(&gz, "gzip", &rule).unwrap();
    assert_eq!(
        gunzip(&out),
        "url(http://127.0.0.1:8888/https://qwenwork.cn/fonts/x.woff2)"
    );
}

#[test]
fn rewrite_location_forms() {
    let base = "http://127.0.0.1:8888";
    assert_eq!(
        rewrite_location(
            "https://www.dingtalk.com/",
            "https",
            "login.dingtalk.com",
            base
        ),
        "http://127.0.0.1:8888/https://www.dingtalk.com/"
    );
    assert_eq!(
        rewrite_location("//www.dingtalk.com/x", "https", "login.dingtalk.com", base),
        "http://127.0.0.1:8888/https://www.dingtalk.com/x"
    );
    assert_eq!(
        rewrite_location("/redirect", "https", "login.dingtalk.com", base),
        "http://127.0.0.1:8888/https://login.dingtalk.com/redirect"
    );
    assert_eq!(
        rewrite_location(
            "http://localhost:8080/x",
            "https",
            "login.dingtalk.com",
            base
        ),
        "http://localhost:8080/x"
    );
    assert_eq!(
        rewrite_location(
            "http://127.0.0.1:8888/x",
            "https",
            "login.dingtalk.com",
            base
        ),
        "http://127.0.0.1:8888/x"
    );
    assert_eq!(
        rewrite_location("", "https", "login.dingtalk.com", base),
        ""
    );
    assert_eq!(
        rewrite_location("#top", "https", "login.dingtalk.com", base),
        "#top"
    );
}

#[test]
fn rewrite_location_trims_and_roots() {
    assert_eq!(
        rewrite_location("  next/page ", "http", "h:1", "http://t:8888//"),
        "http://t:8888/http://h:1/next/page"
    );
    assert_eq!(
        rewrite_location("//LOCALHOST:3/x", "http", "h", "http://t"),
        "//LOCALHOST:3/x"
    );
}

#[test]
fn rewrite_compressed_body_gzip_and_br() {
    let rule = prefix("http://127.0.0.1:8888", "http", "10.1.2.3:8080");
    let html = r#"<script src="//img.alicdn.com/a.js"></script>"#;

    let gz = gzip(html.as_bytes());
    let out = rewrite_response_bytes(&gz, "gzip", &rule);
    assert_eq!(
        gunzip(&out),
        r#"<script src="http://127.0.0.1:8888/http://img.alicdn.com/a.js"></script>"#
    );

    let mut br_out = Vec::new();
    let params = brotli::enc::BrotliEncoderParams {
        quality: 5,
        lgwin: 20,
        ..Default::default()
    };
    brotli::BrotliCompress(&mut &html.as_bytes()[..], &mut br_out, &params).unwrap();
    let out = rewrite_response_bytes(&br_out, "br", &rule);
    let mut plain = Vec::new();
    brotli::BrotliDecompress(&mut &out[..], &mut plain).unwrap();
    assert_eq!(
        String::from_utf8(plain).unwrap(),
        r#"<script src="http://127.0.0.1:8888/http://img.alicdn.com/a.js"></script>"#
    );

    let binary = [0u8, 159, 146, 150, 0, 1, 2, 3];
    assert_eq!(
        rewrite_response_bytes(&binary, "", &rule),
        binary.to_vec()
    );
}

#[test]
fn rewrite_compressed_body_deflate() {
    let mut enc = flate2::write::ZlibEncoder::new(Vec::new(), flate2::Compression::default());
    enc.write_all(b"http://a.com/x").unwrap();
    let zlib = enc.finish().unwrap();
    let out = rewrite_response_bytes(&zlib, " Deflate ", &RewriteRule::Relative);
    let mut plain = String::new();
    flate2::read::ZlibDecoder::new(&out[..])
        .read_to_string(&mut plain)
        .unwrap();
    assert_eq!(plain, "/x");

    let mut enc = flate2::write::DeflateEncoder::new(Vec::new(), flate2::Compression::default());
    enc.write_all(b"http://a.com/y").unwrap();
    let bare = enc.finish().unwrap();
    let out = rewrite_response_bytes(&bare, "deflate", &RewriteRule::Relative);
    let mut plain = String::new();
    flate2::read::ZlibDecoder::new(&out[..])
        .read_to_string(&mut plain)
        .unwrap();
    assert_eq!(plain, "/y");
}

#[test]
fn damaged_and_unknown_bodies_stay() {
    let rule = RewriteRule::Relative;
    let damaged = b"not gzip http://a.com/x".to_vec();
    assert_eq!(rewrite_response_bytes(&damaged, "gzip", &rule), damaged);
    assert_eq!(rewrite_response_bytes(&damaged, "br", &rule), damaged);
    assert_eq!(rewrite_response_bytes(&damaged, "zstd", &rule), damaged);
    let binary = gzip(&[0u8, 159, 146, 150]);
    assert_eq!(rewrite_response_bytes(&binary, "gzip", &rule), binary);
    assert_eq!(
        rewrite_response_bytes(b"http://a.com/x", "identity", &rule),
        b"/x".to_vec()
    );
}

#[test]
fn style_sheets_are_told_by_their_content_type() {
    let rule = prefix("http://t:1", "http", "o.com");
    let css = b"a{b:url(/c.png)}";
    assert_eq!(
        rewrite_response_bytes_for(css, "", "Text/CSS; charset=utf-8", &rule),
        b"a{b:url(http://t:1/http://o.com/c.png)}".to_vec()
    );
    assert_eq!(
        rewrite_response_bytes_for(css, "", "text/plain", &rule),
        css.to_vec()
    );
    assert_eq!(
        rewrite_response_bytes_for(b"http://a.com/x", "", "text/css", &RewriteRule::Relative),
        b"/x".to_vec()
    );
}

#[test]
fn prefix_mode_keeps_xml_namespaces_intact() {
    let rule = prefix("http://127.0.0.1:8888", "https", "img.alicdn.com");
    let svg = r#"<svg xmlns="http://www.w3.org/2000/svg" xmlns:xlink="http://www.w3.org/1999/xlink"><image xlink:href="https://img.alicdn.com/a.png"/></svg>"#;
    let out = rewrite_text(svg, &rule);
    assert!(
        out.contains(r#"xmlns="http://www.w3.org/2000/svg""#),
        "svg namespace: {out}"
    );
    assert!(
        out.contains(r#"xmlns:xlink="http://www.w3.org/1999/xlink""#),
        "xlink namespace: {out}"
    );
    assert!(
        out.contains(r#"xlink:href="http://127.0.0.1:8888/https://img.alicdn.com/a.png""#),
        "image reference: {out}"
    );
    let dtd = r#"<!DOCTYPE svg PUBLIC "-//W3C//DTD SVG 1.1//EN" "http://www.w3.org/Graphics/SVG/1.1/DTD/svg11.dtd">"#;
    assert_eq!(rewrite_text(dtd, &rule), dtd);
}

#[test]
fn none_mode_keeps_original() {
    let input = "http://10.1.2.3:8080/api/user?id=1";
    assert_eq!(rewrite_text(input, &RewriteRule::Keep), input);
}

#[test]
fn idempotent_for_local_hosts() {
    for url in [
        "http://localhost:8080/x",
        "http://127.0.0.1/x",
        "http://127.0.0.1:1/x",
    ] {
        assert_eq!(rewrite_text(url, &RewriteRule::Relative), url);
    }
}

#[test]
fn extract_collects_unique_urls() {
    let text =
        r#"{"a":"http://10.1.2.3:8080/x","b":"http://10.1.2.3:8080/x","c":"https://a.b/c"}"#;
    let urls = extract_http_urls(text);
    assert_eq!(urls, vec!["http://10.1.2.3:8080/x", "https://a.b/c"]);
}

#[test]
fn url_path_parsing() {
    assert_eq!(url_path("http://10.1.2.3:8080/img/a.png?x=1"), "/img/a.png");
    assert_eq!(url_path("http://10.1.2.3:8080"), "/");
}

#[test]
fn url_path_of_a_bare_query_is_the_root() {
    assert_eq!(url_path("http://10.1.2.3:8080?x=1"), "/");
    assert_eq!(url_path("http://10.1.2.3:8080?x=/a"), "/");
    assert_eq!(url_path("/api?u=http://h/img/a.png"), "/api");
    assert_eq!(url_path("http://h/api?u=http://h/img/a.png"), "/api");
    assert_eq!(url_path("/img/a.png?v=2"), "/img/a.png");
    assert_eq!(url_path(""), "/");
}

#[test]
fn extract_relative_asset_paths_finds_html_css_json() {
    let html = r#"<link href="/static/css/app.css"><img src="/img/a.png"><script src="/assets/js/app.js"></script>"#;
    let css = "body { background: url(/img/bg.png); } .x { font: url('/fonts/a.woff2'); }";
    let json = r#"{"avatar":"/images/u/1.png"}"#;
    let mut all = extract_relative_asset_paths(&format!("{html} {css} {json}"));
    all.sort();
    assert_eq!(
        all,
        vec![
            "/assets/js/app.js",
            "/fonts/a.woff2",
            "/images/u/1.png",
            "/img/a.png",
            "/img/bg.png",
            "/static/css/app.css"
        ]
    );
}

#[test]
fn relative_asset_extraction_ignores_api_paths() {
    assert!(extract_relative_asset_paths(r#"{"a":"/api/user"}"#).is_empty());
}

#[test]
fn relative_asset_paths_lose_trailing_punctuation() {
    assert_eq!(
        extract_relative_asset_paths("see /img/a.png., and /img/a.png"),
        vec!["/img/a.png"]
    );
}

#[test]
fn text_between_links_is_kept() {
    let rule = prefix("http://t:1", "http", "o.com");
    let out = rewrite_text("中文 http://a.com/x，“\u{1F600}” //b.com/y 末尾", &rule);
    assert_eq!(
        out,
        "中文 http://t:1/http://a.com/x，“\u{1F600}” http://t:1/http://b.com/y 末尾"
    );
}

#[test]
fn hosts_are_recognised() {
    assert!(is_local_host(&chars("LocalHost")));
    assert!(is_local_host(&chars("[::1]")));
    assert!(!is_local_host(&chars("10.0.0.1")));
    assert!(is_namespace_host(&chars("WWW.w3.org")));
    assert!(!is_namespace_host(&chars("w3.org")));
    assert_eq!(base_host(&chars("http://A.b:80/c")), Some(chars("a.b")));
    assert_eq!(base_host(&chars("a.b")), None);
}

#[test]
fn a_match_is_replaced_by_its_groups() {
    let groups: Vec<Vec<char>> = ["HTTP://a.com:8?q", "HTTP", "a.com", "8", "?q"]
        .iter()
        .map(|s| chars(s))
        .collect();
    assert_eq!(replaced(&RewriteRule::Relative, &groups), chars("/?q"));
    assert_eq!(
        replaced(&prefix("http://t/", "x", "y"), &groups),
        chars("http://t/HTTP://a.com:8/?q")
    );
    assert_eq!(
        replaced(&RewriteRule::Absolute { base: "http://t/".to_string() }, &groups),
        chars("http://t/?q")
    );
    assert_eq!(replaced(&RewriteRule::Keep, &groups), chars("HTTP://a.com:8?q"));
}

#[test]
fn slices_are_cut_by_bytes() {
    assert_eq!(slice("a中b", 1, 4), "中");
    assert_eq!(slice("a中b", 0, 5), "a中b");
}
