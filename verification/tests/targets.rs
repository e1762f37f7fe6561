use tape::http_util::{
    is_hop_by_hop, is_hop_by_hop_str, parse_proxy_target, url_of, RequestTarget, RequestUri,
};
use tape::percent::percent_decode;
use tape::rewrite::rewrite_location;

fn uri(s: &str) -> RequestUri {
    let u: hyper::Uri = s.parse().unwrap();
    RequestUri {
        scheme: u.scheme_str().map(|s| s.to_string()),
        authority: u.authority().map(|a| a.as_str().to_string()),
        path_and_query: u.path_and_query().map(|p| p.as_str().to_string()),
        path: u.path().to_string(),
    }
}

fn target(s: &str) -> RequestTarget {
    parse_proxy_target(&uri(s)).unwrap()
}

#[test]
fn absolute_form_is_recognized() {
    let t = target("http://10.1.2.3:8080/api/user?x=1");
    assert_eq!(t.scheme, "http");
    assert_eq!(t.authority, "10.1.2.3:8080");
    assert_eq!(t.path_and_query, "/api/user?x=1");
    assert!(!t.prefix);
}

#[test]
fn prefix_form_is_recognized() {
    let t = target("/http://10.1.2.3:8080/api/user?x=1");
    assert_eq!(t.scheme, "http");
    assert_eq!(t.authority, "10.1.2.3:8080");
    assert_eq!(t.path_and_query, "/api/user?x=1");
    assert!(t.prefix);
}

#[test]
fn prefix_https_is_recognized() {
    let t = target("/https://api.company.com/v1/login");
    assert_eq!(t.scheme, "https");
    assert_eq!(t.authority, "api.company.com");
    assert_eq!(t.path_and_query, "/v1/login");
}

#[test]
fn prefix_single_slash_is_recognized() {
    let t = target("/http:/10.1.2.3:8080/api/user?x=1");
    assert_eq!(t.scheme, "http");
    assert_eq!(t.authority, "10.1.2.3:8080");
    assert_eq!(t.path_and_query, "/api/user?x=1");
    assert!(t.prefix);
    let t = target("/https:/www.dingtalk.com/api/v1/login");
    assert_eq!(t.scheme, "https");
    assert_eq!(t.authority, "www.dingtalk.com");
    assert_eq!(t.path_and_query, "/api/v1/login");
}

#[test]
fn prefix_single_slash_without_path_defaults_to_root() {
    let t = target("/https:/www.dingtalk.com");
    assert_eq!(t.scheme, "https");
    assert_eq!(t.authority, "www.dingtalk.com");
    assert_eq!(t.path_and_query, "/");
}

#[test]
fn prefix_without_path_defaults_to_root() {
    let t = target("/http://10.1.2.3:8080");
    assert_eq!(t.authority, "10.1.2.3:8080");
    assert_eq!(t.path_and_query, "/");
}

#[test]
fn prefix_ignores_case_of_scheme() {
    let t = target("/HTTP://10.1.2.3:8080/img/a.png");
    assert_eq!(t.scheme, "http");
    assert_eq!(t.authority, "10.1.2.3:8080");
    assert_eq!(t.path_and_query, "/img/a.png");
}

#[test]
fn prefix_tolerates_percent_encoded_scheme() {
    let t = target("/https%3A//login.dingtalk.com/api/v1");
    assert_eq!(t.scheme, "https");
    assert_eq!(t.authority, "login.dingtalk.com");
    assert_eq!(t.path_and_query, "/api/v1");
    let t = target("/http%3A%2F%2F10.1.2.3%3A8080/x");
    assert_eq!(t.scheme, "http");
    assert_eq!(t.authority, "10.1.2.3:8080");
    assert_eq!(t.path_and_query, "/x");
}

#[test]
fn prefix_tolerates_browser_space_quirk() {
    let t = target("/https%20//login.dingtalk.com/api/v1");
    assert_eq!(t.scheme, "https");
    assert_eq!(t.authority, "login.dingtalk.com");
    assert_eq!(t.path_and_query, "/api/v1");
}

#[test]
fn prefix_keeps_path_and_query_encoded() {
    let t = target("/http://10.1.2.3:8080/api?x=1%202");
    assert_eq!(t.authority, "10.1.2.3:8080");
    assert_eq!(t.path_and_query, "/api?x=1%202");
}

#[test]
fn plain_origin_form_is_none() {
    assert!(parse_proxy_target(&uri("/api/user?x=1")).is_none());
}

#[test]
fn malformed_prefix_is_none() {
    assert!(parse_proxy_target(&uri("/http:///api")).is_none());
    assert!(parse_proxy_target(&uri("/ftp://10.1.2.3/api")).is_none());
    assert!(parse_proxy_target(&uri("/api/http://10.1.2.3/x")).is_none());
}

#[test]
fn prefix_with_a_query_but_no_path() {
    let t = target("/http://10.1.2.3:8080?x=1");
    assert_eq!(t.authority, "10.1.2.3:8080");
    assert_eq!(t.path_and_query, "?x=1");
    assert_eq!(url_of(&t), "http://10.1.2.3:8080?x=1");
}

#[test]
fn a_fragment_in_the_authority_is_refused() {
    assert!(parse_proxy_target(&uri("/http://a%23b/x")).is_none());
}

#[test]
fn authority_form_is_none() {
    assert!(parse_proxy_target(&uri("a.com:443")).is_none());
}

#[test]
fn rewritten_redirects_are_found_again() {
    let base = "http://127.0.0.1:8888/";
    let r = rewrite_location("https://a.com:8443/x?y=1", "http", "b.com", base);
    let t = target(r.strip_prefix("http://127.0.0.1:8888").unwrap());
    assert_eq!(url_of(&t), "https://a.com:8443/x?y=1");
    let r = rewrite_location("/next?z", "http", "b.com:81", base);
    let t = target(r.strip_prefix("http://127.0.0.1:8888").unwrap());
    assert_eq!(url_of(&t), "http://b.com:81/next?z");
}

#[test]
fn hop_by_hop_headers_are_known() {
    for name in [
        "connection",
        "keep-alive",
        "proxy-authenticate",
        "proxy-authorization",
        "te",
        "trailer",
        "transfer-encoding",
        "upgrade",
    ] {
        assert!(is_hop_by_hop(name));
        assert!(is_hop_by_hop_str(&name.to_uppercase()));
    }
    assert!(!is_hop_by_hop("Connection"));
    assert!(!is_hop_by_hop_str("content-type"));
}

#[test]
fn percent_decoding() {
    assert_eq!(percent_decode("a%20b+c", false), "a b+c");
    assert_eq!(percent_decode("a%20b+c", true), "a b c");
    assert_eq!(percent_decode("%E4%B8%AD", false), "中");
    assert_eq!(percent_decode("100%", false), "100%");
    assert_eq!(percent_decode("%zz%4", false), "%zz%4");
    assert_eq!(percent_decode("%ff", false), "\u{FFFD}");
    for s in ["", "a b+c%", "中é\u{1F600}"] {
        let upper: String = s.bytes().map(|b| format!("%{b:02X}")).collect();
        let lower: String = s.bytes().map(|b| format!("%{b:02x}")).collect();
        assert_eq!(percent_decode(&upper, false), s);
        assert_eq!(percent_decode(&lower, true), s);
    }
}
