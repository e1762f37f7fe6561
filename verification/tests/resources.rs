use tape::download::{
    acceptable_content_type, gather_resources, is_static_asset_type, is_text_body, keeps_download,
    looks_like_resource, normalize_resource_path, referenced_resources, url_origin,
    ResourceIndexEntry, ResourceStore,
};

#[test]
fn normalize_path() {
    assert_eq!(normalize_resource_path("/img/a.png"), "img/a.png");
    assert_eq!(normalize_resource_path("/a//b/c"), "a/b/c");
    assert_eq!(normalize_resource_path("/"), "index");
    assert_eq!(normalize_resource_path("/a b?c=d"), "a_b_c_d");
}

#[test]
fn paths_on_disk_are_safe() {
    assert_eq!(normalize_resource_path("/../../etc/passwd"), "etc/passwd");
    assert_eq!(normalize_resource_path("/a./b. /.c"), "a/b/c");
    assert_eq!(normalize_resource_path("/con"), "_con");
    assert_eq!(normalize_resource_path("/x/NUL.txt"), "x/_NUL.txt");
    assert_eq!(normalize_resource_path("/Com1"), "_Com1");
    assert_eq!(normalize_resource_path("/lpt9.a.b"), "_lpt9.a.b");
    assert_eq!(normalize_resource_path("/com0"), "com0");
    assert_eq!(normalize_resource_path("/console"), "console");
    assert_eq!(normalize_resource_path("/中/é"), "_/_");
    for path in ["/../../etc/passwd", "/con/x", "/", "/a./b"] {
        let once = normalize_resource_path(path);
        assert_eq!(normalize_resource_path(&once), once);
    }
}

#[test]
fn resource_filter() {
    assert!(looks_like_resource("http://10.1.2.3:8080/img/a.png"));
    assert!(looks_like_resource("http://10.1.2.3:8080/static/js/app.js"));
    assert!(!looks_like_resource("http://10.1.2.3:8080/api/user"));
    assert!(!looks_like_resource("http://10.1.2.3:8080/page.html"));
}

#[test]
fn resources_are_told_by_extension_and_directory() {
    assert!(looks_like_resource("http://a/x.WOFF2?v=1"));
    assert!(looks_like_resource("/upload/x"));
    assert!(!looks_like_resource("http://a/x.png/y"));
    assert!(!looks_like_resource("http://a.png"));
}

#[test]
fn static_asset_type_detection() {
    assert!(is_static_asset_type("image/png"));
    assert!(is_static_asset_type("text/css; charset=utf-8"));
    assert!(is_static_asset_type("application/javascript"));
    assert!(is_static_asset_type("font/woff2"));
    assert!(!is_static_asset_type("application/json"));
    assert!(!is_static_asset_type("text/html"));
}

#[test]
fn content_types_of_texts_and_downloads() {
    assert!(is_text_body("Application/JSON"));
    assert!(is_text_body("image/svg+xml"));
    assert!(!is_text_body("image/png"));
    assert!(acceptable_content_type("image/png"));
    assert!(acceptable_content_type(""));
    assert!(!acceptable_content_type("TEXT/html; charset=utf-8"));
    assert!(!acceptable_content_type("application/json"));
    assert!(keeps_download(200, "image/png", b"x"));
    assert!(!keeps_download(200, "image/png", b""));
    assert!(!keeps_download(404, "image/png", b"x"));
    assert!(!keeps_download(200, "text/html", b"x"));
}

#[test]
fn url_origins() {
    assert_eq!(
        url_origin("https://cdn.com:8443/a/b?c"),
        Some("https://cdn.com:8443".to_string())
    );
    assert_eq!(url_origin("http://a?b/c"), Some("http://a".to_string()));
    assert_eq!(url_origin("/a"), None);
}

#[test]
fn references_are_gathered_once() {
    let body = r#"<img src="/img/a.png"><img src="http://10.1.2.3/img/a.png"><a href="http://x.com/page">"#;
    assert_eq!(
        referenced_resources(body, "text/html", "http://10.1.2.3"),
        vec!["http://10.1.2.3/img/a.png"]
    );
    assert!(referenced_resources(body, "image/png", "http://10.1.2.3").is_empty());
    let urls = vec!["http://b/x.js".to_string(), "http://b/api".to_string()];
    let paths = vec!["/x.js".to_string(), "/y.css".to_string()];
    assert_eq!(
        gather_resources(&urls, &paths, "http://b"),
        vec!["http://b/x.js", "http://b/y.css"]
    );
}

#[test]
fn resources_are_kept_once_per_place() {
    let mut store = ResourceStore::open("res".to_string(), Vec::new());
    assert_eq!(store.root(), "res");
    let origin = "http://10.1.2.3:8080";
    let a = store.plan(b"same-content", origin, "/img/a.png", "image/png");
    let b = store.plan(b"same-content", origin, "/img/b.png", "image/png");
    assert_eq!(a.blob, b.blob);
    assert_eq!(a.copy, Some("http_10.1.2.3_8080/img/a.png".to_string()));
    assert_eq!(a.entry.size, 12);
    assert_eq!(a.entry.path, "img/a.png");
    store.store(a.entry);
    store.store(b.entry);
    assert_eq!(store.index().len(), 2);
    assert!(store.has(origin, "img/a.png"));
    assert!(!store.has("https://10.1.2.3:8080", "img/a.png"));
    let again = store.plan(b"other", origin, "/img/a.png", "image/png");
    assert_eq!(again.copy, None);
    store.store(again.entry);
    assert_eq!(store.index().len(), 2);
    let renamed = store.plan(b"more", origin, "/img//a.png", "image/png");
    assert_eq!(renamed.copy, None);
    assert_eq!(renamed.entry.path, "img/a.png");
    assert_eq!(renamed.entry.url_path, Some("/img//a.png".to_string()));
    store.store(renamed.entry);
    assert_eq!(store.index().len(), 3);
    assert!(store.finds(origin, "/img//a.png"));
    assert!(!store.finds(origin, "/img///a.png"));
}

#[test]
fn blobs_are_named_by_their_digest() {
    let store = ResourceStore::open("r".to_string(), Vec::new());
    let plan = store.plan(b"abc", "http://a", "/", "text/css");
    assert_eq!(
        plan.blob,
        "blobs/ba7816bf8f01cfea414140de5dae2223b00361a396177a9cb410ff61f20015ad"
    );
    assert_eq!(plan.copy, Some("http_a/index".to_string()));
    let e: ResourceIndexEntry = plan.entry.clone();
    assert_eq!(e.hash, plan.entry.hash);
    assert_eq!(e.content_type, "text/css");
}
