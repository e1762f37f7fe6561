//! Replaying recorded exchanges.
use crate::download;
use crate::download::ResourceIndexEntry;
use crate::http;
use crate::http::{HttpHeader, HttpRequest, HttpResponse};
use crate::http_util;
use crate::http_util::RequestTarget;
use crate::mime;
use crate::order;
use crate::rewrite;
use crate::rewrite::RewriteRule;
use crate::snapshot;
use crate::snapshot::Snapshot;
use crate::store;
use crate::text;
use vstd::prelude::*;

verus! {

// ---------------------------------------------------------------------------
// Which snapshot answers a request
// ---------------------------------------------------------------------------

/// The authority of an origin: what follows `://`.
pub open spec fn host_of_origin(origin: Seq<char>) -> Seq<char> {
    match text::cut_text(origin, "://"@) {
        Some((scheme, rest)) => rest,
        None => origin,
    }
}

/// The authority of an origin.
pub fn origin_host(origin: &str) -> (r: String)
    ensures
        r@ == host_of_origin(origin@),
{
    let cs = text::chars_of(origin);
    match text::split_once(&cs, "://") {
        Some((_, rest)) => text::string_of(rest),
        None => text::owned(origin),
    }
}

/// The method of a snapshot's request, in upper case, and the path of its URL without the query.
pub fn request_method_path(snap: &Snapshot) -> (r: (String, String))
    ensures
        r.0@ == text::uppered(snap.request.method@),
        r.1@ == rewrite::path_of_url(snap.request.url@),
{
    (
        text::string_of(&text::to_upper(&text::chars_of(&snap.request.method))),
        rewrite::url_path(&snap.request.url),
    )
}

/// Whether a snapshot answers a request by method and path and, if one is given, by host.
pub open spec fn answers(
    s: Snapshot,
    method: Seq<char>,
    path: Seq<char>,
    host: Option<Seq<char>>,
) -> bool {
    &&& text::uppered(s.request.method@) == text::uppered(method)
    &&& rewrite::path_of_url(s.request.url@) == path
    &&& host matches Some(h) ==> host_of_origin(s.origin@) == h
}

/// The snapshot that answers a request and was recorded last: the one with the largest id, and
/// the last of those.
pub open spec fn latest(
    snaps: Seq<Snapshot>,
    method: Seq<char>,
    path: Seq<char>,
    host: Option<Seq<char>>,
) -> Option<int>
    decreases snaps.len(),
{
    if snaps.len() == 0 {
        None
    } else {
        let before = latest(snaps.drop_last(), method, path, host);
        if !answers(snaps.last(), method, path, host) {
            before
        } else {
            match before {
                Some(i) => if order::text_le(snaps[i].id@, snaps.last().id@) {
                    Some(snaps.len() - 1)
                } else {
                    before
                },
                None => Some(snaps.len() - 1),
            }
        }
    }
}

/// The snapshot that answers a request: the latest of the host that was asked or, where it has
/// none, the latest of all.
pub open spec fn matching(
    snaps: Seq<Snapshot>,
    method: Seq<char>,
    path: Seq<char>,
    host: Seq<char>,
) -> Option<int> {
    match latest(snaps, method, path, Some(host)) {
        Some(i) => Some(i),
        None => latest(snaps, method, path, None),
    }
}

/// Whether a snapshot answers a request.
fn does_answer(s: &Snapshot, method: &str, path: &str, host: Option<&str>) -> (r: bool)
    ensures
        r == answers(
            *s,
            method@,
            path@,
            match host {
                Some(h) => Some(h@),
                None => None,
            },
        ),
{
    let (m, p) = request_method_path(s);
    let wanted = text::string_of(&text::to_upper(&text::chars_of(method)));
    if !text::same(&m, &wanted) || !text::same(&p, path) {
        return false;
    }
    match host {
        Some(h) => text::same(&origin_host(&s.origin), h),
        None => true,
    }
}

/// Finds the snapshot that answers a request and was recorded last.
fn find_latest(snaps: &[Snapshot], method: &str, path: &str, host: Option<&str>) -> (r: Option<
    usize,
>)
    ensures
        match r {
            Some(i) => i < snaps@.len() && latest(
                snaps@,
                method@,
                path@,
                match host {
                    Some(h) => Some(h@),
                    None => None,
                },
            ) == Some(i as int),
            None => latest(
                snaps@,
                method@,
                path@,
                match host {
                    Some(h) => Some(h@),
                    None => None,
                },
            ) is None,
        },
{
    let ghost h = match host {
        Some(h) => Some(h@),
        None => None,
    };
    let n: usize = snaps.len();
    let mut best: Option<usize> = None;
    let mut i: usize = 0;
    assert(snaps@.take(0) =~= Seq::<Snapshot>::empty());
    while i < n
        invariant
            i <= n == snaps@.len(),
            h == match host {
                Some(h) => Some(h@),
                None => None,
            },
            match best {
                Some(b) => b < i && latest(snaps@.take(i as int), method@, path@, h) == Some(
                    b as int,
                ),
                None => latest(snaps@.take(i as int), method@, path@, h) is None,
            },
        decreases n - i,
    {
        let ghost front = snaps@.take(i + 1);
        proof {
            assert(front.drop_last() =~= snaps@.take(i as int));
            assert(front.last() == snaps@[i as int]);
        }
        if does_answer(&snaps[i], method, path, host) {
            match best {
                Some(b) => {
                    assert(front[b as int] == snaps@[b as int]);
                    if order::string_no_later(&snaps[b].id, &snaps[i].id) {
                        best = Some(i);
                    }
                },
                None => {
                    best = Some(i);
                },
            }
        }
        i += 1;
    }
    assert(snaps@.take(n as int) =~= snaps@);
    best
}

// ---------------------------------------------------------------------------
// Which resource answers a request
// ---------------------------------------------------------------------------

/// Whether a resource lies at a path: at that of its URL, whatever its name on disk.
pub open spec fn lies_at(e: download::Entry, path: Seq<char>) -> bool {
    download::own_path(e) == path
}

/// The first resource at a path and, if one is given, of a host.
pub open spec fn first_resource(
    index: Seq<download::Entry>,
    path: Seq<char>,
    host: Option<Seq<char>>,
) -> Option<int>
    decreases index.len(),
{
    if index.len() == 0 {
        None
    } else {
        match first_resource(index.drop_last(), path, host) {
            Some(i) => Some(i),
            None => {
                let e = index.last();
                if lies_at(e, path) && (host matches Some(h) ==> host_of_origin(e.origin) == h) {
                    Some(index.len() - 1)
                } else {
                    None
                }
            },
        }
    }
}

/// The resource that answers a request: the first of the host that was asked or, where it has
/// none at the path, the first of all.
pub open spec fn matching_resource(
    index: Seq<download::Entry>,
    path: Seq<char>,
    host: Seq<char>,
) -> Option<int> {
    match first_resource(index, path, Some(host)) {
        Some(i) => Some(i),
        None => first_resource(index, path, None),
    }
}

/// Finds the first resource at a path.
fn find_resource(index: &[ResourceIndexEntry], path: &str, host: Option<&str>) -> (r: Option<usize>)
    ensures
        match r {
            Some(i) => i < index@.len() && first_resource(
                download::entries(index@),
                path@,
                match host {
                    Some(h) => Some(h@),
                    None => None,
                },
            ) == Some(i as int),
            None => first_resource(
                download::entries(index@),
                path@,
                match host {
                    Some(h) => Some(h@),
                    None => None,
                },
            ) is None,
        },
{
    let ghost h = match host {
        Some(h) => Some(h@),
        None => None,
    };
    let ghost all = download::entries(index@);
    let n: usize = index.len();
    let mut i: usize = 0;
    assert(all.take(0) =~= Seq::<download::Entry>::empty());
    while i < n
        invariant
            i <= n == index@.len(),
            all == download::entries(index@),
            h == match host {
                Some(h) => Some(h@),
                None => None,
            },
            first_resource(all.take(i as int), path@, h) is None,
        decreases n - i,
    {
        let e = &index[i];
        proof {
            assert(all.take(i + 1).drop_last() =~= all.take(i as int));
            assert(all.take(i + 1).last() == e@);
        }
        let there = text::same(&e.own_path(), path);
        let ours = match host {
            Some(h) => text::same(&origin_host(&e.origin), h),
            None => true,
        };
        if there && ours {
            proof {
                lemma_first_resource_stays(all, path@, h, i + 1);
            }
            return Some(i);
        }
        i += 1;
    }
    assert(all.take(n as int) =~= all);
    None
}

/// A resource that is first among some is first among more.
proof fn lemma_first_resource_stays(
    index: Seq<download::Entry>,
    path: Seq<char>,
    host: Option<Seq<char>>,
    k: int,
)
    requires
        0 <= k <= index.len(),
        first_resource(index.take(k), path, host) is Some,
    ensures
        first_resource(index, path, host) == first_resource(index.take(k), path, host),
    decreases index.len() - k,
{
    if k < index.len() {
        assert(index.take(k + 1).drop_last() =~= index.take(k));
        lemma_first_resource_stays(index, path, host, k + 1);
    } else {
        assert(index.take(k) =~= index);
    }
}

// ---------------------------------------------------------------------------
// Answers
// ---------------------------------------------------------------------------

/// What a prefixed request needs for its links to lead back: the address of `tape` as the
/// client sees it, and the scheme and authority that were asked for.
#[derive(Debug)]
pub struct PrefixContext {
    pub base: String,
    pub scheme: String,
    pub origin: String,
}

/// The model of a prefix context.
pub struct Through {
    /// The address of `tape`.
    pub base: Seq<char>,
    /// The scheme that was asked for.
    pub scheme: Seq<char>,
    /// The authority that was asked for.
    pub origin: Seq<char>,
}

impl View for PrefixContext {
    type V = Through;

    open spec fn view(&self) -> Through {
        Through { base: self.base@, scheme: self.scheme@, origin: self.origin@ }
    }
}

/// The view of an optional prefix context.
pub open spec fn opt_through(o: Option<PrefixContext>) -> Option<Through> {
    match o {
        Some(p) => Some(p@),
        None => None,
    }
}

/// The prefix context of a request; `None` where it has no prefix, or does not say how the
/// client sees `tape`.
pub open spec fn through_of(target: Option<http_util::Target>, host: Seq<char>) -> Option<
    Through,
> {
    match target {
        Some(t) => if t.prefix && host.len() > 0 {
            Some(Through { base: "http://"@ + host, scheme: t.scheme, origin: t.authority })
        } else {
            None
        },
        None => None,
    }
}

/// The prefix context of a request.
pub fn prefix_context(target: &Option<RequestTarget>, host: &str) -> (r: Option<PrefixContext>)
    ensures
        opt_through(r) == through_of(http_util::opt_target(*target), host@),
{
    match target {
        Some(t) => if t.prefix && !host.is_empty() {
            let mut base = text::chars_of("http://");
            text::push_str(&mut base, host);
            Some(
                PrefixContext {
                    base: text::string_of(&base),
                    scheme: t.scheme.clone(),
                    origin: t.authority.clone(),
                },
            )
        } else {
            None
        },
        None => None,
    }
}

/// The rule under which an answer is rewritten: the one that leads back to `tape` for a prefixed
/// request, else the one that was set.
pub open spec fn rule_under(prefix: Option<Through>, rule: rewrite::Rule) -> rewrite::Rule {
    match prefix {
        Some(t) => rewrite::Rule::Prefix { base: t.base, scheme: t.scheme, origin: t.origin },
        None => rule,
    }
}

/// The rule that leads back to `tape`.
pub fn prefix_rule(p: &PrefixContext) -> (r: RewriteRule)
    ensures
        r@ == rule_under(Some(p@), rewrite::Rule::Keep),
{
    RewriteRule::Prefix {
        base: p.base.clone(),
        scheme: p.scheme.clone(),
        origin: p.origin.clone(),
    }
}

/// The value of the first recorded header with a name in lower case; empty where there is none.
pub open spec fn recorded_header(headers: snapshot::HeaderTexts, name: Seq<char>) -> Seq<char>
    decreases headers.len(),
{
    if headers.len() == 0 {
        Seq::empty()
    } else if text::lowered(headers[0].0) == name {
        headers[0].1
    } else {
        recorded_header(headers.drop_first(), name)
    }
}

/// Whether a header of a response is left out, since it is made anew for each answer.
pub open spec fn is_left_out(name: Seq<char>) -> bool {
    http_util::hop_by_hop(text::lowered(name)) || text::lowered(name) == "content-length"@
}

/// A recorded header as it is answered: a redirect of a prefixed request leads back to `tape`.
pub open spec fn answered_header(
    h: (Seq<char>, Seq<char>),
    prefix: Option<Through>,
) -> http::Header {
    match prefix {
        Some(t) => if text::lowered(h.0) == "location"@ {
            http::text_header(
                h.0,
                rewrite::location_rewritten(h.1, t.scheme, t.origin, t.base),
            )
        } else {
            http::text_header(h.0, h.1)
        },
        None => http::text_header(h.0, h.1),
    }
}

/// The recorded headers as they are answered.
pub open spec fn answered_headers(
    headers: snapshot::HeaderTexts,
    prefix: Option<Through>,
) -> Seq<http::Header>
    decreases headers.len(),
{
    if headers.len() == 0 {
        seq![]
    } else {
        let front = answered_headers(headers.drop_last(), prefix);
        if is_left_out(headers.last().0) {
            front
        } else {
            front.push(answered_header(headers.last(), prefix))
        }
    }
}

/// Whether a list of recorded headers has one with a name in lower case.
pub open spec fn has_recorded(headers: snapshot::HeaderTexts, name: Seq<char>) -> bool {
    exists|i: int| 0 <= i < headers.len() && text::lowered((#[trigger] headers[i]).0) == name
}

/// The content type of a path; `application/octet-stream` where its extension is unknown.
pub open spec fn guessed_type(path: Seq<char>) -> Seq<char> {
    match mime::mime_of(path) {
        Some(m) => m,
        None => "application/octet-stream"@,
    }
}

/// The headers of the answer that a snapshot gives: the recorded ones and, where none of them is
/// a content type, the one of the path.
pub open spec fn snapshot_headers(
    headers: snapshot::HeaderTexts,
    path: Seq<char>,
    prefix: Option<Through>,
) -> Seq<http::Header> {
    if has_recorded(headers, "content-type"@) {
        answered_headers(headers, prefix)
    } else {
        answered_headers(headers, prefix).push(
            http::text_header("content-type"@, guessed_type(path)),
        )
    }
}

/// The body of the answer that a snapshot gives.
pub open spec fn snapshot_body(
    s: Snapshot,
    prefix: Option<Through>,
    rule: rewrite::Rule,
) -> Seq<u8> {
    let raw = snapshot::body_bytes(s.response.body@, s.response.body_encoding@);
    let headers = snapshot::header_texts(s.response.headers@);
    if prefix is None && rule is Keep {
        raw
    } else {
        rewrite::body_rewritten_for(
            rule_under(prefix, rule),
            recorded_header(headers, "content-encoding"@),
            recorded_header(headers, "content-type"@),
            raw,
        )
    }
}

/// The answer that a snapshot gives.
pub open spec fn snapshot_reply(
    s: Snapshot,
    path: Seq<char>,
    prefix: Option<Through>,
    rule: rewrite::Rule,
) -> http::Reply {
    http::Reply {
        status: s.response.status,
        headers: snapshot_headers(snapshot::header_texts(s.response.headers@), path, prefix),
        body: snapshot_body(s, prefix, rule),
    }
}

/// Reads a recorded header.
fn read_recorded(headers: &[(String, String)], name: &str) -> (r: String)
    ensures
        r@ == recorded_header(snapshot::header_texts(headers@), name@),
{
    let ghost all = snapshot::header_texts(headers@);
    let n: usize = headers.len();
    let mut i: usize = 0;
    assert(all.skip(0) =~= all);
    while i < n
        invariant
            i <= n == headers@.len(),
            all == snapshot::header_texts(headers@),
            recorded_header(all, name@) == recorded_header(all.skip(i as int), name@),
        decreases n - i,
    {
        assert(all.skip(i as int)[0] == (headers@[i as int].0@, headers@[i as int].1@));
        if text::same(&text::lower_string(&headers[i].0), name) {
            return headers[i].1.clone();
        }
        assert(all.skip(i as int).drop_first() =~= all.skip(i + 1));
        i += 1;
    }
    String::new()
}

/// Makes the headers of the answer that a snapshot gives.
fn make_snapshot_headers(
    headers: &[(String, String)],
    path: &str,
    prefix: &Option<PrefixContext>,
) -> (r: Vec<HttpHeader>)
    ensures
        http::header_views(r@) == snapshot_headers(
            snapshot::header_texts(headers@),
            path@,
            opt_through(*prefix),
        ),
{
    let ghost all = snapshot::header_texts(headers@);
    let ghost through = opt_through(*prefix);
    let n: usize = headers.len();
    let mut out: Vec<HttpHeader> = Vec::new();
    let mut has_content_type = false;
    let mut i: usize = 0;
    assert(http::header_views(out@) =~= answered_headers(all.take(0), through));
    while i < n
        invariant
            i <= n == headers@.len(),
            all == snapshot::header_texts(headers@),
            through == opt_through(*prefix),
            http::header_views(out@) == answered_headers(all.take(i as int), through),
            has_content_type == has_recorded(all.take(i as int), "content-type"@),
        decreases n - i,
    {
        let name = &headers[i].0;
        let value = &headers[i].1;
        let low = text::lower_string(name);
        let ghost before = all.take(i as int);
        let ghost after = all.take(i + 1);
        proof {
            assert(after.drop_last() =~= before);
            assert(after.last() == (name@, value@));
            lemma_has_recorded(after, "content-type"@);
            lemma_content_type_is_kept(low@);
        }
        if text::same(&low, "content-type") {
            has_content_type = true;
        }
        if !(http_util::is_hop_by_hop(&low) || text::same(&low, "content-length")) {
            let mut sent = value.clone();
            if let Some(p) = prefix {
                if text::same(&low, "location") {
                    sent = rewrite::rewrite_location(value, &p.scheme, &p.origin, &p.base);
                }
            }
            let h = http::make_header(name, &sent);
            proof {
                http::lemma_header_push(out@, h);
            }
            out.push(h);
        }
        i += 1;
    }
    assert(all.take(n as int) =~= all);
    if !has_content_type {
        let guessed = match mime::guess(path) {
            Some(m) => m,
            None => "application/octet-stream",
        };
        let h = http::make_header("content-type", guessed);
        proof {
            http::lemma_header_push(out@, h);
        }
        out.push(h);
    }
    out
}

/// A list has a header where its last is one, or the rest has one.
proof fn lemma_has_recorded(headers: snapshot::HeaderTexts, name: Seq<char>)
    requires
        headers.len() > 0,
    ensures
        has_recorded(headers, name) == (text::lowered(headers.last().0) == name || has_recorded(
            headers.drop_last(),
            name,
        )),
{
    let front = headers.drop_last();
    if has_recorded(headers, name) {
        let i = choose|i: int|
            0 <= i < headers.len() && text::lowered((#[trigger] headers[i]).0) == name;
        if i < front.len() {
            assert(front[i] == headers[i]);
        }
    }
    if has_recorded(front, name) {
        let i = choose|i: int|
            0 <= i < front.len() && text::lowered((#[trigger] front[i]).0) == name;
        assert(headers[i] == front[i]);
    }
    assert(headers[headers.len() - 1] == headers.last());
}

/// A content type is never left out.
proof fn lemma_content_type_is_kept(low: Seq<char>)
    ensures
        low == "content-type"@ ==> !http_util::hop_by_hop(low) && low != "content-length"@,
{
    reveal_strlit("content-type");
    reveal_strlit("connection");
    reveal_strlit("keep-alive");
    reveal_strlit("proxy-authenticate");
    reveal_strlit("proxy-authorization");
    reveal_strlit("te");
    reveal_strlit("trailer");
    reveal_strlit("transfer-encoding");
    reveal_strlit("upgrade");
    reveal_strlit("content-length");
    assert("content-type"@.len() == 12);
}

/// Makes the answer that a snapshot gives.
pub fn serve_snapshot(
    snap: &Snapshot,
    path: &str,
    prefix: &Option<PrefixContext>,
    rule: &RewriteRule,
) -> (r: HttpResponse)
    ensures
        r@ == snapshot_reply(*snap, path@, opt_through(*prefix), rule@),
        ({
            let raw = snapshot::body_bytes(snap.response.body@, snap.response.body_encoding@);
            let headers = snapshot::header_texts(snap.response.headers@);
            if rule@ is Keep && prefix is None {
                r.body@ == raw
            } else {
                rewrite::text_changed(
                    rewrite::encoding_name(recorded_header(headers, "content-encoding"@)),
                    raw,
                    r.body@,
                    |s: Seq<char>|
                        rewrite::rewritten_for(
                            rule_under(opt_through(*prefix), rule@),
                            recorded_header(headers, "content-type"@),
                            s,
                        ),
                )
            }
        }),
{
    let raw = snapshot::decode_body(&snap.response.body, &snap.response.body_encoding);
    let content_encoding = read_recorded(&snap.response.headers, "content-encoding");
    let content_type = read_recorded(&snap.response.headers, "content-type");
    let body = match prefix {
        Some(p) => rewrite::rewrite_response_bytes_for(
            &raw,
            &content_encoding,
            &content_type,
            &prefix_rule(p),
        ),
        None => match rule {
            RewriteRule::Keep => raw,
            _ => rewrite::rewrite_response_bytes_for(
                &raw,
                &content_encoding,
                &content_type,
                rule,
            ),
        },
    };
    let headers = make_snapshot_headers(&snap.response.headers, path, prefix);
    HttpResponse { status: snap.response.status, headers, body }
}

// ---------------------------------------------------------------------------
// Requests
// ---------------------------------------------------------------------------

/// The file that holds a resource that was asked for, and what its answer needs.
#[derive(Debug)]
pub struct BlobRequest {
    /// The file, below the data directory.
    pub file: String,
    /// The content type of the answer.
    pub content_type: String,
    /// What a prefixed request needs for its links to lead back.
    pub prefix: Option<PrefixContext>,
}

/// What a request leads to.
#[derive(Debug)]
pub enum ReplayAction {
    /// The answer.
    Respond(HttpResponse),
    /// A file to read; `resource_response` then gives the answer.
    ReadBlob(BlobRequest),
}

/// The model of what a request leads to.
pub enum Action {
    /// The answer.
    Respond(http::Reply),
    /// A file to read, the content type, and the prefix context.
    ReadBlob(Seq<char>, Seq<char>, Option<Through>),
}

impl View for ReplayAction {
    type V = Action;

    open spec fn view(&self) -> Action {
        match self {
            ReplayAction::Respond(r) => Action::Respond(r@),
            ReplayAction::ReadBlob(b) => Action::ReadBlob(
                b.file@,
                b.content_type@,
                opt_through(b.prefix),
            ),
        }
    }
}

/// The path that a request asks for, without its query.
pub open spec fn asked_path(target: Option<http_util::Target>, uri_path: Seq<char>) -> Seq<char> {
    match target {
        Some(t) => rewrite::path_of_url(http_util::url_text(t)),
        None => uri_path,
    }
}

/// The host that a request asks: that of its target or, in a direct request, of its header.
pub open spec fn asked_host(target: Option<http_util::Target>, host: Seq<char>) -> Seq<char> {
    match target {
        Some(t) => t.authority,
        None => host,
    }
}

/// The answer where neither snapshot nor resource was recorded.
pub open spec fn missing_reply(method: Seq<char>, path: Seq<char>) -> http::Reply {
    http::plain_reply(404, "未找到 "@ + method + " "@ + path + " 的录制快照"@)
}

/// The answer where a resource is asked for with a method that does not read.
pub open spec fn not_allowed_reply() -> http::Reply {
    let plain = http::plain_reply(405, "静态资源仅支持 GET / HEAD"@);
    http::Reply { headers: plain.headers.push(http::text_header("allow"@, "GET, HEAD"@)), ..plain }
}

/// The content type of a resource's answer: that of the path's extension, else the recorded one.
pub open spec fn resource_type(path: Seq<char>, recorded: Seq<char>) -> Seq<char> {
    match mime::mime_of(path) {
        Some(m) => m,
        None => recorded,
    }
}

/// What a request for a resource leads to.
pub open spec fn resource_action(
    e: download::Entry,
    method: Seq<char>,
    path: Seq<char>,
    prefix: Option<Through>,
) -> Action {
    if method == "GET"@ || method == "HEAD"@ {
        Action::ReadBlob(
            "resources/"@ + download::blob_path(e.hash),
            resource_type(path, e.content_type),
            prefix,
        )
    } else {
        Action::Respond(not_allowed_reply())
    }
}

/// What a request leads to: the answer of a snapshot, the file of a resource, or that nothing
/// was recorded.
pub open spec fn replay_action(
    snaps: Seq<Snapshot>,
    index: Seq<download::Entry>,
    rule: rewrite::Rule,
    method: Seq<char>,
    uri: http_util::UriParts,
    host: Seq<char>,
) -> Action {
    let target = http_util::proxy_target(uri);
    let path = asked_path(target, uri.path);
    let asked = asked_host(target, host);
    let prefix = through_of(target, host);
    match matching(snaps, method, path, asked) {
        Some(i) => Action::Respond(snapshot_reply(snaps[i], path, prefix, rule)),
        None => match matching_resource(index, path, asked) {
            Some(i) => resource_action(index[i], method, path, prefix),
            None => Action::Respond(missing_reply(method, path)),
        },
    }
}

/// The answer with a resource's content.
pub open spec fn resource_reply(
    content_type: Seq<char>,
    prefix: Option<Through>,
    data: Seq<u8>,
) -> http::Reply {
    http::Reply {
        status: 200,
        headers: seq![
            http::text_header("content-type"@, content_type),
            http::text_header("cache-control"@, "public, max-age=86400"@),
        ],
        body: match prefix {
            Some(t) => rewrite::body_rewritten_for(
                rule_under(prefix, rewrite::Rule::Keep),
                Seq::empty(),
                content_type,
                data,
            ),
            None => data,
        },
    }
}

/// Makes the answer to a request for a resource, by what its file holds; `None` stands for a
/// file that could not be read.
pub fn resource_response(req: &BlobRequest, data: Option<Vec<u8>>) -> (r: HttpResponse)
    ensures
        r@ == match data {
            Some(d) => resource_reply(req.content_type@, opt_through(req.prefix), d@),
            None => http::plain_reply(404, "静态资源缺失"@),
        },
{
    match data {
        Some(d) => {
            let body = match &req.prefix {
                Some(p) => rewrite::rewrite_response_bytes_for(
                    &d,
                    &String::new(),
                    &req.content_type,
                    &prefix_rule(p),
                ),
                None => d,
            };
            let mut headers: Vec<HttpHeader> = Vec::new();
            headers.push(http::make_header("content-type", &req.content_type));
            headers.push(http::make_header("cache-control", "public, max-age=86400"));
            let r = HttpResponse { status: 200, headers, body };
            assert(r@.headers =~= resource_reply(
                req.content_type@,
                opt_through(req.prefix),
                d@,
            ).headers);
            r
        },
        None => not_found("静态资源缺失"),
    }
}

/// Makes the answer that something is not there.
pub fn not_found(message: &str) -> (r: HttpResponse)
    ensures
        r@ == http::plain_reply(404, message@),
{
    http::simple_response(404, message)
}

/// Makes the answer where a recorded response cannot be sent as it is.
pub fn unbuildable() -> (r: HttpResponse)
    ensures
        r@ == http::plain_reply(404, "构造响应失败"@),
{
    not_found("构造响应失败")
}

/// The recordings of a data directory, ready to be replayed.
pub struct ReplayState {
    root: String,
    snapshots: Vec<Snapshot>,
    resources: Vec<ResourceIndexEntry>,
    rewrite: RewriteRule,
}

impl ReplayState {
    /// The data directory.
    pub closed spec fn dir(&self) -> Seq<char> {
        self.root@
    }

    /// The snapshots, in the order of their ids.
    pub closed spec fn snaps(&self) -> Seq<Snapshot> {
        self.snapshots@
    }

    /// The index of resources.
    pub closed spec fn index(&self) -> Seq<download::Entry> {
        download::entries(self.resources@)
    }

    /// The rule of rewriting.
    pub closed spec fn rule(&self) -> rewrite::Rule {
        self.rewrite@
    }

    /// The recordings of a data directory: its snapshots and the index of its resources.
    pub fn new(
        dir: String,
        rewrite: RewriteRule,
        snapshots: Vec<Snapshot>,
        resources: Vec<ResourceIndexEntry>,
    ) -> (r: Self)
        ensures
            r.dir() == dir@,
            r.snaps() == order::sorted(snapshots@),
            r.index() == download::entries(resources@),
            r.rule() == rewrite@,
    {
        ReplayState { root: dir, snapshots: store::sort_snapshots(snapshots), resources, rewrite }
    }

    /// The data directory.
    pub fn root(&self) -> (r: &str)
        ensures
            r@ == self.dir(),
    {
        self.root.as_str()
    }

    /// How many snapshots there are.
    pub fn snapshot_count(&self) -> (r: usize)
        ensures
            r == self.snaps().len(),
    {
        self.snapshots.len()
    }

    /// How many resources there are.
    pub fn resource_count(&self) -> (r: usize)
        ensures
            r == self.index().len(),
    {
        self.resources.len()
    }

    /// The snapshot that answers a request.
    pub fn match_snapshot(&self, method: &str, path: &str, host: &str) -> (r: Option<&Snapshot>)
        ensures
            match matching(self.snaps(), method@, path@, host@) {
                Some(i) => r == Some(&self.snaps()[i]),
                None => r is None,
            },
    {
        let found = match find_latest(&self.snapshots, method, path, Some(host)) {
            Some(i) => Some(i),
            None => find_latest(&self.snapshots, method, path, None),
        };
        match found {
            Some(i) => Some(&self.snapshots[i]),
            None => None,
        }
    }

    /// The resource that answers a request.
    pub fn match_resource(&self, path: &str, host: &str) -> (r: Option<&ResourceIndexEntry>)
        ensures
            match matching_resource(self.index(), path@, host@) {
                Some(i) => r matches Some(e) && e@ == self.index()[i],
                None => r is None,
            },
    {
        let found = match find_resource(&self.resources, path, Some(host)) {
            Some(i) => Some(i),
            None => find_resource(&self.resources, path, None),
        };
        match found {
            Some(i) => Some(&self.resources[i]),
            None => None,
        }
    }

    /// What a request leads to.
    pub fn handle_request(&self, req: &HttpRequest) -> (r: ReplayAction)
        ensures
            r@ == replay_action(
                self.snaps(),
                self.index(),
                self.rule(),
                req.method@,
                req.uri@,
                http::header_text(http::header_views(req.headers@), "host"@),
            ),
    {
        let host = http::read_header(&req.headers, "host");
        let target = http_util::parse_proxy_target(&req.uri);
        let path = match &target {
            Some(t) => rewrite::url_path(&http_util::url_of(t)),
            None => req.uri.path.clone(),
        };
        let asked = match &target {
            Some(t) => t.authority.clone(),
            None => host.clone(),
        };
        let prefix = prefix_context(&target, &host);
        if let Some(snap) = self.match_snapshot(&req.method, &path, &asked) {
            return ReplayAction::Respond(serve_snapshot(snap, &path, &prefix, &self.rewrite));
        }
        if let Some(entry) = self.match_resource(&path, &asked) {
            return serve_resource(entry, &req.method, &path, prefix);
        }
        let mut message = text::chars_of("未找到 ");
        text::push_str(&mut message, &req.method);
        text::push_str(&mut message, " ");
        text::push_str(&mut message, &path);
        text::push_str(&mut message, " 的录制快照");
        ReplayAction::Respond(not_found(&text::string_of(&message)))
    }
}

/// What a request for a resource leads to.
pub fn serve_resource(
    entry: &ResourceIndexEntry,
    method: &str,
    path: &str,
    prefix: Option<PrefixContext>,
) -> (r: ReplayAction)
    ensures
        r@ == resource_action(entry@, method@, path@, opt_through(prefix)),
{
    if !(text::same(method, "GET") || text::same(method, "HEAD")) {
        let mut r = http::simple_response(405, "静态资源仅支持 GET / HEAD");
        let ghost before = r.headers@;
        let h = http::make_header("allow", "GET, HEAD");
        proof {
            http::lemma_header_push(before, h);
        }
        r.headers.push(h);
        return ReplayAction::Respond(r);
    }
    let mut file = text::chars_of("resources/");
    let mut blob = text::chars_of("blobs/");
    text::push_str(&mut blob, &entry.hash);
    text::push_all(&mut file, &blob);
    let content_type = match mime::guess(path) {
        Some(m) => text::owned(m),
        None => entry.content_type.clone(),
    };
    ReplayAction::ReadBlob(BlobRequest { file: text::string_of(&file), content_type, prefix })
}

// ---------------------------------------------------------------------------
// Laws
// ---------------------------------------------------------------------------

/// The latest snapshot that answers a request answers it, and no other that does has a larger
/// id.
pub proof fn law_latest_is_largest(
    snaps: Seq<Snapshot>,
    method: Seq<char>,
    path: Seq<char>,
    host: Option<Seq<char>>,
)
    ensures
        match latest(snaps, method, path, host) {
            Some(i) => {
                &&& 0 <= i < snaps.len()
                &&& answers(snaps[i], method, path, host)
                &&& forall|j: int|
                    0 <= j < snaps.len() && answers(#[trigger] snaps[j], method, path, host)
                        ==> order::text_le(snaps[j].id@, snaps[i].id@)
            },
            None => forall|j: int|
                0 <= j < snaps.len() ==> !answers(#[trigger] snaps[j], method, path, host),
        },
    decreases snaps.len(),
{
    if snaps.len() > 0 {
        let front = snaps.drop_last();
        law_latest_is_largest(front, method, path, host);
        order::lemma_text_le_reflexive(snaps.last().id@);
        match latest(snaps, method, path, host) {
            Some(i) => {
                assert forall|j: int|
                    0 <= j < snaps.len() && answers(
                        #[trigger] snaps[j],
                        method,
                        path,
                        host,
                    ) implies order::text_le(snaps[j].id@, snaps[i].id@) by {
                    if j < front.len() {
                        assert(front[j] == snaps[j]);
                        if i == snaps.len() - 1 {
                            let b = latest(front, method, path, host);
                            assert(b is Some);
                            let k = b->0;
                            assert(front[k] == snaps[k]);
                            order::lemma_text_le_transitive(
                                snaps[j].id@,
                                snaps[k].id@,
                                snaps[i].id@,
                            );
                        } else {
                            assert(front[i] == snaps[i]);
                        }
                    } else if i < front.len() {
                        assert(front[i] == snaps[i]);
                        order::lemma_text_le_total(snaps[i].id@, snaps[j].id@);
                    }
                }
                if i < front.len() {
                    assert(front[i] == snaps[i]);
                }
            },
            None => {
                assert forall|j: int| 0 <= j < snaps.len() implies !answers(
                    #[trigger] snaps[j],
                    method,
                    path,
                    host,
                ) by {
                    if j < front.len() {
                        assert(front[j] == snaps[j]);
                    }
                }
            },
        }
    }
}

/// A request is answered wherever one with its method and path was recorded; from the host that
/// it asks, wherever one was recorded there.
pub proof fn law_recorded_path_is_answered(
    snaps: Seq<Snapshot>,
    method: Seq<char>,
    path: Seq<char>,
    host: Seq<char>,
    k: int,
)
    requires
        0 <= k < snaps.len(),
        answers(snaps[k], method, path, None),
    ensures
        matching(snaps, method, path, host) matches Some(i) && 0 <= i < snaps.len() && answers(
            snaps[i],
            method,
            path,
            None,
        ) && (host_of_origin(snaps[k].origin@) == host ==> host_of_origin(snaps[i].origin@)
            == host),
{
    law_latest_is_largest(snaps, method, path, Some(host));
    law_latest_is_largest(snaps, method, path, None);
}

/// A request that was recorded is found again: whatever its query, in absolute form and behind a
/// prefix, the answer comes from the host that was recorded.
pub proof fn law_recorded_request_is_found(
    snaps: Seq<Snapshot>,
    k: int,
    recorded: http_util::Target,
    asked: http_util::Target,
    method: Seq<char>,
)
    requires
        0 <= k < snaps.len(),
        snaps[k].request.method@ == method,
        snaps[k].request.url@ == http_util::url_text(recorded),
        snaps[k].origin@ == http_util::origin_text(recorded),
        http_util::is_scheme(recorded.scheme),
        asked.authority == recorded.authority,
        rewrite::path_of_url(http_util::url_text(asked)) == rewrite::path_of_url(
            http_util::url_text(recorded),
        ),
    ensures
        matching(
            snaps,
            method,
            asked_path(Some(asked), Seq::empty()),
            asked_host(Some(asked), Seq::empty()),
        ) matches Some(i) && 0 <= i < snaps.len() && answers(
            snaps[i],
            method,
            asked_path(Some(asked), Seq::empty()),
            Some(recorded.authority),
        ),
{
    lemma_host_of_origin(recorded.scheme, recorded.authority);
    law_recorded_path_is_answered(
        snaps,
        method,
        asked_path(Some(asked), Seq::empty()),
        asked.authority,
        k,
    );
}

/// The authority of an origin is found again.
pub proof fn lemma_host_of_origin(scheme: Seq<char>, authority: Seq<char>)
    requires
        http_util::is_scheme(scheme),
    ensures
        host_of_origin(scheme + "://"@ + authority) == authority,
{
    let origin = scheme + "://"@ + authority;
    let n = scheme.len() as int;
    reveal_strlit("http");
    reveal_strlit("https");
    reveal_strlit("://");
    assert(text::lowered(scheme).len() == n);
    assert forall|j: int| 0 <= j < n implies !text::occurs_at(origin, "://"@, j) by {
        assert(origin[j] == scheme[j]);
        if text::occurs_at(origin, "://"@, j) {
            assert(origin.subrange(j, j + 3)[0] == ':');
            assert(text::lowered(scheme)[j] == ':');
        }
    }
    assert(origin.subrange(n, n + 3) =~= "://"@);
    text::lemma_found_is_first(origin, "://"@, n);
    assert(origin.skip(n + 3) =~= authority);
}

/// A replayed answer has the recorded status.
pub proof fn law_status_is_kept(
    s: Snapshot,
    path: Seq<char>,
    prefix: Option<Through>,
    rule: rewrite::Rule,
)
    ensures
        snapshot_reply(s, path, prefix, rule).status == s.response.status,
{
}

/// Without rewriting, a replayed answer has the recorded body, byte for byte.
pub proof fn law_body_is_kept(s: Snapshot, path: Seq<char>)
    ensures
        snapshot_reply(s, path, None, rewrite::Rule::Keep).body == snapshot::body_bytes(
            s.response.body@,
            s.response.body_encoding@,
        ),
{
}

/// No answer carries a header that concerns one hop only, nor a recorded length.
pub proof fn law_hop_headers_are_left_out(headers: snapshot::HeaderTexts, prefix: Option<Through>)
    ensures
        forall|i: int|
            0 <= i < answered_headers(headers, prefix).len() ==> !is_left_out(
                (#[trigger] answered_headers(headers, prefix)[i]).0,
            ),
    decreases headers.len(),
{
    if headers.len() > 0 {
        let all = answered_headers(headers, prefix);
        let some = answered_headers(headers.drop_last(), prefix);
        law_hop_headers_are_left_out(headers.drop_last(), prefix);
        assert forall|i: int| 0 <= i < all.len() implies !is_left_out((#[trigger] all[i]).0) by {
            if i < some.len() {
                assert(all[i] == some[i]);
            }
        }
    }
}

/// Every replayed answer says what its content type is.
pub proof fn law_content_type_is_there(
    headers: snapshot::HeaderTexts,
    path: Seq<char>,
    prefix: Option<Through>,
)
    ensures
        exists|i: int|
            0 <= i < snapshot_headers(headers, path, prefix).len() && text::lowered(
                (#[trigger] snapshot_headers(headers, path, prefix)[i]).0,
            ) == "content-type"@,
{
    let all = snapshot_headers(headers, path, prefix);
    if has_recorded(headers, "content-type"@) {
        lemma_recorded_type_is_answered(headers, prefix);
    } else {
        let last = all[all.len() - 1];
        assert(last.0 == "content-type"@);
        reveal_strlit("content-type");
        assert(text::lowered("content-type"@) =~= "content-type"@);
    }
}

/// A recorded content type is among the answered headers.
proof fn lemma_recorded_type_is_answered(headers: snapshot::HeaderTexts, prefix: Option<Through>)
    requires
        has_recorded(headers, "content-type"@),
    ensures
        exists|i: int|
            0 <= i < answered_headers(headers, prefix).len() && text::lowered(
                (#[trigger] answered_headers(headers, prefix)[i]).0,
            ) == "content-type"@,
    decreases headers.len(),
{
    if headers.len() > 0 {
        let front = headers.drop_last();
        let all = answered_headers(headers, prefix);
        let some = answered_headers(front, prefix);
        lemma_has_recorded(headers, "content-type"@);
        if text::lowered(headers.last().0) == "content-type"@ {
            lemma_content_type_is_kept(text::lowered(headers.last().0));
            assert(text::lowered(all[all.len() - 1].0) == "content-type"@);
        } else {
            lemma_recorded_type_is_answered(front, prefix);
            let i = choose|i: int|
                0 <= i < some.len() && text::lowered((#[trigger] some[i]).0) == "content-type"@;
            assert(all[i] == some[i]);
        }
    }
}

/// A resource of the host that is asked comes before one of any other.
pub proof fn law_resources_do_not_cross_origins(
    index: Seq<download::Entry>,
    path: Seq<char>,
    host: Seq<char>,
    k: int,
)
    requires
        0 <= k < index.len(),
        lies_at(index[k], path),
        host_of_origin(index[k].origin) == host,
    ensures
        matching_resource(index, path, host) matches Some(i) && 0 <= i < index.len() && lies_at(
            index[i],
            path,
        ) && host_of_origin(index[i].origin) == host,
{
    lemma_first_resource(index, path, Some(host));
}

/// The first resource at a path is the first.
proof fn lemma_first_resource(
    index: Seq<download::Entry>,
    path: Seq<char>,
    host: Option<Seq<char>>,
)
    ensures
        match first_resource(index, path, host) {
            Some(i) => 0 <= i < index.len() && lies_at(index[i], path) && (host matches Some(h)
                ==> host_of_origin(index[i].origin) == h),
            None => forall|j: int|
                0 <= j < index.len() ==> !(lies_at(#[trigger] index[j], path) && (host matches Some(
                    h,
                ) ==> host_of_origin(index[j].origin) == h)),
        },
    decreases index.len(),
{
    if index.len() > 0 {
        let front = index.drop_last();
        lemma_first_resource(front, path, host);
        if first_resource(index, path, host) is None {
            assert forall|j: int| 0 <= j < index.len() implies !(lies_at(#[trigger] index[j], path)
                && (host matches Some(h) ==> host_of_origin(index[j].origin) == h)) by {
                if j < front.len() {
                    assert(front[j] == index[j]);
                }
            }
        }
    }
}

/// A resource that was kept from the path of a URL is found under that path and under no other,
/// whatever its name on disk.
pub proof fn law_kept_resource_is_found(
    data: Seq<u8>,
    origin: Seq<char>,
    url: Seq<char>,
    content_type: Seq<char>,
    path: Seq<char>,
)
    ensures
        lies_at(
            download::entry_for(data, origin, rewrite::path_of_url(url), content_type),
            path,
        ) <==> path == rewrite::path_of_url(url),
{
    rewrite::law_url_path(url);
}

/// The one resource of the host that is asked at a path is the one that a request for the path
/// finds, and its content is what is read.
pub proof fn law_kept_resource_is_answered(
    index: Seq<download::Entry>,
    k: int,
    path: Seq<char>,
    host: Seq<char>,
    prefix: Option<Through>,
)
    requires
        0 <= k < index.len(),
        lies_at(index[k], path),
        host_of_origin(index[k].origin) == host,
        forall|j: int|
            0 <= j < index.len() && j != k && host_of_origin((#[trigger] index[j]).origin) == host
                ==> !lies_at(index[j], path),
    ensures
        matching_resource(index, path, host) == Some(k),
        resource_action(index[k], "GET"@, path, prefix) == Action::ReadBlob(
            "resources/"@ + download::blob_path(index[k].hash),
            resource_type(path, index[k].content_type),
            prefix,
        ),
{
    lemma_first_resource(index, path, Some(host));
}

/// A resource is only ever read: other methods are refused, with the methods that are allowed.
pub proof fn law_resources_are_only_read(
    e: download::Entry,
    method: Seq<char>,
    path: Seq<char>,
    prefix: Option<Through>,
)
    requires
        method != "GET"@,
        method != "HEAD"@,
    ensures
        resource_action(e, method, path, prefix) matches Action::Respond(r) && r.status == 405
            && r.headers.contains(http::text_header("allow"@, "GET, HEAD"@)),
{
    let r = not_allowed_reply();
    assert(r.headers.last() == http::text_header("allow"@, "GET, HEAD"@));
    assert(r.headers.contains(r.headers[r.headers.len() - 1]));
}

/// Under every rule but the one that keeps links, absolute addresses among them, the body of a
/// replayed answer is the recorded one with its links rewritten under that rule; a prefixed
/// request has its links lead back, whatever the rule. A recorded text without compression is
/// answered as the rewritten text.
pub proof fn law_replayed_links_are_rewritten(
    s: Snapshot,
    path: Seq<char>,
    t: Through,
    rule: rewrite::Rule,
    text: Seq<char>,
)
    ensures
        ({
            let raw = snapshot::body_bytes(s.response.body@, s.response.body_encoding@);
            let headers = snapshot::header_texts(s.response.headers@);
            let encoding = recorded_header(headers, "content-encoding"@);
            let kind = recorded_header(headers, "content-type"@);
            let back = rewrite::Rule::Prefix { base: t.base, scheme: t.scheme, origin: t.origin };
            let through = snapshot_reply(s, path, Some(t), rule).body;
            let direct = snapshot_reply(s, path, None, rule).body;
            &&& through == rewrite::body_rewritten_for(back, encoding, kind, raw)
            &&& !(rule is Keep) ==> direct == rewrite::body_rewritten_for(rule, encoding, kind, raw)
            &&& rule is Keep ==> direct == raw
            &&& text::lowered(text::trimmed(encoding)).len() == 0 && raw
                == vstd::utf8::encode_utf8(text) && !text::has(text::lowered(kind), "text/css"@)
                ==> {
                &&& direct == vstd::utf8::encode_utf8(rewrite::rewritten(rule, text))
                &&& through == vstd::utf8::encode_utf8(rewrite::rewritten(back, text))
            }
        }),
{
    let headers = snapshot::header_texts(s.response.headers@);
    let encoding = recorded_header(headers, "content-encoding"@);
    let kind = recorded_header(headers, "content-type"@);
    let back = rewrite::Rule::Prefix { base: t.base, scheme: t.scheme, origin: t.origin };
    if text::lowered(text::trimmed(encoding)).len() == 0 {
        rewrite::law_content_type_decides(rule, encoding, kind, text);
        rewrite::law_content_type_decides(back, encoding, kind, text);
    }
}

/// Of recorded headers with a name, whatever its case, the first counts; without one the value is
/// empty.
pub proof fn law_first_recorded_header_counts(
    headers: snapshot::HeaderTexts,
    name: Seq<char>,
    i: int,
)
    requires
        0 <= i <= headers.len(),
        forall|j: int| 0 <= j < i ==> text::lowered((#[trigger] headers[j]).0) != name,
    ensures
        i < headers.len() && text::lowered(headers[i].0) == name ==> recorded_header(headers, name)
            == headers[i].1,
        i == headers.len() ==> recorded_header(headers, name).len() == 0,
    decreases headers.len(),
{
    if i > 0 {
        assert(text::lowered(headers[0].0) != name);
        let rest = headers.drop_first();
        assert forall|j: int| 0 <= j < i - 1 implies text::lowered((#[trigger] rest[j]).0)
            != name by {
            assert(rest[j] == headers[j + 1]);
        }
        law_first_recorded_header_counts(rest, name, i - 1);
    }
}

/// Every recorded header is answered in the same order and as often as it was recorded, but for
/// those of the connection: with its value, or, where it redirects a prefixed request, with one
/// that leads back.
pub proof fn law_recorded_headers_are_answered(
    headers: snapshot::HeaderTexts,
    prefix: Option<Through>,
)
    ensures
        ({
            let of_connection = seq![
                "connection"@,
                "keep-alive"@,
                "proxy-authenticate"@,
                "proxy-authorization"@,
                "te"@,
                "trailer"@,
                "transfer-encoding"@,
                "upgrade"@,
                "content-length"@,
            ];
            let own = headers.filter(
                |h: (Seq<char>, Seq<char>)| !of_connection.contains(text::lowered(h.0)),
            );
            let all = answered_headers(headers, prefix);
            &&& all.len() == own.len()
            &&& forall|i: int|
                0 <= i < own.len() ==> (#[trigger] all[i]).0 == own[i].0 && (prefix is None
                    || text::lowered(own[i].0) != "location"@ ==> all[i].1
                    == vstd::utf8::encode_utf8(own[i].1))
            &&& prefix matches Some(t) ==> forall|i: int|
                0 <= i < own.len() && text::lowered((#[trigger] own[i]).0) == "location"@
                    ==> all[i].1 == vstd::utf8::encode_utf8(
                    rewrite::location_rewritten(own[i].1, t.scheme, t.origin, t.base),
                )
        }),
    decreases headers.len(),
{
    reveal(Seq::filter);
    let of_connection = seq![
        "connection"@,
        "keep-alive"@,
        "proxy-authenticate"@,
        "proxy-authorization"@,
        "te"@,
        "trailer"@,
        "transfer-encoding"@,
        "upgrade"@,
        "content-length"@,
    ];
    let f = |h: (Seq<char>, Seq<char>)| !of_connection.contains(text::lowered(h.0));
    let own = headers.filter(f);
    let all = answered_headers(headers, prefix);
    if headers.len() > 0 {
        law_recorded_headers_are_answered(headers.drop_last(), prefix);
        crate::record::lemma_of_connection(headers.last().0, of_connection);
        let some = answered_headers(headers.drop_last(), prefix);
        let few = headers.drop_last().filter(f);
        assert forall|i: int| 0 <= i < own.len() implies (#[trigger] all[i]).0 == own[i].0 && (
        prefix is None || text::lowered(own[i].0) != "location"@ ==> all[i].1
            == vstd::utf8::encode_utf8(own[i].1)) by {
            if i < few.len() {
                assert(all[i] == some[i] && own[i] == few[i]);
            }
        }
        if let Some(t) = prefix {
            assert forall|i: int|
                0 <= i < own.len() && text::lowered((#[trigger] own[i]).0)
                    == "location"@ implies all[i].1 == vstd::utf8::encode_utf8(
                rewrite::location_rewritten(own[i].1, t.scheme, t.origin, t.base),
            ) by {
                if i < few.len() {
                    assert(all[i] == some[i] && own[i] == few[i]);
                }
            }
        }
    }
}

/// To the recorded headers a content type is added where none of them is one, and nothing else:
/// that of the path, or that of any bytes.
pub proof fn law_only_a_content_type_is_added(
    headers: snapshot::HeaderTexts,
    path: Seq<char>,
    prefix: Option<Through>,
)
    ensures
        ({
            let own = answered_headers(headers, prefix);
            let all = snapshot_headers(headers, path, prefix);
            let kind = match mime::mime_of(path) {
                Some(m) => m,
                None => "application/octet-stream"@,
            };
            if exists|i: int|
                0 <= i < headers.len() && text::lowered((#[trigger] headers[i]).0)
                    == "content-type"@ {
                all == own
            } else {
                all == own + seq![("content-type"@, vstd::utf8::encode_utf8(kind))]
            }
        }),
{
    let own = answered_headers(headers, prefix);
    assert(own.push(http::text_header("content-type"@, guessed_type(path))) =~= own + seq![
        http::text_header("content-type"@, guessed_type(path)),
    ]);
}

/// A snapshot answers the request that was recorded, whatever its query and whatever the case of
/// its method; no other path, no other method, and, where a host is asked, no other host.
pub proof fn law_snapshot_answers_its_request(
    s: Snapshot,
    scheme: Seq<char>,
    authority: Seq<char>,
    path: Seq<char>,
    query: Seq<char>,
    method: Seq<char>,
    asked: Seq<char>,
    host: Seq<char>,
)
    requires
        http_util::is_scheme(scheme),
        http_util::is_authority(authority),
        path.len() > 0,
        path[0] == '/',
        !path.contains('?'),
        s.origin@ == scheme + "://"@ + authority,
        s.request.url@ == s.origin@ + path || s.request.url@ == s.origin@ + path + "?"@ + query,
    ensures
        ({
            let same = text::uppered(method) == text::uppered(s.request.method@) && asked == path;
            &&& answers(s, method, asked, None) <==> same
            &&& answers(s, method, asked, Some(host)) <==> same && host == authority
        }),
{
    lemma_host_of_origin(scheme, authority);
    reveal_strlit("?");
    assert("?"@ =~= seq!['?']);
    text::law_cut(path, '?', query);
    assert(text::before(path, '?', '?') == path) by {
        text::lemma_upto(path, '?', '?');
        assert(path.take(path.len() as int) =~= path);
        let k = text::upto(path, '?', '?');
        if k < path.len() {
            assert(path.contains(path[k]));
        }
    }
    assert(text::before(path + "?"@ + query, '?', '?') == path) by {
        let whole = path + "?"@ + query;
        text::lemma_upto(whole, '?', '?');
        let k = text::upto(whole, '?', '?');
        let n = path.len() as int;
        assert(whole[n] == '?');
        if k < n {
            assert(whole[k] == path[k]);
            assert(path.contains(path[k]));
        }
        assert(whole.take(n) =~= path);
    }
    rewrite::law_path_of_address(scheme, authority, path);
    rewrite::law_path_of_address(scheme, authority, path + "?"@ + query);
    assert(s.origin@ + path + "?"@ + query =~= scheme + "://"@ + authority + (path + "?"@
        + query));
}

/// Of the snapshots that answer a request, one of the host that is asked comes before any other,
/// and of those the last with the largest id.
pub proof fn law_latest_of_host_answers(
    snaps: Seq<Snapshot>,
    method: Seq<char>,
    path: Seq<char>,
    host: Seq<char>,
    i: int,
)
    requires
        0 <= i < snaps.len(),
        answers(snaps[i], method, path, None),
        host_of_origin(snaps[i].origin@) == host || (forall|j: int|
            0 <= j < snaps.len() && answers(#[trigger] snaps[j], method, path, None)
                ==> host_of_origin(snaps[j].origin@) != host),
        forall|j: int|
            0 <= j < snaps.len() && answers(#[trigger] snaps[j], method, path, None) && (
            host_of_origin(snaps[i].origin@) == host ==> host_of_origin(snaps[j].origin@) == host)
                ==> if j <= i {
                order::text_le(snaps[j].id@, snaps[i].id@)
            } else {
                !order::text_le(snaps[i].id@, snaps[j].id@)
            },
    ensures
        matching(snaps, method, path, host) == Some(i),
{
    if host_of_origin(snaps[i].origin@) == host {
        lemma_latest_is(snaps, method, path, Some(host), i);
    } else {
        law_latest_is_largest(snaps, method, path, Some(host));
        if let Some(k) = latest(snaps, method, path, Some(host)) {
            assert(answers(snaps[k], method, path, None));
        }
        lemma_latest_is(snaps, method, path, None, i);
    }
}

/// The last snapshot with the largest id is the latest.
proof fn lemma_latest_is(
    snaps: Seq<Snapshot>,
    method: Seq<char>,
    path: Seq<char>,
    host: Option<Seq<char>>,
    i: int,
)
    requires
        0 <= i < snaps.len(),
        answers(snaps[i], method, path, host),
        forall|j: int|
            0 <= j < snaps.len() && answers(#[trigger] snaps[j], method, path, host) ==> if j
                <= i {
                order::text_le(snaps[j].id@, snaps[i].id@)
            } else {
                !order::text_le(snaps[i].id@, snaps[j].id@)
            },
    ensures
        latest(snaps, method, path, host) == Some(i),
    decreases snaps.len(),
{
    let front = snaps.drop_last();
    let n = snaps.len() - 1;
    if i < n {
        assert(front[i] == snaps[i]);
        assert forall|j: int|
            0 <= j < front.len() && answers(#[trigger] front[j], method, path, host) implies if j
            <= i {
            order::text_le(front[j].id@, front[i].id@)
        } else {
            !order::text_le(front[i].id@, front[j].id@)
        } by {
            assert(front[j] == snaps[j]);
        }
        lemma_latest_is(front, method, path, host, i);
        assert(snaps[n] == snaps.last());
    } else {
        law_latest_is_largest(front, method, path, host);
        if let Some(k) = latest(front, method, path, host) {
            assert(front[k] == snaps[k]);
        }
    }
}

/// Of the resources at a path, the first of the host that is asked answers, and where it has none
/// the first of all.
pub proof fn law_first_resource_of_host_answers(
    index: Seq<download::Entry>,
    path: Seq<char>,
    host: Seq<char>,
    i: int,
)
    requires
        0 <= i < index.len(),
        lies_at(index[i], path),
        host_of_origin(index[i].origin) == host || (forall|j: int|
            0 <= j < index.len() && lies_at(#[trigger] index[j], path) ==> host_of_origin(
                index[j].origin,
            ) != host),
        forall|j: int|
            0 <= j < i && lies_at(#[trigger] index[j], path) ==> host_of_origin(index[i].origin)
                == host && host_of_origin(index[j].origin) != host,
    ensures
        matching_resource(index, path, host) == Some(i),
{
    if host_of_origin(index[i].origin) == host {
        lemma_first_resource_is(index, path, Some(host), i);
    } else {
        lemma_first_resource(index, path, Some(host));
        lemma_first_resource_is(index, path, None, i);
    }
}

/// The first resource that fits is found.
proof fn lemma_first_resource_is(
    index: Seq<download::Entry>,
    path: Seq<char>,
    host: Option<Seq<char>>,
    i: int,
)
    requires
        0 <= i < index.len(),
        lies_at(index[i], path) && (host matches Some(h) ==> host_of_origin(index[i].origin) == h),
        forall|j: int|
            0 <= j < i ==> !(lies_at(#[trigger] index[j], path) && (host matches Some(h)
                ==> host_of_origin(index[j].origin) == h)),
    ensures
        first_resource(index, path, host) == Some(i),
    decreases index.len(),
{
    let front = index.drop_last();
    if i < front.len() {
        assert(front[i] == index[i]);
        assert forall|j: int| 0 <= j < i implies !(lies_at(#[trigger] front[j], path) && (
        host matches Some(h) ==> host_of_origin(front[j].origin) == h)) by {
            assert(front[j] == index[j]);
        }
        lemma_first_resource_is(front, path, host, i);
    } else {
        lemma_first_resource(front, path, host);
        if let Some(k) = first_resource(front, path, host) {
            assert(front[k] == index[k]);
        }
    }
}

/// A resource lies at the path of its URL; one of an index that says none, at its name on disk.
pub proof fn law_where_a_resource_lies(e: download::Entry, path: Seq<char>)
    ensures
        e.url_path == Some(path) ==> lies_at(e, path),
        e.url_path matches Some(p) && p != path ==> !lies_at(e, path),
        e.url_path is None ==> (lies_at(e, path) <==> path == "/"@ + e.path),
{
}

/// A snapshot of the request answers it; only without one does a resource at its path, and only
/// without either does the answer say that there is nothing. A resource is read from the file of
/// its content, under the type of the path, else the recorded one.
pub proof fn law_snapshots_come_before_resources(
    snaps: Seq<Snapshot>,
    index: Seq<download::Entry>,
    rule: rewrite::Rule,
    method: Seq<char>,
    uri: http_util::UriParts,
    host: Seq<char>,
)
    ensures
        ({
            let target = http_util::proxy_target(uri);
            let path = match target {
                Some(t) => rewrite::path_of_url(
                    t.scheme + "://"@ + t.authority + t.path_and_query,
                ),
                None => uri.path,
            };
            let asked = match target {
                Some(t) => t.authority,
                None => host,
            };
            let prefix = match target {
                Some(t) => if t.prefix && host.len() > 0 {
                    Some(Through { base: "http://"@ + host, scheme: t.scheme, origin: t.authority })
                } else {
                    None
                },
                None => None,
            };
            let recorded = exists|i: int|
                0 <= i < snaps.len() && answers(#[trigger] snaps[i], method, path, None);
            let kept = exists|i: int| 0 <= i < index.len() && lies_at(#[trigger] index[i], path);
            let action = replay_action(snaps, index, rule, method, uri, host);
            &&& recorded ==> {
                &&& matching(snaps, method, path, asked) is Some
                &&& action == Action::Respond(
                    snapshot_reply(
                        snaps[matching(snaps, method, path, asked)->0],
                        path,
                        prefix,
                        rule,
                    ),
                )
            }
            &&& !recorded && kept && (method == "GET"@ || method == "HEAD"@) ==> {
                let e = index[matching_resource(index, path, asked)->0];
                &&& matching_resource(index, path, asked) is Some
                &&& action == Action::ReadBlob(
                    "resources/"@ + ("blobs/"@ + e.hash),
                    match mime::mime_of(path) {
                        Some(m) => m,
                        None => e.content_type,
                    },
                    prefix,
                )
            }
            &&& !recorded && kept && method != "GET"@ && method != "HEAD"@ ==> (
            action matches Action::Respond(r) && r.status == 405)
            &&& !recorded && !kept ==> (action matches Action::Respond(r) && r.status == 404
                && r.body == vstd::utf8::encode_utf8(
                "未找到 "@ + method + " "@ + path + " 的录制快照"@,
            ))
        }),
{
    let target = http_util::proxy_target(uri);
    let path = asked_path(target, uri.path);
    let asked = asked_host(target, host);
    law_latest_is_largest(snaps, method, path, Some(asked));
    law_latest_is_largest(snaps, method, path, None);
    lemma_first_resource(index, path, Some(asked));
    lemma_first_resource(index, path, None);
    if let Some(i) = latest(snaps, method, path, Some(asked)) {
        assert(answers(snaps[i], method, path, None));
    }
}

/// The answer with a resource is its content under the given type, for pages to keep for a day;
/// in one to a prefixed request the links lead back.
pub proof fn law_resource_is_answered(kind: Seq<char>, t: Through, data: Seq<u8>)
    ensures
        resource_reply(kind, None, data).body == data,
        resource_reply(kind, Some(t), data).body == rewrite::body_rewritten_for(
            rewrite::Rule::Prefix { base: t.base, scheme: t.scheme, origin: t.origin },
            Seq::empty(),
            kind,
            data,
        ),
        forall|prefix: Option<Through>|
            {
                &&& (#[trigger] resource_reply(kind, prefix, data)).status == 200
                &&& resource_reply(kind, prefix, data).headers == seq![
                    ("content-type"@, vstd::utf8::encode_utf8(kind)),
                    ("cache-control"@, vstd::utf8::encode_utf8("public, max-age=86400"@)),
                ]
            },
{
}

} // verus!
