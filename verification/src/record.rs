//! Recording: what is forwarded upstream, what is answered, and what is kept.
use crate::clock;
use crate::config;
use crate::config::RecordFilter;
use crate::download;
use crate::http;
use crate::http::{HttpHeader, HttpResponse};
use crate::http_util;
use crate::http_util::{RequestTarget, RequestUri};
use crate::order;
use crate::replay;
use crate::replay::PrefixContext;
use crate::rewrite;
use crate::rewrite::RewriteRule;
use crate::snapshot;
use crate::snapshot::{RequestRecord, ResponseRecord, Snapshot};
use crate::store;
use crate::store::Recorder;
use crate::text;
use vstd::prelude::*;
use vstd::slice::slice_to_vec;

verus! {

// ---------------------------------------------------------------------------
// What is forwarded
// ---------------------------------------------------------------------------

/// Whether a header of a request is left out when it is forwarded: those that concern one hop
/// only, and those that are set anew.
pub open spec fn is_dropped(name: Seq<char>) -> bool {
    let low = text::lowered(name);
    http_util::hop_by_hop(low) || low == "host"@ || low == "accept-encoding"@
}

/// The headers of a request that are forwarded as they are.
pub open spec fn passed_on(headers: Seq<http::Header>) -> Seq<http::Header>
    decreases headers.len(),
{
    if headers.len() == 0 {
        seq![]
    } else {
        let front = passed_on(headers.drop_last());
        if is_dropped(headers.last().0) {
            front
        } else {
            front.push(headers.last())
        }
    }
}

/// Whether a request only reads.
pub open spec fn is_read(method: Seq<char>) -> bool {
    method == "GET"@ || method == "HEAD"@
}

/// Whether a request for a static resource is given a referer: it only reads, and names none.
pub open spec fn needs_referer(
    headers: Seq<http::Header>,
    method: Seq<char>,
    t: http_util::Target,
) -> bool {
    http::header_value(headers, "referer"@) is None && is_read(method)
        && download::is_resource_url(t.path_and_query)
}

/// The headers that are sent upstream. The host is that of the target, not of `tape`; the answer
/// is asked for without compression, so that its links can be rewritten; and a static resource
/// is asked for from the upstream's own page, since some servers demand that.
pub open spec fn forwarded_headers(
    headers: Seq<http::Header>,
    method: Seq<char>,
    t: http_util::Target,
) -> Seq<http::Header> {
    let always = passed_on(headers).push(http::text_header("host"@, t.authority)).push(
        http::text_header("accept-encoding"@, "identity"@),
    );
    if needs_referer(headers, method, t) {
        always.push(http::text_header("referer"@, http_util::origin_text(t) + "/"@))
    } else {
        always
    }
}

/// How many seconds the upstream has: more for static resources, which some servers delay.
pub open spec fn seconds_for(t: http_util::Target) -> u64 {
    if download::is_resource_url(t.path_and_query) {
        120
    } else {
        30
    }
}

/// A request that is to be forwarded.
pub struct ForwardPlan {
    /// Where it leads to.
    pub target: RequestTarget,
    /// The scheme and authority of the target.
    pub origin: String,
    /// The absolute URL of the target.
    pub url: String,
    /// The headers to send.
    pub headers: Vec<HttpHeader>,
    /// The headers as they came, for the snapshot.
    pub request_headers: Vec<(String, String)>,
    /// How many seconds the upstream has.
    pub timeout_secs: u64,
    /// Whether a failed attempt may be repeated: only for requests that read.
    pub retryable: bool,
    /// Whether the exchange is to be recorded.
    pub record: bool,
    /// What a prefixed request needs for its links to lead back.
    pub prefix: Option<PrefixContext>,
}

/// What a request leads to.
pub enum RecordAction {
    /// The answer.
    Respond(HttpResponse),
    /// A request to forward.
    Forward(ForwardPlan),
}

/// Whether a request is sent once more after so many attempts have failed: one that only reads,
/// after the first.
pub open spec fn sends_again(retryable: bool, failed: u32) -> bool {
    retryable && failed < 2
}

/// Tells whether a request is sent once more after so many attempts have failed.
pub fn retries(plan: &ForwardPlan, failed: u32) -> (r: bool)
    ensures
        r == sends_again(plan.retryable, failed),
{
    plan.retryable && failed < 2
}

/// A header as a snapshot keeps it.
pub open spec fn recorded_pair(h: http::Header) -> (Seq<char>, Seq<char>) {
    (h.0, text::decoded_lossily(h.1))
}

/// Headers as a snapshot keeps them.
pub open spec fn recorded_pairs(headers: Seq<http::Header>) -> snapshot::HeaderTexts {
    headers.map_values(|h: http::Header| recorded_pair(h))
}

/// The answer to a request without a target.
pub open spec fn no_target_reply() -> http::Reply {
    http::plain_reply(
        400,
        "tape record 需要 absolute-form 请求行（正向代理），或 /http://host/path 前缀式请求路径（无法配置代理时直接加前缀访问）"@,
    )
}

/// The answer to a request with another scheme.
pub open spec fn scheme_reply(scheme: Seq<char>) -> http::Reply {
    http::plain_reply(501, "不支持协议 "@ + scheme + "，本工具仅支持 http/https"@)
}

/// Whether a scheme can be forwarded.
pub open spec fn is_supported(scheme: Seq<char>) -> bool {
    scheme == "http"@ || scheme == "https"@
}

/// Whether a plan is the one for a request.
pub open spec fn is_plan_for(
    p: ForwardPlan,
    t: http_util::Target,
    method: Seq<char>,
    headers: Seq<http::Header>,
    hosts: Seq<Seq<char>>,
    patterns: Seq<Seq<char>>,
) -> bool {
    &&& p.target@ == t
    &&& p.origin@ == http_util::origin_text(t)
    &&& p.url@ == http_util::url_text(t)
    &&& http::header_views(p.headers@) == forwarded_headers(headers, method, t)
    &&& snapshot::header_texts(p.request_headers@) == recorded_pairs(headers)
    &&& p.timeout_secs == seconds_for(t)
    &&& p.retryable == is_read(method)
    &&& p.record == config::lets_through(hosts, patterns, t.authority)
    &&& replay::opt_through(p.prefix) == replay::through_of(
        Some(t),
        http::header_text(headers, "host"@),
    )
}

/// Collects the headers that are forwarded as they are.
fn pass_on(headers: &[HttpHeader]) -> (r: Vec<HttpHeader>)
    ensures
        http::header_views(r@) == passed_on(http::header_views(headers@)),
{
    let ghost all = http::header_views(headers@);
    let n: usize = headers.len();
    let mut out: Vec<HttpHeader> = Vec::new();
    let mut i: usize = 0;
    assert(http::header_views(out@) =~= passed_on(all.take(0)));
    while i < n
        invariant
            i <= n == headers@.len(),
            all == http::header_views(headers@),
            http::header_views(out@) == passed_on(all.take(i as int)),
        decreases n - i,
    {
        proof {
            assert(all.take(i + 1).drop_last() =~= all.take(i as int));
            assert(all.take(i + 1).last() == headers@[i as int]@);
        }
        let low = text::lower_string(&headers[i].name);
        if !(http_util::is_hop_by_hop(&low) || text::same(&low, "host") || text::same(
            &low,
            "accept-encoding",
        )) {
            let h = http::copy_header(&headers[i]);
            proof {
                http::lemma_header_push(out@, h);
            }
            out.push(h);
        }
        i += 1;
    }
    assert(all.take(n as int) =~= all);
    out
}

/// Makes the headers that are sent upstream.
pub fn forward_headers(headers: &[HttpHeader], method: &str, t: &RequestTarget) -> (r: Vec<
    HttpHeader,
>)
    ensures
        http::header_views(r@) == forwarded_headers(http::header_views(headers@), method@, t@),
{
    let mut out = pass_on(headers);
    let host = http::make_header("host", &t.authority);
    proof {
        http::lemma_header_push(out@, host);
    }
    out.push(host);
    let encoding = http::make_header("accept-encoding", "identity");
    proof {
        http::lemma_header_push(out@, encoding);
    }
    out.push(encoding);
    if http::find_header(headers, "referer").is_none() && (text::same(method, "GET") || text::same(
        method,
        "HEAD",
    )) && download::looks_like_resource(&t.path_and_query) {
        let mut page = text::chars_of(&http_util::origin_of(t));
        text::push_str(&mut page, "/");
        let referer = http::make_header("referer", &text::string_of(&page));
        proof {
            http::lemma_header_push(out@, referer);
        }
        out.push(referer);
    }
    out
}

/// Copies headers as a snapshot keeps them. A value that is not UTF-8 keeps what is readable.
pub fn record_headers(headers: &[HttpHeader]) -> (r: Vec<(String, String)>)
    ensures
        snapshot::header_texts(r@) == recorded_pairs(http::header_views(headers@)),
{
    let ghost all = recorded_pairs(http::header_views(headers@));
    let n: usize = headers.len();
    let mut out: Vec<(String, String)> = Vec::new();
    let mut i: usize = 0;
    while i < n
        invariant
            i <= n == headers@.len(),
            all == recorded_pairs(http::header_views(headers@)),
            snapshot::header_texts(out@) == all.take(i as int),
        decreases n - i,
    {
        let name = headers[i].name.clone();
        let value = text::decode_lossily(&headers[i].value);
        let ghost before = out@;
        let ghost pair = (name, value);
        out.push((name, value));
        i += 1;
        proof {
            assert(all[i - 1] == (pair.0@, pair.1@));
            assert(snapshot::header_texts(out@) =~= snapshot::header_texts(before).push(
                (pair.0@, pair.1@),
            ));
            assert(snapshot::header_texts(out@) =~= all.take(i as int));
        }
    }
    assert(all.take(n as int) =~= all);
    out
}

/// Decides what a request leads to: the answer that it cannot be forwarded, or how it is.
pub fn plan_request(
    method: &str,
    uri: &RequestUri,
    headers: &[HttpHeader],
    filter: &RecordFilter,
) -> (r: RecordAction)
    ensures
        match http_util::proxy_target(uri@) {
            Some(t) => if is_supported(t.scheme) {
                r matches RecordAction::Forward(p) && is_plan_for(
                    p,
                    t,
                    method@,
                    http::header_views(headers@),
                    filter.host_rules(),
                    filter.pattern_rules(),
                )
            } else {
                r matches RecordAction::Respond(a) && a@ == scheme_reply(t.scheme)
            },
            None => r matches RecordAction::Respond(a) && a@ == no_target_reply(),
        },
{
    let parsed = http_util::parse_proxy_target(uri);
    let host = http::read_header(headers, "host");
    let prefix = replay::prefix_context(&parsed, &host);
    let target = match parsed {
        Some(t) => t,
        None => {
            return RecordAction::Respond(
                http::simple_response(
                    400,
                    "tape record 需要 absolute-form 请求行（正向代理），或 /http://host/path 前缀式请求路径（无法配置代理时直接加前缀访问）",
                ),
            );
        },
    };
    if !(text::same(&target.scheme, "http") || text::same(&target.scheme, "https")) {
        let mut message = text::chars_of("不支持协议 ");
        text::push_str(&mut message, &target.scheme);
        text::push_str(&mut message, "，本工具仅支持 http/https");
        return RecordAction::Respond(http::simple_response(501, &text::string_of(&message)));
    }
    let timeout_secs: u64 = if download::looks_like_resource(&target.path_and_query) {
        120
    } else {
        30
    };
    RecordAction::Forward(
        ForwardPlan {
            origin: http_util::origin_of(&target),
            url: http_util::url_of(&target),
            headers: forward_headers(headers, method, &target),
            request_headers: record_headers(headers),
            timeout_secs,
            retryable: text::same(method, "GET") || text::same(method, "HEAD"),
            record: filter.matches(&target.authority),
            prefix,
            target,
        },
    )
}

// ---------------------------------------------------------------------------
// What is answered
// ---------------------------------------------------------------------------

/// A header of the upstream's response as it is answered: a redirect of a prefixed request leads
/// back to `tape`.
pub open spec fn returned_header(h: http::Header, prefix: Option<replay::Through>) -> http::Header {
    match prefix {
        Some(t) => match http::visible_text(h.1) {
            Some(v) => if text::lowered(h.0) == "location"@ {
                http::text_header(
                    h.0,
                    rewrite::location_rewritten(v, t.scheme, t.origin, t.base),
                )
            } else {
                h
            },
            None => h,
        },
        None => h,
    }
}

/// The headers of the upstream's response as they are answered.
pub open spec fn returned_headers(
    headers: Seq<http::Header>,
    prefix: Option<replay::Through>,
) -> Seq<http::Header>
    decreases headers.len(),
{
    if headers.len() == 0 {
        seq![]
    } else {
        let front = returned_headers(headers.drop_last(), prefix);
        if replay::is_left_out(headers.last().0) {
            front
        } else {
            front.push(returned_header(headers.last(), prefix))
        }
    }
}

/// The body of the upstream's response as it is answered: with links that lead back to `tape`
/// for a prefixed request, with relative links where that is switched on, else as it is.
pub open spec fn returned_body(
    up: http::Reply,
    prefix: Option<replay::Through>,
    rewrite_on_record: bool,
) -> Seq<u8> {
    let encoding = http::header_text(up.headers, "content-encoding"@);
    let content_type = http::header_text(up.headers, "content-type"@);
    if prefix is Some || rewrite_on_record {
        rewrite::body_rewritten_for(
            replay::rule_under(prefix, rewrite::Rule::Relative),
            encoding,
            content_type,
            up.body,
        )
    } else {
        up.body
    }
}

/// The answer to a request that was forwarded.
pub open spec fn returned_reply(
    up: http::Reply,
    prefix: Option<replay::Through>,
    rewrite_on_record: bool,
) -> http::Reply {
    http::Reply {
        status: up.status,
        headers: returned_headers(up.headers, prefix),
        body: returned_body(up, prefix, rewrite_on_record),
    }
}

/// Makes the headers of the answer.
fn return_headers(headers: &[HttpHeader], prefix: &Option<PrefixContext>) -> (r: Vec<HttpHeader>)
    ensures
        http::header_views(r@) == returned_headers(
            http::header_views(headers@),
            replay::opt_through(*prefix),
        ),
{
    let ghost all = http::header_views(headers@);
    let ghost through = replay::opt_through(*prefix);
    let n: usize = headers.len();
    let mut out: Vec<HttpHeader> = Vec::new();
    let mut i: usize = 0;
    assert(http::header_views(out@) =~= returned_headers(all.take(0), through));
    while i < n
        invariant
            i <= n == headers@.len(),
            all == http::header_views(headers@),
            through == replay::opt_through(*prefix),
            http::header_views(out@) == returned_headers(all.take(i as int), through),
        decreases n - i,
    {
        proof {
            assert(all.take(i + 1).drop_last() =~= all.take(i as int));
            assert(all.take(i + 1).last() == headers@[i as int]@);
        }
        let low = text::lower_string(&headers[i].name);
        if !(http_util::is_hop_by_hop(&low) || text::same(&low, "content-length")) {
            let mut h = http::copy_header(&headers[i]);
            if let Some(p) = prefix {
                if text::same(&low, "location") {
                    if let Some(v) = http::read_visible(&headers[i].value) {
                        h = http::make_header(
                            &headers[i].name,
                            &rewrite::rewrite_location(&v, &p.scheme, &p.origin, &p.base),
                        );
                    }
                }
            }
            proof {
                http::lemma_header_push(out@, h);
            }
            out.push(h);
        }
        i += 1;
    }
    assert(all.take(n as int) =~= all);
    out
}

/// Makes the answer to a request that was forwarded.
pub fn return_response(
    up: &HttpResponse,
    prefix: &Option<PrefixContext>,
    rewrite_on_record: bool,
) -> (r: HttpResponse)
    ensures
        r@ == returned_reply(up@, replay::opt_through(*prefix), rewrite_on_record),
        if prefix is None && !rewrite_on_record {
            r.body@ == up.body@
        } else {
            rewrite::text_changed(
                rewrite::encoding_name(http::header_text(up@.headers, "content-encoding"@)),
                up.body@,
                r.body@,
                |s: Seq<char>|
                    rewrite::rewritten_for(
                        replay::rule_under(
                            replay::opt_through(*prefix),
                            rewrite::Rule::Relative,
                        ),
                        http::header_text(up@.headers, "content-type"@),
                        s,
                    ),
            )
        },
{
    let encoding = http::read_header(&up.headers, "content-encoding");
    let content_type = http::read_header(&up.headers, "content-type");
    let body = match prefix {
        Some(p) => rewrite::rewrite_response_bytes_for(
            &up.body,
            &encoding,
            &content_type,
            &replay::prefix_rule(p),
        ),
        None => if rewrite_on_record {
            rewrite::rewrite_response_bytes_for(
                &up.body,
                &encoding,
                &content_type,
                &RewriteRule::Relative,
            )
        } else {
            slice_to_vec(&up.body)
        },
    };
    HttpResponse { status: up.status, headers: return_headers(&up.headers, prefix), body }
}

/// What can go wrong with a request that is forwarded.
#[derive(Debug)]
pub enum ForwardFailure {
    /// The body of the request could not be read, for the given reason.
    UnreadableBody(String),
    /// The request could not be built, for the given reason.
    InvalidRequest(String),
    /// The upstream with the given origin could not be reached.
    Unreachable(String),
    /// The upstream did not answer within the given number of seconds.
    Timeout(u64),
    /// The answer could not be built, for the given reason.
    InvalidResponse(String),
}

/// The answer to a request that could not be forwarded.
pub open spec fn failure_reply(f: ForwardFailure) -> http::Reply {
    match f {
        ForwardFailure::UnreadableBody(e) => http::plain_reply(400, "读取请求体失败: "@ + e@),
        ForwardFailure::InvalidRequest(e) => http::plain_reply(500, "构造转发请求失败: "@ + e@),
        ForwardFailure::Unreachable(origin) => http::plain_reply(502, "无法连接上游 "@ + origin@),
        ForwardFailure::Timeout(secs) => http::plain_reply(
            504,
            "上游响应超时（"@ + crate::number::decimal(secs as nat) + "s）"@,
        ),
        ForwardFailure::InvalidResponse(e) => http::plain_reply(500, "构造回传响应失败: "@ + e@),
    }
}

/// Makes the answer to a request that could not be forwarded.
pub fn failure_response(f: &ForwardFailure) -> (r: HttpResponse)
    ensures
        r@ == failure_reply(*f),
{
    let mut message: Vec<char>;
    let status: u16;
    match f {
        ForwardFailure::UnreadableBody(e) => {
            status = 400;
            message = text::chars_of("读取请求体失败: ");
            text::push_str(&mut message, e);
        },
        ForwardFailure::InvalidRequest(e) => {
            status = 500;
            message = text::chars_of("构造转发请求失败: ");
            text::push_str(&mut message, e);
        },
        ForwardFailure::Unreachable(origin) => {
            status = 502;
            message = text::chars_of("无法连接上游 ");
            text::push_str(&mut message, origin);
        },
        ForwardFailure::Timeout(secs) => {
            status = 504;
            message = text::chars_of("上游响应超时（");
            text::push_all(&mut message, &crate::number::to_decimal(*secs));
            text::push_str(&mut message, "s）");
        },
        ForwardFailure::InvalidResponse(e) => {
            status = 500;
            message = text::chars_of("构造回传响应失败: ");
            text::push_str(&mut message, e);
        },
    }
    http::simple_response(status, &text::string_of(&message))
}

// ---------------------------------------------------------------------------
// What is kept
// ---------------------------------------------------------------------------

/// An exchange that is to be recorded.
pub struct CallData<'a> {
    pub method: &'a str,
    /// How the request was forwarded.
    pub plan: &'a ForwardPlan,
    /// The body of the request.
    pub req_body: &'a [u8],
    /// The response of the upstream, as it came.
    pub response: &'a HttpResponse,
    /// How long the upstream took, in milliseconds.
    pub duration_ms: u64,
}

/// A response that is itself a static resource, and where it belongs.
#[derive(Debug)]
pub struct AssetPlace {
    pub origin: String,
    /// The path of its URL.
    pub path: String,
    pub content_type: String,
}

/// What is to be kept of an exchange.
#[derive(Debug)]
pub struct Recorded {
    pub snapshot: Snapshot,
    /// The file of the snapshot, below the data directory.
    pub file: String,
    /// The resources that the response refers to, to be downloaded.
    pub downloads: Vec<String>,
    /// Where the response itself belongs, if it is a static resource.
    pub asset: Option<AssetPlace>,
}

/// The content type of a response.
pub open spec fn content_type_of(up: http::Reply) -> Seq<char> {
    http::header_text(up.headers, "content-type"@)
}

/// Whether a snapshot records an exchange: request and response as they were, whatever the
/// client was answered.
pub open spec fn is_record_of(
    s: Snapshot,
    method: Seq<char>,
    origin: Seq<char>,
    url: Seq<char>,
    request_headers: snapshot::HeaderTexts,
    req_body: Seq<u8>,
    up: http::Reply,
    duration_ms: u64,
) -> bool {
    &&& s.origin@ == origin
    &&& s.duration_ms == duration_ms
    &&& s.request.method@ == method
    &&& s.request.url@ == url
    &&& snapshot::header_texts(s.request.headers@) == request_headers
    &&& s.request.body@ == snapshot::stored_body(req_body)
    &&& s.request.body_encoding@ == snapshot::stored_encoding(req_body)
    &&& s.response.status == up.status
    &&& snapshot::header_texts(s.response.headers@) == recorded_pairs(up.headers)
    &&& s.response.body@ == snapshot::stored_body(up.body)
    &&& s.response.body_encoding@ == snapshot::stored_encoding(up.body)
    &&& snapshot::body_bytes(s.request.body@, s.request.body_encoding@) == req_body
    &&& snapshot::body_bytes(s.response.body@, s.response.body_encoding@) == up.body
}

/// The resources that a response refers to; none where it is not UTF-8.
pub open spec fn downloads_of(up: http::Reply, origin: Seq<char>) -> Seq<Seq<char>> {
    match text::decoded(up.body) {
        Some(s) => download::resources_of(s, content_type_of(up), origin),
        None => seq![],
    }
}

/// Copies a list of recorded headers.
fn copy_pairs(headers: &[(String, String)]) -> (r: Vec<(String, String)>)
    ensures
        snapshot::header_texts(r@) == snapshot::header_texts(headers@),
{
    let ghost all = snapshot::header_texts(headers@);
    let n: usize = headers.len();
    let mut out: Vec<(String, String)> = Vec::new();
    let mut i: usize = 0;
    while i < n
        invariant
            i <= n == headers@.len(),
            all == snapshot::header_texts(headers@),
            snapshot::header_texts(out@) == all.take(i as int),
        decreases n - i,
    {
        let ghost before = out@;
        out.push((headers[i].0.clone(), headers[i].1.clone()));
        i += 1;
        proof {
            assert(snapshot::header_texts(out@) =~= snapshot::header_texts(before).push(all[i - 1]));
            assert(snapshot::header_texts(out@) =~= all.take(i as int));
        }
    }
    assert(all.take(n as int) =~= all);
    out
}

/// Makes the snapshot of an exchange.
pub fn make_snapshot(call: &CallData<'_>, id: String, recorded_at: String) -> (r: Snapshot)
    ensures
        r.id == id,
        r.recorded_at == recorded_at,
        is_record_of(
            r,
            call.method@,
            call.plan.origin@,
            call.plan.url@,
            snapshot::header_texts(call.plan.request_headers@),
            call.req_body@,
            call.response@,
            call.duration_ms,
        ),
{
    let (req_body, req_encoding) = snapshot::encode_body(call.req_body);
    let (resp_body, resp_encoding) = snapshot::encode_body(&call.response.body);
    Snapshot {
        id,
        origin: call.plan.origin.clone(),
        recorded_at,
        duration_ms: call.duration_ms,
        request: RequestRecord {
            method: text::owned(call.method),
            url: call.plan.url.clone(),
            headers: copy_pairs(&call.plan.request_headers),
            body: req_body,
            body_encoding: req_encoding,
        },
        response: ResponseRecord {
            status: call.response.status,
            headers: record_headers(&call.response.headers),
            body: resp_body,
            body_encoding: resp_encoding,
        },
    }
}

/// Whether a recorder handed out the next number, and is else as it was.
pub open spec fn is_one_further(before: Recorder, after: Recorder) -> bool {
    &&& after.last_number() == before.last_number() + 1
    &&& after.dir() == before.dir()
    &&& after.count() == before.count()
    &&& after.seen() == before.seen()
    &&& after.began() == before.began()
}

/// Whether this is what is to be kept of an exchange under the given number.
pub open spec fn is_kept(r: Recorded, call: CallData, number: nat) -> bool {
    &&& r.snapshot.id@ == store::id_text(number)
    &&& clock::is_rfc3339_utc(r.snapshot.recorded_at@)
    &&& is_record_of(
        r.snapshot,
        call.method@,
        call.plan.origin@,
        call.plan.url@,
        snapshot::header_texts(call.plan.request_headers@),
        call.req_body@,
        call.response@,
        call.duration_ms,
    )
    &&& r.file@ == store::relative_path_of(r.snapshot)
    &&& text::texts(r.downloads@) == downloads_of(call.response@, call.plan.origin@)
    &&& match r.asset {
        Some(a) => download::is_static_type(content_type_of(call.response@)) && a.origin@
            == call.plan.origin@ && a.path@ == rewrite::path_of_url(call.plan.url@)
            && a.content_type@ == content_type_of(call.response@),
        None => !download::is_static_type(content_type_of(call.response@)),
    }
}

/// Keeps an exchange, if its plan says so: where the filter does not let its upstream through,
/// and where all numbers have been handed out, nothing is kept, no resource is fetched, and the
/// recorder stays as it is.
pub fn keep_exchange(recorder: &mut Recorder, call: &CallData<'_>) -> (r: Option<Recorded>)
    ensures
        match r {
            Some(k) => call.plan.record && old(recorder).last_number() < u64::MAX
                && is_one_further(*old(recorder), *final(recorder)) && is_kept(
                k,
                *call,
                final(recorder).last_number(),
            ),
            None => (!call.plan.record || old(recorder).last_number() == u64::MAX)
                && *final(recorder) == *old(recorder),
        },
{
    if !call.plan.record || recorder.is_exhausted() {
        return None;
    }
    proof {
        store::lemma_last_number(*recorder);
    }
    Some(record_response(recorder, call))
}

/// Works out what is to be kept of an exchange. What was recorded can be replayed: without
/// rewriting, the replayed answer has the status and the body that the upstream sent.
pub fn record_response(recorder: &mut Recorder, call: &CallData<'_>) -> (r: Recorded)
    requires
        old(recorder).last_number() < u64::MAX,
    ensures
        is_one_further(*old(recorder), *final(recorder)),
        is_kept(r, *call, final(recorder).last_number()),
        forall|path: Seq<char>|
            {
                let answer = #[trigger] replay::snapshot_reply(
                    r.snapshot,
                    path,
                    None,
                    rewrite::Rule::Keep,
                );
                answer.status == call.response.status && answer.body == call.response.body@
            },
{
    let id = recorder.next_id();
    let snapshot = make_snapshot(call, id, clock::now_rfc3339());
    let file = store::snapshot_path(&snapshot);
    let content_type = http::read_header(&call.response.headers, "content-type");
    let downloads = match text::utf8(&call.response.body) {
        Some(s) => download::referenced_resources(s, &content_type, &call.plan.origin),
        None => {
            let none: Vec<String> = Vec::new();
            assert(text::texts(none@) =~= Seq::<Seq<char>>::empty());
            none
        },
    };
    let asset = if download::is_static_asset_type(&content_type) {
        Some(
            AssetPlace {
                origin: call.plan.origin.clone(),
                path: rewrite::url_path(&call.plan.url),
                content_type,
            },
        )
    } else {
        None
    };
    Recorded { snapshot, file, downloads, asset }
}

// ---------------------------------------------------------------------------
// Laws
// ---------------------------------------------------------------------------

/// How many headers of a list have a name in lower case.
pub open spec fn count_named(headers: Seq<http::Header>, name: Seq<char>) -> nat
    decreases headers.len(),
{
    if headers.len() == 0 {
        0
    } else {
        count_named(headers.drop_last(), name) + if text::lowered(headers.last().0) == name {
            1nat
        } else {
            0nat
        }
    }
}

/// One more header counts where it has the name.
proof fn lemma_count_push(headers: Seq<http::Header>, h: http::Header, name: Seq<char>)
    ensures
        count_named(headers.push(h), name) == count_named(headers, name) + if text::lowered(h.0)
            == name {
            1nat
        } else {
            0nat
        },
{
    assert(headers.push(h).drop_last() =~= headers);
}

/// None of the headers that are passed on has a name that is dropped.
proof fn lemma_passed_on(headers: Seq<http::Header>, name: Seq<char>)
    requires
        text::lowered(name) == name,
        is_dropped(name),
    ensures
        count_named(passed_on(headers), name) == 0,
    decreases headers.len(),
{
    if headers.len() > 0 {
        lemma_passed_on(headers.drop_last(), name);
        if !is_dropped(headers.last().0) {
            lemma_count_push(passed_on(headers.drop_last()), headers.last(), name);
        }
    }
}

/// The names of the headers that are set anew are in lower case, and different.
proof fn lemma_set_names()
    ensures
        text::lowered("host"@) == "host"@,
        text::lowered("accept-encoding"@) == "accept-encoding"@,
        text::lowered("referer"@) == "referer"@,
        "host"@ != "accept-encoding"@,
        "host"@ != "referer"@,
        "accept-encoding"@ != "referer"@,
{
    reveal_strlit("host");
    reveal_strlit("accept-encoding");
    reveal_strlit("referer");
    assert(text::lowered("host"@) =~= "host"@);
    assert(text::lowered("accept-encoding"@) =~= "accept-encoding"@);
    assert(text::lowered("referer"@) =~= "referer"@);
    assert("host"@.len() == 4);
    assert("accept-encoding"@.len() == 15);
    assert("referer"@.len() == 7);
}

/// The upstream gets exactly one host, that of the target, and is asked exactly once for an
/// answer without compression.
pub proof fn law_one_host_is_forwarded(
    headers: Seq<http::Header>,
    method: Seq<char>,
    t: http_util::Target,
)
    ensures
        count_named(forwarded_headers(headers, method, t), "host"@) == 1,
        count_named(forwarded_headers(headers, method, t), "accept-encoding"@) == 1,
        forwarded_headers(headers, method, t).contains(http::text_header("host"@, t.authority)),
        forwarded_headers(headers, method, t).contains(
            http::text_header("accept-encoding"@, "identity"@),
        ),
{
    lemma_set_names();
    lemma_passed_on(headers, "host"@);
    lemma_passed_on(headers, "accept-encoding"@);
    let kept = passed_on(headers);
    let host = http::text_header("host"@, t.authority);
    let encoding = http::text_header("accept-encoding"@, "identity"@);
    let referer = http::text_header("referer"@, http_util::origin_text(t) + "/"@);
    lemma_count_push(kept, host, "host"@);
    lemma_count_push(kept, host, "accept-encoding"@);
    lemma_count_push(kept.push(host), encoding, "host"@);
    lemma_count_push(kept.push(host), encoding, "accept-encoding"@);
    lemma_count_push(kept.push(host).push(encoding), referer, "host"@);
    lemma_count_push(kept.push(host).push(encoding), referer, "accept-encoding"@);
    let all = forwarded_headers(headers, method, t);
    assert(all[kept.len() as int] == host);
    assert(all[kept.len() as int + 1] == encoding);
}

/// What the client said of its page is passed on as it was: no second referer is added.
pub proof fn law_referer_is_kept(
    headers: Seq<http::Header>,
    method: Seq<char>,
    t: http_util::Target,
)
    requires
        http::header_value(headers, "referer"@) is Some,
    ensures
        forwarded_headers(headers, method, t) == passed_on(headers).push(
            http::text_header("host"@, t.authority),
        ).push(http::text_header("accept-encoding"@, "identity"@)),
{
}

/// A request in absolute form is answered as the upstream answered, where rewriting is not
/// switched on: the same status and body, and the same headers but for those of one hop.
pub proof fn law_absolute_form_is_answered_as_it_came(up: http::Reply)
    ensures
        returned_reply(up, None, false).status == up.status,
        returned_reply(up, None, false).body == up.body,
        forall|i: int|
            0 <= i < returned_reply(up, None, false).headers.len() ==> up.headers.contains(
                #[trigger] returned_reply(up, None, false).headers[i],
            ),
{
    lemma_returned_headers(up.headers);
}

/// Without a prefix, every answered header came from the upstream.
proof fn lemma_returned_headers(headers: Seq<http::Header>)
    ensures
        forall|i: int|
            0 <= i < returned_headers(headers, None).len() ==> headers.contains(
                #[trigger] returned_headers(headers, None)[i],
            ),
    decreases headers.len(),
{
    if headers.len() > 0 {
        let front = headers.drop_last();
        let all = returned_headers(headers, None);
        let some = returned_headers(front, None);
        lemma_returned_headers(front);
        assert forall|i: int| 0 <= i < all.len() implies headers.contains(#[trigger] all[i]) by {
            if i < some.len() {
                assert(all[i] == some[i]);
                let j = choose|j: int| 0 <= j < front.len() && front[j] == some[i];
                assert(headers[j] == some[i]);
            } else {
                assert(headers[headers.len() - 1] == all[i]);
            }
        }
    }
}

/// No answer carries a header that concerns one hop only, nor the upstream's length.
pub proof fn law_hop_headers_are_not_returned(
    headers: Seq<http::Header>,
    prefix: Option<replay::Through>,
)
    ensures
        forall|i: int|
            0 <= i < returned_headers(headers, prefix).len() ==> !replay::is_left_out(
                (#[trigger] returned_headers(headers, prefix)[i]).0,
            ),
    decreases headers.len(),
{
    if headers.len() > 0 {
        let all = returned_headers(headers, prefix);
        let some = returned_headers(headers.drop_last(), prefix);
        law_hop_headers_are_not_returned(headers.drop_last(), prefix);
        assert forall|i: int| 0 <= i < all.len() implies !replay::is_left_out(
            (#[trigger] all[i]).0,
        ) by {
            if i < some.len() {
                assert(all[i] == some[i]);
            }
        }
    }
}

/// A header value that is UTF-8 survives the snapshot: replayed, it has the bytes that came.
pub proof fn law_header_value_survives(h: http::Header)
    requires
        vstd::utf8::valid_utf8(h.1),
    ensures
        http::text_header(recorded_pair(h).0, recorded_pair(h).1) == h,
{
    vstd::utf8::decode_utf8_encode_utf8(h.1);
}

/// What was recorded for a request is found when it is made again, in absolute form and behind a
/// prefix: a snapshot with the request's method, path and host answers it.
pub proof fn law_recorded_exchange_is_found(
    snaps: Seq<Snapshot>,
    k: int,
    method: Seq<char>,
    t: http_util::Target,
    request_headers: snapshot::HeaderTexts,
    req_body: Seq<u8>,
    up: http::Reply,
    duration_ms: u64,
)
    requires
        0 <= k < snaps.len(),
        is_supported(t.scheme),
        is_record_of(
            snaps[k],
            method,
            http_util::origin_text(t),
            http_util::url_text(t),
            request_headers,
            req_body,
            up,
            duration_ms,
        ),
    ensures
        replay::matching(
            snaps,
            method,
            replay::asked_path(Some(t), Seq::empty()),
            replay::asked_host(Some(t), Seq::empty()),
        ) matches Some(i) && 0 <= i < snaps.len() && replay::answers(
            snaps[i],
            method,
            replay::asked_path(Some(t), Seq::empty()),
            Some(t.authority),
        ),
{
    lemma_supported(t.scheme);
    replay::law_recorded_request_is_found(snaps, k, t, t, method);
}

/// A scheme that can be forwarded is the name of one.
proof fn lemma_supported(scheme: Seq<char>)
    requires
        is_supported(scheme),
    ensures
        http_util::is_scheme(scheme),
{
    reveal_strlit("http");
    reveal_strlit("https");
    assert(text::lowered("http"@) =~= "http"@);
    assert(text::lowered("https"@) =~= "https"@);
}

/// What was recorded last for a request is what is answered when it is made again, whatever its
/// query, in absolute form and behind a prefix: with the recorded status and, where nothing is
/// rewritten, with the body that the upstream sent.
pub proof fn law_latest_exchange_is_replayed(
    snaps: Seq<Snapshot>,
    index: Seq<download::Entry>,
    rule: rewrite::Rule,
    k: int,
    method: Seq<char>,
    t: http_util::Target,
    request_headers: snapshot::HeaderTexts,
    req_body: Seq<u8>,
    up: http::Reply,
    duration_ms: u64,
    uri: http_util::UriParts,
    asked: http_util::Target,
    host: Seq<char>,
)
    requires
        0 <= k < snaps.len(),
        is_supported(t.scheme),
        is_record_of(
            snaps[k],
            method,
            http_util::origin_text(t),
            http_util::url_text(t),
            request_headers,
            req_body,
            up,
            duration_ms,
        ),
        http_util::proxy_target(uri) == Some(asked),
        asked.authority == t.authority,
        rewrite::path_of_url(http_util::url_text(asked)) == rewrite::path_of_url(
            http_util::url_text(t),
        ),
        forall|j: int|
            0 <= j < snaps.len() && j != k && replay::answers(
                #[trigger] snaps[j],
                method,
                rewrite::path_of_url(http_util::url_text(t)),
                Some(t.authority),
            ) ==> order::text_le(snaps[j].id@, snaps[k].id@) && snaps[j].id@ != snaps[k].id@,
    ensures
        replay::replay_action(snaps, index, rule, method, uri, host) == replay::Action::Respond(
            replay::snapshot_reply(
                snaps[k],
                rewrite::path_of_url(http_util::url_text(t)),
                replay::through_of(Some(asked), host),
                rule,
            ),
        ),
        replay::replay_action(snaps, index, rule, method, uri, host) matches replay::Action::Respond(
            r,
        ) && r.status == up.status && (rule is Keep && replay::through_of(Some(asked), host) is None
            ==> r.body == up.body),
{
    let path = rewrite::path_of_url(http_util::url_text(t));
    lemma_supported(t.scheme);
    replay::lemma_host_of_origin(t.scheme, t.authority);
    replay::law_latest_is_largest(snaps, method, path, Some(t.authority));
    let i = replay::latest(snaps, method, path, Some(t.authority));
    assert(replay::answers(snaps[k], method, path, Some(t.authority)));
    assert(i is Some);
    if i->0 != k {
        order::lemma_text_le_antisymmetric(snaps[i->0].id@, snaps[k].id@);
    }
}

/// A filter only decides whether an exchange is recorded: under two filters a request is
/// forwarded in the same way, and an answer of the upstream is returned in the same way.
pub proof fn law_filter_only_decides_recording(
    p: ForwardPlan,
    q: ForwardPlan,
    t: http_util::Target,
    method: Seq<char>,
    headers: Seq<http::Header>,
    p_hosts: Seq<Seq<char>>,
    p_patterns: Seq<Seq<char>>,
    q_hosts: Seq<Seq<char>>,
    q_patterns: Seq<Seq<char>>,
    up: http::Reply,
    rewrite_on_record: bool,
)
    requires
        is_plan_for(p, t, method, headers, p_hosts, p_patterns),
        is_plan_for(q, t, method, headers, q_hosts, q_patterns),
    ensures
        p.target@ == q.target@,
        p.origin@ == q.origin@,
        p.url@ == q.url@,
        http::header_views(p.headers@) == http::header_views(q.headers@),
        snapshot::header_texts(p.request_headers@) == snapshot::header_texts(q.request_headers@),
        p.timeout_secs == q.timeout_secs,
        p.retryable == q.retryable,
        returned_reply(up, replay::opt_through(p.prefix), rewrite_on_record) == returned_reply(
            up,
            replay::opt_through(q.prefix),
            rewrite_on_record,
        ),
        p.record == config::lets_through(p_hosts, p_patterns, t.authority),
        q.record == config::lets_through(q_hosts, q_patterns, t.authority),
{
}

/// The headers that are not passed on are those of the connection, the host and the wish for
/// compression.
proof fn lemma_set_anew(name: Seq<char>, list: Seq<Seq<char>>)
    requires
        list == seq![
            "connection"@,
            "keep-alive"@,
            "proxy-authenticate"@,
            "proxy-authorization"@,
            "te"@,
            "trailer"@,
            "transfer-encoding"@,
            "upgrade"@,
            "host"@,
            "accept-encoding"@,
        ],
    ensures
        list.contains(text::lowered(name)) == is_dropped(name),
{
    let low = text::lowered(name);
    assert(list[0] == "connection"@ && list[1] == "keep-alive"@);
    assert(list[2] == "proxy-authenticate"@ && list[3] == "proxy-authorization"@);
    assert(list[4] == "te"@ && list[5] == "trailer"@);
    assert(list[6] == "transfer-encoding"@ && list[7] == "upgrade"@);
    assert(list[8] == "host"@ && list[9] == "accept-encoding"@);
    if list.contains(low) {
        let i = choose|i: int| 0 <= i < list.len() && list[i] == low;
        assert(list[i] == low);
    }
}

/// What is passed on are the headers that are to be kept.
proof fn lemma_passed_on_is_filter(headers: Seq<http::Header>, keep: spec_fn(http::Header) -> bool)
    requires
        forall|h: http::Header| #[trigger] keep(h) == !is_dropped(h.0),
    ensures
        passed_on(headers) == headers.filter(keep),
    decreases headers.len(),
{
    reveal(Seq::filter);
    if headers.len() > 0 {
        lemma_passed_on_is_filter(headers.drop_last(), keep);
        assert(keep(headers.last()) == !is_dropped(headers.last().0));
    } else {
        assert(passed_on(headers) =~= headers.filter(keep));
    }
}

/// Every header of the client reaches the upstream with its name and value, in the same order and
/// as often as it came, but for those that are set anew: the host of the target, and the wish for
/// an answer without compression. Nothing else is added but a referer.
pub proof fn law_client_headers_are_forwarded(
    headers: Seq<http::Header>,
    method: Seq<char>,
    t: http_util::Target,
)
    ensures
        ({
            let anew = seq![
                "connection"@,
                "keep-alive"@,
                "proxy-authenticate"@,
                "proxy-authorization"@,
                "te"@,
                "trailer"@,
                "transfer-encoding"@,
                "upgrade"@,
                "host"@,
                "accept-encoding"@,
            ];
            let own = headers.filter(|h: http::Header| !anew.contains(text::lowered(h.0)));
            let n = own.len() as int;
            let all = forwarded_headers(headers, method, t);
            &&& all.take(n) == own
            &&& all[n] == ("host"@, vstd::utf8::encode_utf8(t.authority))
            &&& all[n + 1] == ("accept-encoding"@, vstd::utf8::encode_utf8("identity"@))
            &&& all.len() == n + 2 || all.len() == n + 3 && all[n + 2] == (
                "referer"@,
                vstd::utf8::encode_utf8(t.scheme + "://"@ + t.authority + "/"@),
            )
        }),
{
    let anew = seq![
        "connection"@,
        "keep-alive"@,
        "proxy-authenticate"@,
        "proxy-authorization"@,
        "te"@,
        "trailer"@,
        "transfer-encoding"@,
        "upgrade"@,
        "host"@,
        "accept-encoding"@,
    ];
    let keep = |h: http::Header| !anew.contains(text::lowered(h.0));
    assert forall|h: http::Header| #[trigger] keep(h) == !is_dropped(h.0) by {
        lemma_set_anew(h.0, anew);
    }
    lemma_passed_on_is_filter(headers, keep);
    let own = passed_on(headers);
    let all = forwarded_headers(headers, method, t);
    assert(all.take(own.len() as int) =~= own);
}

/// A header of the client that is not set anew is among those that reach the upstream.
pub proof fn law_a_client_header_is_forwarded(
    headers: Seq<http::Header>,
    method: Seq<char>,
    t: http_util::Target,
    i: int,
)
    requires
        0 <= i < headers.len(),
        !seq![
            "connection"@,
            "keep-alive"@,
            "proxy-authenticate"@,
            "proxy-authorization"@,
            "te"@,
            "trailer"@,
            "transfer-encoding"@,
            "upgrade"@,
            "host"@,
            "accept-encoding"@,
        ].contains(text::lowered(headers[i].0)),
    ensures
        forwarded_headers(headers, method, t).contains(headers[i]),
{
    lemma_set_anew(
        headers[i].0,
        seq![
            "connection"@,
            "keep-alive"@,
            "proxy-authenticate"@,
            "proxy-authorization"@,
            "te"@,
            "trailer"@,
            "transfer-encoding"@,
            "upgrade"@,
            "host"@,
            "accept-encoding"@,
        ],
    );
    lemma_passed_on_holds(headers, i);
    let own = passed_on(headers);
    let k = choose|k: int| 0 <= k < own.len() && own[k] == headers[i];
    assert(forwarded_headers(headers, method, t)[k] == headers[i]);
}

/// A header that is not set anew is passed on.
proof fn lemma_passed_on_holds(headers: Seq<http::Header>, i: int)
    requires
        0 <= i < headers.len(),
        !is_dropped(headers[i].0),
    ensures
        passed_on(headers).contains(headers[i]),
    decreases headers.len(),
{
    let all = passed_on(headers);
    if i < headers.len() - 1 {
        lemma_passed_on_holds(headers.drop_last(), i);
        let front = passed_on(headers.drop_last());
        let k = choose|k: int| 0 <= k < front.len() && front[k] == headers[i];
        assert(all[k] == headers[i]);
    } else {
        assert(all[all.len() - 1] == headers[i]);
    }
}

/// A referer is added exactly where the client names none, only reads, and asks for what looks
/// like a static resource. The upstream has two minutes for such a resource, and half a minute for
/// anything else.
pub proof fn law_resources_are_asked_for_patiently(
    headers: Seq<http::Header>,
    method: Seq<char>,
    t: http_util::Target,
)
    ensures
        ({
            let anew = seq![
                "connection"@,
                "keep-alive"@,
                "proxy-authenticate"@,
                "proxy-authorization"@,
                "te"@,
                "trailer"@,
                "transfer-encoding"@,
                "upgrade"@,
                "host"@,
                "accept-encoding"@,
            ];
            let own = headers.filter(
                |h: http::Header| !anew.contains(text::lowered(h.0)),
            ).len();
            let named = exists|i: int|
                0 <= i < headers.len() && text::lowered((#[trigger] headers[i]).0) == "referer"@;
            let reads = method == "GET"@ || method == "HEAD"@;
            let resource = download::is_resource_url(t.path_and_query);
            &&& forwarded_headers(headers, method, t).len() == own + 3 <==> !named && reads
                && resource
            &&& resource ==> seconds_for(t) == 120
            &&& !resource ==> seconds_for(t) == 30
        }),
{
    let anew = seq![
        "connection"@,
        "keep-alive"@,
        "proxy-authenticate"@,
        "proxy-authorization"@,
        "te"@,
        "trailer"@,
        "transfer-encoding"@,
        "upgrade"@,
        "host"@,
        "accept-encoding"@,
    ];
    let keep = |h: http::Header| !anew.contains(text::lowered(h.0));
    assert forall|h: http::Header| #[trigger] keep(h) == !is_dropped(h.0) by {
        lemma_set_anew(h.0, anew);
    }
    lemma_passed_on_is_filter(headers, keep);
    http::law_first_header_counts(headers, "referer"@);
}

/// A plan leads to the target and nowhere else, and says of the request what came: its URL is the
/// target's scheme, authority, path and query, one that only reads may be repeated, and the links
/// of a prefixed request lead back to the address under which the client sees `tape`.
pub proof fn law_plan_leads_to_the_target(
    p: ForwardPlan,
    t: http_util::Target,
    method: Seq<char>,
    headers: Seq<http::Header>,
    hosts: Seq<Seq<char>>,
    patterns: Seq<Seq<char>>,
)
    requires
        is_plan_for(p, t, method, headers, hosts, patterns),
    ensures
        p.url@ == t.scheme + "://"@ + t.authority + t.path_and_query,
        p.origin@ == t.scheme + "://"@ + t.authority,
        p.target@ == t,
        p.retryable <==> method == "GET"@ || method == "HEAD"@,
        http::header_views(p.headers@) == forwarded_headers(headers, method, t),
        p.request_headers@.len() == headers.len(),
        forall|i: int|
            0 <= i < headers.len() ==> (#[trigger] p.request_headers@[i]).0@ == headers[i].0,
        forall|i: int|
            0 <= i < headers.len() && vstd::utf8::valid_utf8(headers[i].1) ==> (
            #[trigger] p.request_headers@[i]).1@ == vstd::utf8::decode_utf8(headers[i].1),
        p.record <==> config::lets_through(hosts, patterns, t.authority),
        p.timeout_secs == 120 || p.timeout_secs == 30,
        match p.prefix {
            Some(c) => t.prefix && c.base@ == "http://"@ + http::header_text(headers, "host"@)
                && c.scheme@ == t.scheme && c.origin@ == t.authority,
            None => !t.prefix || http::header_text(headers, "host"@).len() == 0,
        },
{
    assert(snapshot::header_texts(p.request_headers@).len() == p.request_headers@.len());
    assert forall|i: int| 0 <= i < headers.len() implies (#[trigger] p.request_headers@[i]).0@
        == headers[i].0 by {
        assert(snapshot::header_texts(p.request_headers@)[i] == recorded_pairs(headers)[i]);
    }
    assert forall|i: int|
        0 <= i < headers.len() && vstd::utf8::valid_utf8(headers[i].1) implies (
    #[trigger] p.request_headers@[i]).1@ == vstd::utf8::decode_utf8(headers[i].1) by {
        assert(snapshot::header_texts(p.request_headers@)[i] == recorded_pairs(headers)[i]);
    }
}

/// A request that reads is sent a second time after its first failure and not a third time; any
/// other is sent once.
pub proof fn law_attempts(retryable: bool, failed: u32)
    ensures
        failed < 2 ==> sends_again(retryable, failed) == retryable,
        failed >= 2 ==> !sends_again(retryable, failed),
        sends_again(retryable, failed) ==> retryable,
{
}

/// The headers that are left out of an answer are those of the connection, and the length.
pub proof fn lemma_of_connection(name: Seq<char>, list: Seq<Seq<char>>)
    requires
        list == seq![
            "connection"@,
            "keep-alive"@,
            "proxy-authenticate"@,
            "proxy-authorization"@,
            "te"@,
            "trailer"@,
            "transfer-encoding"@,
            "upgrade"@,
            "content-length"@,
        ],
    ensures
        list.contains(text::lowered(name)) == replay::is_left_out(name),
{
    let low = text::lowered(name);
    assert(list[0] == "connection"@ && list[1] == "keep-alive"@);
    assert(list[2] == "proxy-authenticate"@ && list[3] == "proxy-authorization"@);
    assert(list[4] == "te"@ && list[5] == "trailer"@);
    assert(list[6] == "transfer-encoding"@ && list[7] == "upgrade"@);
    assert(list[8] == "content-length"@);
    if list.contains(low) {
        let i = choose|i: int| 0 <= i < list.len() && list[i] == low;
        assert(list[i] == low);
    }
}

/// Every header of the upstream's answer reaches the client in the same order and as often as it
/// came, but for those of the connection: as it is in an answer to a request in absolute form,
/// and with a redirect that leads back in one to a prefixed request.
pub proof fn law_upstream_headers_are_returned(
    headers: Seq<http::Header>,
    prefix: Option<replay::Through>,
)
    ensures
        ({
            let of_connection = seq![
                "connection"@,
                "keep-alive"@,
                "proxy-authenticate"@,
                "proxy-authorization"@,
                "te"@,
                "trailer"@,
                "transfer-encoding"@,
                "upgrade"@,
                "content-length"@,
            ];
            let own = headers.filter(
                |h: http::Header| !of_connection.contains(text::lowered(h.0)),
            );
            let all = returned_headers(headers, prefix);
            &&& all.len() == own.len()
            &&& prefix is None ==> all == own
            &&& forall|i: int|
                0 <= i < own.len() ==> (#[trigger] all[i]).0 == own[i].0 && (text::lowered(
                    own[i].0,
                ) != "location"@ ==> all[i].1 == own[i].1)
            &&& prefix matches Some(t) ==> forall|i: int|
                0 <= i < own.len() && text::lowered((#[trigger] own[i]).0) == "location"@
                    && http::visible_text(own[i].1) is Some ==> all[i].1
                    == vstd::utf8::encode_utf8(
                    rewrite::location_rewritten(
                        http::visible_text(own[i].1)->0,
                        t.scheme,
                        t.origin,
                        t.base,
                    ),
                )
        }),
    decreases headers.len(),
{
    reveal(Seq::filter);
    let of_connection = seq![
        "connection"@,
        "keep-alive"@,
        "proxy-authenticate"@,
        "proxy-authorization"@,
        "te"@,
        "trailer"@,
        "transfer-encoding"@,
        "upgrade"@,
        "content-length"@,
    ];
    let f = |h: http::Header| !of_connection.contains(text::lowered(h.0));
    let own = headers.filter(f);
    let all = returned_headers(headers, prefix);
    if headers.len() > 0 {
        law_upstream_headers_are_returned(headers.drop_last(), prefix);
        lemma_of_connection(headers.last().0, of_connection);
        let some = returned_headers(headers.drop_last(), prefix);
        let few = headers.drop_last().filter(f);
        assert forall|i: int| 0 <= i < own.len() implies (#[trigger] all[i]).0 == own[i].0 && (
        text::lowered(own[i].0) != "location"@ ==> all[i].1 == own[i].1) by {
            if i < few.len() {
                assert(all[i] == some[i] && own[i] == few[i]);
            }
        }
        if let Some(t) = prefix {
            assert forall|i: int|
                0 <= i < own.len() && text::lowered((#[trigger] own[i]).0) == "location"@
                    && http::visible_text(own[i].1) is Some implies all[i].1
                == vstd::utf8::encode_utf8(
                rewrite::location_rewritten(
                    http::visible_text(own[i].1)->0,
                    t.scheme,
                    t.origin,
                    t.base,
                ),
            ) by {
                if i < few.len() {
                    assert(all[i] == some[i] && own[i] == few[i]);
                }
            }
        }
    }
    if prefix is None {
        assert(all =~= own);
    }
}

/// The body of an answer is the upstream's as it is, unless the request had a prefix or rewriting
/// is switched on; then its links lead back to `tape`, or become relative.
pub proof fn law_returned_body(up: http::Reply, t: replay::Through, on: bool)
    ensures
        ({
            let encoding = http::header_text(up.headers, "content-encoding"@);
            let kind = http::header_text(up.headers, "content-type"@);
            &&& returned_reply(up, None, false).body == up.body
            &&& returned_reply(up, None, true).body == rewrite::body_rewritten_for(
                rewrite::Rule::Relative,
                encoding,
                kind,
                up.body,
            )
            &&& returned_reply(up, Some(t), on).body == rewrite::body_rewritten_for(
                rewrite::Rule::Prefix { base: t.base, scheme: t.scheme, origin: t.origin },
                encoding,
                kind,
                up.body,
            )
            &&& returned_reply(up, Some(t), on).status == up.status
            &&& returned_reply(up, None, on).status == up.status
        }),
{
}

/// A failure is answered with the status that fits it, and with its reason.
pub proof fn law_failures(reason: String, secs: u64)
    ensures
        failure_reply(ForwardFailure::UnreadableBody(reason)).status == 400,
        failure_reply(ForwardFailure::InvalidRequest(reason)).status == 500,
        failure_reply(ForwardFailure::Unreachable(reason)).status == 502,
        failure_reply(ForwardFailure::Timeout(secs)).status == 504,
        failure_reply(ForwardFailure::InvalidResponse(reason)).status == 500,
        failure_reply(ForwardFailure::UnreadableBody(reason)).body == vstd::utf8::encode_utf8(
            "读取请求体失败: "@ + reason@,
        ),
        failure_reply(ForwardFailure::InvalidRequest(reason)).body == vstd::utf8::encode_utf8(
            "构造转发请求失败: "@ + reason@,
        ),
        failure_reply(ForwardFailure::Unreachable(reason)).body == vstd::utf8::encode_utf8(
            "无法连接上游 "@ + reason@,
        ),
        failure_reply(ForwardFailure::Timeout(secs)).body == vstd::utf8::encode_utf8(
            "上游响应超时（"@ + crate::number::decimal(secs as nat) + "s）"@,
        ),
        failure_reply(ForwardFailure::InvalidResponse(reason)).body == vstd::utf8::encode_utf8(
            "构造回传响应失败: "@ + reason@,
        ),
        no_target_reply().status == 400,
        forall|scheme: Seq<char>| (#[trigger] scheme_reply(scheme)).status == 501,
        forall|scheme: Seq<char>|
            (#[trigger] scheme_reply(scheme)).body == vstd::utf8::encode_utf8(
                "不支持协议 "@ + scheme + "，本工具仅支持 http/https"@,
            ),
{
}

/// A snapshot says of an exchange what it was: who was asked, how, with which headers and which
/// body, and what came back. Text stands in it as text, and header values that are UTF-8 as they
/// were.
pub proof fn law_snapshot_says_what_was_exchanged(
    s: Snapshot,
    method: Seq<char>,
    origin: Seq<char>,
    url: Seq<char>,
    request_headers: snapshot::HeaderTexts,
    req_body: Seq<u8>,
    up: http::Reply,
    duration_ms: u64,
)
    requires
        is_record_of(s, method, origin, url, request_headers, req_body, up, duration_ms),
    ensures
        s.origin@ == origin,
        s.request.method@ == method,
        s.request.url@ == url,
        s.response.status == up.status,
        s.duration_ms == duration_ms,
        snapshot::header_texts(s.request.headers@) == request_headers,
        s.response.headers@.len() == up.headers.len(),
        forall|i: int|
            0 <= i < up.headers.len() ==> (#[trigger] s.response.headers@[i]).0@
                == up.headers[i].0,
        forall|i: int|
            0 <= i < up.headers.len() && vstd::utf8::valid_utf8(up.headers[i].1) ==> (
            #[trigger] s.response.headers@[i]).1@ == vstd::utf8::decode_utf8(up.headers[i].1),
        snapshot::body_bytes(s.request.body@, s.request.body_encoding@) == req_body,
        snapshot::body_bytes(s.response.body@, s.response.body_encoding@) == up.body,
        vstd::utf8::valid_utf8(up.body) ==> s.response.body_encoding@ == "utf8"@
            && vstd::utf8::encode_utf8(s.response.body@) == up.body,
        !vstd::utf8::valid_utf8(up.body) ==> s.response.body_encoding@ == "base64"@,
        vstd::utf8::valid_utf8(req_body) ==> s.request.body_encoding@ == "utf8"@
            && vstd::utf8::encode_utf8(s.request.body@) == req_body,
        !vstd::utf8::valid_utf8(req_body) ==> s.request.body_encoding@ == "base64"@,
{
    assert(snapshot::header_texts(s.response.headers@).len() == s.response.headers@.len());
    assert forall|i: int| 0 <= i < up.headers.len() implies (#[trigger] s.response.headers@[i]).0@
        == up.headers[i].0 by {
        assert(snapshot::header_texts(s.response.headers@)[i] == recorded_pairs(up.headers)[i]);
    }
    assert forall|i: int|
        0 <= i < up.headers.len() && vstd::utf8::valid_utf8(up.headers[i].1) implies (
    #[trigger] s.response.headers@[i]).1@ == vstd::utf8::decode_utf8(up.headers[i].1) by {
        assert(snapshot::header_texts(s.response.headers@)[i] == recorded_pairs(up.headers)[i]);
    }
    if vstd::utf8::valid_utf8(up.body) {
        vstd::utf8::decode_utf8_encode_utf8(up.body);
    }
    if vstd::utf8::valid_utf8(req_body) {
        vstd::utf8::decode_utf8_encode_utf8(req_body);
    }
}

/// What is kept of an exchange has the number that was handed out, lies in the directory of its
/// upstream, and fetches what a text of the upstream refers to; an answer that is itself a static
/// resource is kept under the path of its URL.
pub proof fn law_what_is_kept(r: Recorded, call: CallData, number: nat)
    requires
        is_kept(r, call, number),
    ensures
        r.snapshot.id@ == store::id_text(number),
        r.snapshot.request.url@ == call.plan.url@,
        r.snapshot.response.status == call.response.status,
        r.file@ == "snapshots/"@ + store::origin_dir(call.plan.origin@) + "/"@
            + store::file_name_of(r.snapshot),
        !vstd::utf8::valid_utf8(call.response.body@) ==> r.downloads@.len() == 0,
        vstd::utf8::valid_utf8(call.response.body@) ==> text::texts(r.downloads@)
            == download::resources_of(
            vstd::utf8::decode_utf8(call.response.body@),
            http::header_text(http::header_views(call.response.headers@), "content-type"@),
            call.plan.origin@,
        ),
        ({
            let kind = http::header_text(
                http::header_views(call.response.headers@),
                "content-type"@,
            );
            match r.asset {
                Some(a) => download::is_static_type(kind) && a.content_type@ == kind && a.origin@
                    == call.plan.origin@ && a.path@ == rewrite::path_of_url(call.plan.url@),
                None => !download::is_static_type(kind),
            }
        }),
{
    assert(text::texts(r.downloads@).len() == r.downloads@.len());
}

/// Requests to `http` and `https` addresses are forwarded, in whatever case the scheme was written,
/// and no others.
pub proof fn law_supported_schemes(uri: http_util::UriParts, scheme: Seq<char>)
    requires
        uri.scheme == Some(scheme),
        uri.authority is Some,
    ensures
        http_util::proxy_target(uri) matches Some(t) && (is_supported(t.scheme) <==> seq![
            "http"@,
            "https"@,
        ].contains(text::lowered(scheme))),
{
    let l = seq!["http"@, "https"@];
    assert(l[0] == "http"@ && l[1] == "https"@);
}

/// A recorder that handed out a number hands out the next one then: two exchanges that are kept one
/// after the other have different ids, and neither the count nor the origins of the session change
/// until a snapshot is written.
pub proof fn law_numbers_are_handed_out_once(
    a: Recorder,
    b: Recorder,
    c: Recorder,
    first: Recorded,
    second: Recorded,
    x: CallData,
    y: CallData,
)
    requires
        is_one_further(a, b),
        is_one_further(b, c),
        is_kept(first, x, b.last_number()),
        is_kept(second, y, c.last_number()),
        c.last_number() <= u64::MAX,
    ensures
        c.last_number() == a.last_number() + 2,
        first.snapshot.id@ != second.snapshot.id@,
        c.count() == a.count(),
        c.seen() == a.seen(),
        c.dir() == a.dir(),
        c.began() == a.began(),
{
    store::law_id_has_six_digits(b.last_number());
    store::law_id_has_six_digits(c.last_number());
}

} // verus!
