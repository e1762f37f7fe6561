//! Rewriting of the links in responses, so that a client keeps talking to `tape`.
use crate::codec;
use crate::http_util;
use crate::pattern;
use crate::text;
use vstd::prelude::*;
use vstd::slice::slice_to_vec;

verus! {

/// How the links of a response are rewritten.
#[derive(Debug, PartialEq, Eq)]
pub enum RewriteRule {
    /// To paths relative to the server's root (recommended).
    Relative,
    /// To absolute addresses below `base`.
    Absolute { base: String },
    /// To addresses that lead back to `tape`: `{base}/{scheme}://{host}{:port}{path}`.
    ///
    /// `scheme` and `origin` are those of the request that is answered: a protocol-relative
    /// link `//host/path` takes the scheme, a root-relative path `/path` both.
    Prefix { base: String, scheme: String, origin: String },
    /// Not at all.
    Keep,
}

/// The model of a rewriting rule.
pub enum Rule {
    /// Relative paths.
    Relative,
    /// Absolute addresses below a base.
    Absolute { base: Seq<char> },
    /// Addresses that lead back to `tape`.
    Prefix { base: Seq<char>, scheme: Seq<char>, origin: Seq<char> },
    /// No rewriting.
    Keep,
}

impl View for RewriteRule {
    type V = Rule;

    open spec fn view(&self) -> Rule {
        match self {
            RewriteRule::Relative => Rule::Relative,
            RewriteRule::Absolute { base } => Rule::Absolute { base: base@ },
            RewriteRule::Prefix { base, scheme, origin } => Rule::Prefix {
                base: base@,
                scheme: scheme@,
                origin: origin@,
            },
            RewriteRule::Keep => Rule::Keep,
        }
    }
}

impl Clone for RewriteRule {
    fn clone(&self) -> (r: Self)
        ensures
            r@ == self@,
    {
        match self {
            RewriteRule::Relative => RewriteRule::Relative,
            RewriteRule::Absolute { base } => RewriteRule::Absolute { base: base.clone() },
            RewriteRule::Prefix { base, scheme, origin } => RewriteRule::Prefix {
                base: base.clone(),
                scheme: scheme.clone(),
                origin: origin.clone(),
            },
            RewriteRule::Keep => RewriteRule::Keep,
        }
    }
}

// ---------------------------------------------------------------------------
// Hosts
// ---------------------------------------------------------------------------

/// Whether a host is this machine.
pub open spec fn is_local(host: Seq<char>) -> bool {
    let h = text::lowered(host);
    h == "localhost"@ || h == "127.0.0.1"@ || h == "::1"@ || h == "[::1]"@ || h == "0.0.0.0"@
}

/// Whether a host only occurs in identifiers of XML namespaces and document types. Rewriting
/// these would break the document.
pub open spec fn is_namespace(host: Seq<char>) -> bool {
    text::lowered(host) == "www.w3.org"@
}

/// The host of a base address, in lower case.
pub open spec fn host_of_base(base: Seq<char>) -> Option<Seq<char>> {
    match text::cut_text(base, "://"@) {
        Some((scheme, rest)) => Some(text::lowered(text::before(rest, '/', ':'))),
        None => None,
    }
}

/// Whether a link to `host` stays as it is under the base address `base`.
pub open spec fn stays(base: Seq<char>, host: Seq<char>) -> bool {
    is_local(host) || is_namespace(host) || host_of_base(base) == Some(text::lowered(host))
}

/// Whether a host is this machine.
pub fn is_local_host(host: &[char]) -> (r: bool)
    ensures
        r == is_local(host@),
{
    let h = text::to_lower(host);
    let s = text::string_of(&h);
    text::same(&s, "localhost") || text::same(&s, "127.0.0.1") || text::same(&s, "::1")
        || text::same(&s, "[::1]") || text::same(&s, "0.0.0.0")
}

/// Whether a host only occurs in identifiers of XML namespaces and document types.
pub fn is_namespace_host(host: &[char]) -> (r: bool)
    ensures
        r == is_namespace(host@),
{
    let h = text::to_lower(host);
    let s = text::string_of(&h);
    text::same(&s, "www.w3.org")
}

/// The host of a base address, in lower case.
pub fn base_host(base: &[char]) -> (r: Option<Vec<char>>)
    ensures
        match r {
            Some(h) => host_of_base(base@) == Some(h@),
            None => host_of_base(base@) is None,
        },
{
    match text::split_once(base, "://") {
        Some((_, rest)) => {
            let end: usize = text::index_of_either(rest, '/', ':');
            Some(text::to_lower(text::take(rest, end)))
        },
        None => None,
    }
}

/// Whether a link to `host` stays as it is under the base address `base`.
fn keeps(base: &[char], host: &[char]) -> (r: bool)
    ensures
        r == stays(base@, host@),
{
    if is_local_host(host) || is_namespace_host(host) {
        return true;
    }
    match base_host(base) {
        Some(h) => {
            let low = text::to_lower(host);
            text::eq(&h, &low)
        },
        None => false,
    }
}

// ---------------------------------------------------------------------------
// What replaces a match
// ---------------------------------------------------------------------------

/// A path with query that begins at the root: a bare query gets a root before it, and an empty
/// one is the root.
pub open spec fn rooted(path: Seq<char>) -> Seq<char> {
    if path.len() > 0 && path[0] == '/' {
        path
    } else if path.len() > 0 && path[0] == '?' {
        "/"@ + path
    } else {
        "/"@
    }
}

/// A host with its port, where there is one.
pub open spec fn host_and_port(host: Seq<char>, port: Seq<char>) -> Seq<char> {
    if port.len() == 0 {
        host
    } else {
        host + ":"@ + port
    }
}

/// The address that leads to `{scheme}://{authority}{path}` through `tape`.
pub open spec fn link_through(
    base: Seq<char>,
    scheme: Seq<char>,
    authority: Seq<char>,
    path: Seq<char>,
) -> Seq<char> {
    text::without_trailing(base, '/') + "/"@ + scheme + "://"@ + authority + path
}

/// The scheme of an absolute URL, by its first group.
pub open spec fn scheme_of(group: Seq<char>) -> Seq<char> {
    if group.len() == 0 {
        "http"@
    } else {
        group
    }
}

/// What replaces an absolute URL. The groups are the whole URL, scheme, host, port, and path
/// with query.
pub open spec fn url_replaced(rule: Rule, groups: Seq<Seq<char>>) -> Seq<char> {
    let whole = pattern::at(groups, 0);
    let host = pattern::at(groups, 2);
    let path = rooted(pattern::at(groups, 4));
    match rule {
        Rule::Relative => if is_local(host) || is_namespace(host) {
            whole
        } else {
            path
        },
        Rule::Absolute { base } => if stays(base, host) {
            whole
        } else {
            text::without_trailing(base, '/') + "/"@ + text::without_leading(path, '/')
        },
        Rule::Prefix { base, scheme, origin } => if stays(base, host) {
            whole
        } else {
            link_through(
                base,
                scheme_of(pattern::at(groups, 1)),
                host_and_port(host, pattern::at(groups, 3)),
                path,
            )
        },
        Rule::Keep => whole,
    }
}

/// What replaces a protocol-relative URL. The groups are the whole match, the character before
/// the URL, host, port, and path with query.
pub open spec fn protocol_relative_replaced(rule: Rule, groups: Seq<Seq<char>>) -> Seq<char> {
    let whole = pattern::at(groups, 0);
    let host = pattern::at(groups, 2);
    match rule {
        Rule::Prefix { base, scheme, origin } => if stays(base, host) {
            whole
        } else {
            pattern::at(groups, 1) + link_through(
                base,
                scheme,
                host_and_port(host, pattern::at(groups, 3)),
                rooted(pattern::at(groups, 4)),
            )
        },
        _ => whole,
    }
}

/// What replaces a root-relative path in an HTML attribute. The groups are the whole match, what
/// stands before the path, the path, and the closing quote.
pub open spec fn html_attribute_replaced(rule: Rule, groups: Seq<Seq<char>>) -> Seq<char> {
    let whole = pattern::at(groups, 0);
    let path = pattern::at(groups, 2);
    match rule {
        Rule::Prefix { base, scheme, origin } => if "//"@.is_prefix_of(path) {
            whole
        } else {
            pattern::at(groups, 1) + link_through(base, scheme, origin, path) + pattern::at(
                groups,
                3,
            )
        },
        _ => whole,
    }
}

/// What replaces a root-relative path in a CSS `url(..)`. The groups are the whole match, what
/// stands before the path, the opening quote, and the path.
pub open spec fn css_url_replaced(rule: Rule, groups: Seq<Seq<char>>) -> Seq<char> {
    let whole = pattern::at(groups, 0);
    let path = pattern::at(groups, 3);
    match rule {
        Rule::Prefix { base, scheme, origin } => if "//"@.is_prefix_of(path) {
            whole
        } else {
            pattern::at(groups, 1) + pattern::at(groups, 2) + link_through(
                base,
                scheme,
                origin,
                path,
            )
        },
        _ => whole,
    }
}

/// Makes a path with query begin at the root.
fn root_path(path: &[char]) -> (r: Vec<char>)
    ensures
        r@ == rooted(path@),
{
    if path.len() > 0 && path[0] == '/' {
        text::vec_of(path)
    } else {
        let mut out = text::chars_of("/");
        if path.len() > 0 && path[0] == '?' {
            text::push_all(&mut out, path);
        }
        out
    }
}

/// Writes a host with its port.
fn join_port(host: &[char], port: &[char]) -> (r: Vec<char>)
    ensures
        r@ == host_and_port(host@, port@),
{
    let mut out = text::vec_of(host);
    if port.len() > 0 {
        text::push_str(&mut out, ":");
        text::push_all(&mut out, port);
    }
    out
}

/// Writes the address that leads to `{scheme}://{authority}{path}` through `tape`.
fn link(base: &[char], scheme: &[char], authority: &[char], path: &[char]) -> (r: Vec<char>)
    ensures
        r@ == link_through(base@, scheme@, authority@, path@),
{
    let mut out = text::vec_of(text::trim_trailing(base, '/'));
    text::push_str(&mut out, "/");
    text::push_all(&mut out, scheme);
    text::push_str(&mut out, "://");
    text::push_all(&mut out, authority);
    text::push_all(&mut out, path);
    out
}

/// Replaces an absolute URL by its groups.
pub fn replaced(rule: &RewriteRule, groups: &[Vec<char>]) -> (r: Vec<char>)
    ensures
        r@ == url_replaced(rule@, text::pieces(groups@)),
{
    let whole = pattern::group_at(groups, 0);
    let host = pattern::group_at(groups, 2);
    let path = root_path(&pattern::group_at(groups, 4));
    match rule {
        RewriteRule::Relative => {
            if is_local_host(&host) || is_namespace_host(&host) {
                whole
            } else {
                path
            }
        },
        RewriteRule::Absolute { base } => {
            let base = text::chars_of(base);
            if keeps(&base, &host) {
                return whole;
            }
            let mut out = text::vec_of(text::trim_trailing(&base, '/'));
            text::push_str(&mut out, "/");
            text::push_all(&mut out, text::trim_leading(&path, '/'));
            out
        },
        RewriteRule::Prefix { base, scheme: _, origin: _ } => {
            let base = text::chars_of(base);
            if keeps(&base, &host) {
                return whole;
            }
            let mut scheme = pattern::group_at(groups, 1);
            if scheme.len() == 0 {
                scheme = text::chars_of("http");
            }
            let authority = join_port(&host, &pattern::group_at(groups, 3));
            link(&base, &scheme, &authority, &path)
        },
        RewriteRule::Keep => whole,
    }
}

/// Replaces a protocol-relative URL by its groups.
pub fn replaced_protocol_relative(rule: &RewriteRule, groups: &[Vec<char>]) -> (r: Vec<char>)
    ensures
        r@ == protocol_relative_replaced(rule@, text::pieces(groups@)),
{
    let whole = pattern::group_at(groups, 0);
    let host = pattern::group_at(groups, 2);
    match rule {
        RewriteRule::Prefix { base, scheme, origin: _ } => {
            let base = text::chars_of(base);
            if keeps(&base, &host) {
                return whole;
            }
            let authority = join_port(&host, &pattern::group_at(groups, 3));
            let path = root_path(&pattern::group_at(groups, 4));
            let mut out = pattern::group_at(groups, 1);
            text::push_all(&mut out, &link(&base, &text::chars_of(scheme), &authority, &path));
            out
        },
        _ => whole,
    }
}

/// Replaces a root-relative path in an HTML attribute by its groups.
pub fn replaced_html_attr(rule: &RewriteRule, groups: &[Vec<char>]) -> (r: Vec<char>)
    ensures
        r@ == html_attribute_replaced(rule@, text::pieces(groups@)),
{
    let whole = pattern::group_at(groups, 0);
    let path = pattern::group_at(groups, 2);
    match rule {
        RewriteRule::Prefix { base, scheme, origin } => {
            if text::starts_with(&path, &text::chars_of("//")) {
                return whole;
            }
            let mut out = pattern::group_at(groups, 1);
            text::push_all(
                &mut out,
                &link(
                    &text::chars_of(base),
                    &text::chars_of(scheme),
                    &text::chars_of(origin),
                    &path,
                ),
            );
            text::push_all(&mut out, &pattern::group_at(groups, 3));
            out
        },
        _ => whole,
    }
}

/// Replaces a root-relative path in a CSS `url(..)` by its groups.
pub fn replaced_css_url(rule: &RewriteRule, groups: &[Vec<char>]) -> (r: Vec<char>)
    ensures
        r@ == css_url_replaced(rule@, text::pieces(groups@)),
{
    let whole = pattern::group_at(groups, 0);
    let path = pattern::group_at(groups, 3);
    match rule {
        RewriteRule::Prefix { base, scheme, origin } => {
            if text::starts_with(&path, &text::chars_of("//")) {
                return whole;
            }
            let mut out = pattern::group_at(groups, 1);
            text::push_all(&mut out, &pattern::group_at(groups, 2));
            text::push_all(
                &mut out,
                &link(
                    &text::chars_of(base),
                    &text::chars_of(scheme),
                    &text::chars_of(origin),
                    &path,
                ),
            );
            out
        },
        _ => whole,
    }
}

// ---------------------------------------------------------------------------
// Passes over a text
// ---------------------------------------------------------------------------

/// One pass of rewriting: which links it looks for.
#[derive(Clone, Copy, PartialEq, Eq, Structural)]
pub enum Pass {
    /// Absolute URLs.
    Url,
    /// Protocol-relative URLs.
    ProtocolRelative,
    /// Root-relative paths in HTML attributes.
    HtmlAttribute,
    /// Root-relative paths in CSS.
    CssUrl,
}

/// The pattern that a pass looks for.
pub open spec fn pass_pattern(pass: Pass) -> Seq<char> {
    match pass {
        Pass::Url => pattern::URL@,
        Pass::ProtocolRelative => pattern::PROTOCOL_RELATIVE@,
        Pass::HtmlAttribute => pattern::HTML_ATTRIBUTE@,
        Pass::CssUrl => pattern::CSS_URL@,
    }
}

/// What a pass puts in the place of a match.
pub open spec fn pass_replaced(pass: Pass, rule: Rule, groups: Seq<Seq<char>>) -> Seq<char> {
    match pass {
        Pass::Url => url_replaced(rule, groups),
        Pass::ProtocolRelative => protocol_relative_replaced(rule, groups),
        Pass::HtmlAttribute => html_attribute_replaced(rule, groups),
        Pass::CssUrl => css_url_replaced(rule, groups),
    }
}

/// The text from byte `from` on, with match `i` and those behind it replaced.
pub open spec fn replaced_from(
    pass: Pass,
    rule: Rule,
    s: Seq<char>,
    ms: Seq<Seq<pattern::Group>>,
    i: int,
    from: int,
) -> Seq<char>
    decreases ms.len() - i,
{
    if 0 <= i < ms.len() {
        pattern::cut(s, from, pattern::start(ms[i][0])) + pass_replaced(
            pass,
            rule,
            pattern::group_texts(s, ms[i]),
        ) + replaced_from(pass, rule, s, ms, i + 1, pattern::end(ms[i][0]))
    } else {
        pattern::cut(s, from, vstd::utf8::encode_utf8(s).len() as int)
    }
}

/// The text after a pass: every match replaced, and what lies between them as it was.
pub open spec fn passed(pass: Pass, rule: Rule, s: Seq<char>) -> Seq<char> {
    replaced_from(pass, rule, s, pattern::regex_captures(pass_pattern(pass), s), 0, 0)
}

/// Replaces the match with the given groups.
fn replace_match(pass: Pass, rule: &RewriteRule, groups: &[Vec<char>]) -> (r: Vec<char>)
    ensures
        r@ == pass_replaced(pass, rule@, text::pieces(groups@)),
{
    match pass {
        Pass::Url => replaced(rule, groups),
        Pass::ProtocolRelative => replaced_protocol_relative(rule, groups),
        Pass::HtmlAttribute => replaced_html_attr(rule, groups),
        Pass::CssUrl => replaced_css_url(rule, groups),
    }
}

/// Replaces the given matches in a text.
pub fn replace_matches(
    pass: Pass,
    rule: &RewriteRule,
    s: &str,
    ms: &[Vec<pattern::Group>],
) -> (r: String)
    requires
        pattern::are_matches(s@, pattern::match_views(ms@)),
    ensures
        r@ == replaced_from(pass, rule@, s@, pattern::match_views(ms@), 0, 0),
{
    let ghost views = pattern::match_views(ms@);
    let n: usize = ms.len();
    let total: usize = s.as_bytes().len();
    let mut out: Vec<char> = Vec::new();
    let mut from: usize = 0;
    let mut i: usize = 0;
    proof {
        vstd::utf8::encode_utf8_valid_utf8(s@);
        pattern::lemma_cut_whole(s@);
        assert(out@ + replaced_from(pass, rule@, s@, views, 0, 0) =~= replaced_from(
            pass,
            rule@,
            s@,
            views,
            0,
            0,
        ));
    }
    while i < n
        invariant
            i <= n == ms@.len(),
            views == pattern::match_views(ms@),
            pattern::are_matches(s@, views),
            pattern::is_span(s@, from as int, vstd::utf8::encode_utf8(s@).len() as int),
            i < n ==> from <= pattern::start(views[i as int][0]),
            replaced_from(pass, rule@, s@, views, 0, 0) == out@ + replaced_from(
                pass,
                rule@,
                s@,
                views,
                i as int,
                from as int,
            ),
        decreases n - i,
    {
        let m = &ms[i];
        assert(m@ == views[i as int]);
        assert(views[i as int][0] is Some);
        if let Some((a, b)) = m[0] {
            let ghost before = out@;
            let gap = text::chars_of(pattern::slice(s, from, a));
            text::push_all(&mut out, &gap);
            let groups = pattern::groups_of(s, m);
            let new = replace_match(pass, rule, &groups);
            text::push_all(&mut out, &new);
            proof {
                let rest = replaced_from(pass, rule@, s@, views, i + 1, b as int);
                assert(before + (gap@ + new@ + rest) =~= out@ + rest);
                if i + 1 < n {
                    assert(views[i + 1][0] is Some);
                }
            }
            from = b;
        }
        i += 1;
    }
    let tail = text::chars_of(pattern::slice(s, from, total));
    text::push_all(&mut out, &tail);
    text::string_of(&out)
}

/// Rewrites a text in one pass.
pub fn rewrite_pass(pass: Pass, rule: &RewriteRule, s: &str) -> (r: String)
    ensures
        r@ == passed(pass, rule@, s@),
        is_untouched(pass, rule@, s@, pattern::regex_captures(pass_pattern(pass), s@)) ==> r@
            == s@,
{
    let pattern = match pass {
        Pass::Url => pattern::URL,
        Pass::ProtocolRelative => pattern::PROTOCOL_RELATIVE,
        Pass::HtmlAttribute => pattern::HTML_ATTRIBUTE,
        Pass::CssUrl => pattern::CSS_URL,
    };
    let ms = pattern::captures(pattern, s);
    proof {
        let views = pattern::match_views(ms@);
        if is_untouched(pass, rule@, s@, views) {
            law_untouched_links_keep_the_text(pass, rule@, s@, views);
        }
    }
    replace_matches(pass, rule, s, &ms)
}

// ---------------------------------------------------------------------------
// Texts and bodies
// ---------------------------------------------------------------------------

/// A text with its links rewritten.
pub open spec fn rewritten(rule: Rule, s: Seq<char>) -> Seq<char> {
    match rule {
        Rule::Keep => s,
        Rule::Prefix { base, scheme, origin } => passed(
            Pass::HtmlAttribute,
            rule,
            passed(Pass::ProtocolRelative, rule, passed(Pass::Url, rule, s)),
        ),
        _ => passed(Pass::Url, rule, s),
    }
}

/// A style sheet with its links rewritten, root-relative paths too.
pub open spec fn css_rewritten(rule: Rule, s: Seq<char>) -> Seq<char> {
    passed(Pass::CssUrl, rule, rewritten(rule, s))
}

/// A text with its links rewritten as its content type asks for: in a style sheet, a rule that
/// leads back to `tape` covers root-relative paths too.
pub open spec fn rewritten_for(rule: Rule, content_type: Seq<char>, s: Seq<char>) -> Seq<char> {
    if rule is Prefix && text::has(text::lowered(content_type), "text/css"@) {
        css_rewritten(rule, s)
    } else {
        rewritten(rule, s)
    }
}

/// A content encoding as it is looked up: in lower case, without white space around it.
pub open spec fn encoding_name(encoding: Seq<char>) -> Seq<char> {
    text::lowered(text::trimmed(encoding))
}

/// Whether a content encoding leaves the body as it is.
pub open spec fn is_plain(enc: Seq<char>) -> bool {
    enc.len() == 0 || enc == "identity"@
}

/// What a body unpacks to under the content encoding `enc`.
pub open spec fn unpacked(enc: Seq<char>, body: Seq<u8>) -> Option<Seq<u8>> {
    if is_plain(enc) {
        Some(body)
    } else {
        codec::decompressed(enc, body)
    }
}

/// A body packed under the content encoding `enc`.
pub open spec fn packed(enc: Seq<char>, body: Seq<u8>) -> Option<Seq<u8>> {
    if is_plain(enc) {
        Some(body)
    } else {
        codec::recompressed(enc, body)
    }
}

/// A response body with its links rewritten. A body that is not text, that cannot be unpacked,
/// or that cannot be packed again, stays as it is.
pub open spec fn body_rewritten(rule: Rule, encoding: Seq<char>, body: Seq<u8>) -> Seq<u8> {
    let enc = encoding_name(encoding);
    match unpacked(enc, body) {
        Some(plain) => match text::decoded(plain) {
            Some(s) => match packed(enc, vstd::utf8::encode_utf8(rewritten(rule, s))) {
                Some(out) => out,
                None => body,
            },
            None => body,
        },
        None => body,
    }
}

/// The body of a style sheet with its links rewritten; `None` where the rule does not lead back
/// to `tape`, and where the body cannot be unpacked or packed.
pub open spec fn css_body_rewritten(
    rule: Rule,
    encoding: Seq<char>,
    body: Seq<u8>,
) -> Option<Seq<u8>> {
    let enc = encoding_name(encoding);
    if rule is Prefix {
        match unpacked(enc, body) {
            Some(plain) => match text::decoded(plain) {
                Some(s) => packed(enc, vstd::utf8::encode_utf8(css_rewritten(rule, s))),
                None => Some(body),
            },
            None => None,
        }
    } else {
        None
    }
}

/// A response body with its links rewritten as its content type asks for.
pub open spec fn body_rewritten_for(
    rule: Rule,
    encoding: Seq<char>,
    content_type: Seq<char>,
    body: Seq<u8>,
) -> Seq<u8> {
    if text::has(text::lowered(content_type), "text/css"@) {
        match css_body_rewritten(rule, encoding, body) {
            Some(out) => out,
            None => body_rewritten(rule, encoding, body),
        }
    } else {
        body_rewritten(rule, encoding, body)
    }
}

/// Rewrites the links of a text.
pub fn rewrite_text(input: &str, rule: &RewriteRule) -> (r: String)
    ensures
        r@ == rewritten(rule@, input@),
{
    match rule {
        RewriteRule::Keep => text::owned(input),
        RewriteRule::Prefix { base: _, scheme: _, origin: _ } => {
            let first = rewrite_pass(Pass::Url, rule, input);
            let second = rewrite_pass(Pass::ProtocolRelative, rule, &first);
            rewrite_pass(Pass::HtmlAttribute, rule, &second)
        },
        _ => rewrite_pass(Pass::Url, rule, input),
    }
}

/// Reads a content encoding.
fn name_encoding(encoding: &str) -> (r: String)
    ensures
        r@ == encoding_name(encoding@),
{
    text::lower_string(&text::trim_string(encoding))
}

/// Whether a content encoding leaves the body as it is.
fn plain_encoding(enc: &str) -> (r: bool)
    ensures
        r == is_plain(enc@),
{
    enc.is_empty() || text::same(enc, "identity")
}

/// Unpacks a body.
fn unpack(enc: &str, body: &[u8]) -> (r: Option<Vec<u8>>)
    ensures
        codec::opt_bytes(r) == unpacked(enc@, body@),
{
    if plain_encoding(enc) {
        Some(slice_to_vec(body))
    } else {
        codec::decompress(enc, body)
    }
}

/// Packs a body, under every content encoding that can be unpacked. What was packed unpacks to
/// the body.
fn pack(enc: &str, body: &[u8]) -> (r: Option<Vec<u8>>)
    ensures
        codec::opt_bytes(r) == packed(enc@, body@),
        r is Some <==> is_plain(enc@) || codec::is_known(enc@),
        r matches Some(out) ==> unpacked(enc@, out@) == Some(body@),
{
    if plain_encoding(enc) {
        Some(slice_to_vec(body))
    } else {
        codec::recompress(enc, body)
    }
}

/// The text that a body unpacks to under the content encoding `enc`, if it does.
pub open spec fn text_in(enc: Seq<char>, body: Seq<u8>) -> Option<Seq<char>> {
    match unpacked(enc, body) {
        Some(plain) => text::decoded(plain),
        None => None,
    }
}

/// Whether `out` is `body` with `change` made to its text: where `body` unpacks to a text, `out`
/// unpacks to the changed text; else `out` is `body`.
pub open spec fn text_changed(
    enc: Seq<char>,
    body: Seq<u8>,
    out: Seq<u8>,
    change: spec_fn(Seq<char>) -> Seq<char>,
) -> bool {
    match text_in(enc, body) {
        Some(s) => unpacked(enc, out) == Some(vstd::utf8::encode_utf8(change(s))),
        None => out == body,
    }
}

/// Rewrites the links of a response body. A compressed body is unpacked, rewritten, and packed
/// again in the same way: what comes out unpacks to the rewritten text.
pub fn rewrite_response_bytes(body: &[u8], encoding: &str, rule: &RewriteRule) -> (r: Vec<u8>)
    ensures
        r@ == body_rewritten(rule@, encoding@, body@),
        text_changed(encoding_name(encoding@), body@, r@, |s: Seq<char>| rewritten(rule@, s)),
{
    let enc = name_encoding(encoding);
    let ghost change = |s: Seq<char>| rewritten(rule@, s);
    match unpack(&enc, body) {
        Some(plain) => match text::utf8(&plain) {
            Some(s) => {
                let out = rewrite_text(s, rule);
                assert(change(s@) == out@);
                match pack(&enc, out.as_str().as_bytes()) {
                    Some(packed) => packed,
                    None => slice_to_vec(body),
                }
            },
            None => slice_to_vec(body),
        },
        None => slice_to_vec(body),
    }
}

/// Rewrites the links of a style sheet. Only a rule that leads back to `tape` has more to do
/// here than for any other text.
pub fn rewrite_css_response_bytes(body: &[u8], encoding: &str, rule: &RewriteRule) -> (r: Option<
    Vec<u8>,
>)
    ensures
        codec::opt_bytes(r) == css_body_rewritten(rule@, encoding@, body@),
        r is Some <==> rule@ is Prefix && unpacked(encoding_name(encoding@), body@) is Some,
        r matches Some(out) ==> text_changed(
            encoding_name(encoding@),
            body@,
            out@,
            |s: Seq<char>| css_rewritten(rule@, s),
        ),
{
    match rule {
        RewriteRule::Prefix { base: _, scheme: _, origin: _ } => {
            let enc = name_encoding(encoding);
            let ghost change = |s: Seq<char>| css_rewritten(rule@, s);
            match unpack(&enc, body) {
                Some(plain) => match text::utf8(&plain) {
                    Some(s) => {
                        let general = rewrite_text(s, rule);
                        let out = rewrite_pass(Pass::CssUrl, rule, &general);
                        assert(change(s@) == out@);
                        pack(&enc, out.as_str().as_bytes())
                    },
                    None => Some(slice_to_vec(body)),
                },
                None => None,
            }
        },
        _ => None,
    }
}

/// Rewrites the links of a response body as its content type asks for.
pub fn rewrite_response_bytes_for(
    body: &[u8],
    encoding: &str,
    content_type: &str,
    rule: &RewriteRule,
) -> (r: Vec<u8>)
    ensures
        r@ == body_rewritten_for(rule@, encoding@, content_type@, body@),
        text_changed(
            encoding_name(encoding@),
            body@,
            r@,
            |s: Seq<char>| rewritten_for(rule@, content_type@, s),
        ),
{
    if text::str_contains(&text::lower_string(content_type), "text/css") {
        if let Some(out) = rewrite_css_response_bytes(body, encoding, rule) {
            return out;
        }
    }
    rewrite_response_bytes(body, encoding, rule)
}

// ---------------------------------------------------------------------------
// The Location header
// ---------------------------------------------------------------------------

/// The rest of an absolute `http` or `https` address behind the scheme.
pub open spec fn behind_scheme(v: Seq<char>) -> Option<Seq<char>> {
    match text::stripped(v, "http://"@) {
        Some(rest) => Some(rest),
        None => text::stripped(v, "https://"@),
    }
}

/// A `Location` header, rewritten to lead back to `tape`. `req_scheme` and `req_origin` are
/// those of the request that is answered.
pub open spec fn location_rewritten(
    value: Seq<char>,
    req_scheme: Seq<char>,
    req_origin: Seq<char>,
    base: Seq<char>,
) -> Seq<char> {
    let v = text::trimmed(value);
    let through = text::without_trailing(base, '/') + "/"@;
    if v.len() == 0 || v[0] == '#' {
        v
    } else {
        match behind_scheme(v) {
            Some(rest) => if is_local(text::before(rest, '/', ':')) {
                v
            } else {
                through + v
            },
            None => match text::stripped(v, "//"@) {
                Some(rest) => if is_local(text::before(rest, '/', ':')) {
                    v
                } else {
                    through + req_scheme + "://"@ + rest
                },
                None => link_through(
                    base,
                    req_scheme,
                    req_origin,
                    if v[0] == '/' {
                        v
                    } else {
                        "/"@ + v
                    },
                ),
            },
        }
    }
}

/// Rewrites a `Location` header to lead back to `tape`.
///
/// - `https://host/path` becomes `{base}/https://host/path`
/// - `//host/path` becomes `{base}/{req_scheme}://host/path`
/// - `/path` becomes `{base}/{req_scheme}://{req_origin}/path`
///
/// `base` is the address of `tape` as the client sees it.
pub fn rewrite_location(value: &str, req_scheme: &str, req_origin: &str, base: &str) -> (r: String)
    ensures
        r@ == location_rewritten(value@, req_scheme@, req_origin@, base@),
{
    let cs = text::chars_of(value);
    let v = text::trim(&cs);
    if v.len() == 0 || v[0] == '#' {
        return text::string_of(v);
    }
    let base = text::chars_of(base);
    let mut out = text::vec_of(text::trim_trailing(&base, '/'));
    text::push_str(&mut out, "/");
    let absolute = match text::strip(v, "http://") {
        Some(rest) => Some(rest),
        None => text::strip(v, "https://"),
    };
    if let Some(rest) = absolute {
        let end: usize = text::index_of_either(rest, '/', ':');
        if is_local_host(text::take(rest, end)) {
            return text::string_of(v);
        }
        text::push_all(&mut out, v);
        return text::string_of(&out);
    }
    if let Some(rest) = text::strip(v, "//") {
        let end: usize = text::index_of_either(rest, '/', ':');
        if is_local_host(text::take(rest, end)) {
            return text::string_of(v);
        }
        text::push_str(&mut out, req_scheme);
        text::push_str(&mut out, "://");
        text::push_all(&mut out, rest);
        return text::string_of(&out);
    }
    let mut path: Vec<char> = Vec::new();
    if v[0] != '/' {
        text::push_str(&mut path, "/");
    }
    text::push_all(&mut path, v);
    proof {
        assert(Seq::<char>::empty() + v@ =~= v@);
        assert(Seq::<char>::empty() + "/"@ =~= "/"@);
    }
    let full = link(&base, &text::chars_of(req_scheme), &text::chars_of(req_origin), &path);
    text::string_of(&full)
}

// ---------------------------------------------------------------------------
// Links in a text
// ---------------------------------------------------------------------------

/// The path of a URL, without its query; the root where it has none.
pub open spec fn path_of_url(url: Seq<char>) -> Seq<char> {
    let whole = text::before(url, '?', '?');
    let rest = match text::cut_text(whole, "://"@) {
        Some((scheme, rest)) => rest,
        None => whole,
    };
    match text::cut(rest, '/') {
        Some((authority, p)) => "/"@ + p,
        None => "/"@,
    }
}

/// The path of a URL, without its query; the root where it has none.
pub fn url_path(url: &str) -> (r: String)
    ensures
        r@ == path_of_url(url@),
{
    let cs = text::chars_of(url);
    let end: usize = text::index_of_either(&cs, '?', '?');
    let whole = text::take(&cs, end);
    let rest: &[char] = match text::split_once(whole, "://") {
        Some((_, rest)) => rest,
        None => whole,
    };
    let mut path = text::chars_of("/");
    if let Some((_, p)) = text::split_once_at(rest, '/') {
        text::push_all(&mut path, p);
    }
    text::string_of(&path)
}

/// The texts of the given group in the given matches.
pub open spec fn group_column(s: Seq<char>, ms: Seq<Seq<pattern::Group>>, k: int) -> Seq<Seq<char>> {
    Seq::new(ms.len(), |i: int| pattern::at(pattern::group_texts(s, ms[i]), k))
}

/// Reads the given group of one match.
fn group_of_match(s: &str, m: &[pattern::Group], k: usize) -> (r: Vec<char>)
    requires
        pattern::is_match_in(s@, m@),
    ensures
        r@ == pattern::at(pattern::group_texts(s@, m@), k as int),
{
    let groups = pattern::groups_of(s, m);
    pattern::group_at(&groups, k)
}

/// The absolute URLs among the given matches, each once, in order.
pub fn urls_of(s: &str, ms: &[Vec<pattern::Group>]) -> (r: Vec<String>)
    requires
        pattern::are_matches(s@, pattern::match_views(ms@)),
    ensures
        text::texts(r@) == text::unique(group_column(s@, pattern::match_views(ms@), 0)),
{
    let ghost views = pattern::match_views(ms@);
    let ghost column = group_column(s@, views, 0);
    let n: usize = ms.len();
    let mut out: Vec<String> = Vec::new();
    let mut i: usize = 0;
    assert(text::texts(out@) =~= text::unique(column.take(0)));
    while i < n
        invariant
            i <= n == ms@.len(),
            views == pattern::match_views(ms@),
            column == group_column(s@, views, 0),
            pattern::are_matches(s@, views),
            text::texts(out@) == text::unique(column.take(i as int)),
        decreases n - i,
    {
        assert(ms@[i as int]@ == views[i as int]);
        let url = text::string_of(&group_of_match(s, &ms[i], 0));
        proof {
            assert(column.take(i + 1).drop_last() =~= column.take(i as int));
            assert(column.take(i + 1).last() == url@);
        }
        if !text::listed(&out, &url) {
            proof {
                text::lemma_texts_push(out@, url);
            }
            out.push(url);
        }
        i += 1;
    }
    assert(column.take(n as int) =~= column);
    out
}

/// What the groups of matches took stands in the text.
proof fn lemma_groups_stand_in(s: Seq<char>, ms: Seq<Seq<pattern::Group>>, k: int)
    requires
        pattern::are_matches(s, ms),
    ensures
        forall|i: int| 0 <= i < ms.len() ==> text::has(s, #[trigger] group_column(s, ms, k)[i]),
{
    let column = group_column(s, ms, k);
    assert forall|i: int| 0 <= i < ms.len() implies text::has(s, #[trigger] column[i]) by {
        if 0 <= k < ms[i].len() && ms[i][k] is Some {
            pattern::lemma_cut_stands_in(s, pattern::start(ms[i][k]), pattern::end(ms[i][k]));
        } else {
            assert(column[i] =~= Seq::<char>::empty());
            assert(s.subrange(0, 0) =~= column[i]);
            assert(text::occurs_at(s, column[i], 0));
        }
    }
}

/// The absolute `http` and `https` URLs in a text, each once, in order. Each stands in the text.
pub fn extract_http_urls(s: &str) -> (r: Vec<String>)
    ensures
        text::texts(r@) == urls_in(s@),
        text::texts(r@).no_duplicates(),
        forall|i: int| 0 <= i < r@.len() ==> text::has(s@, (#[trigger] r@[i])@),
{
    let ms = pattern::captures(pattern::URL, s);
    let r = urls_of(s, &ms);
    proof {
        let views = pattern::match_views(ms@);
        let column = group_column(s@, views, 0);
        text::lemma_unique(column);
        lemma_groups_stand_in(s@, views, 0);
        assert forall|i: int| 0 <= i < r@.len() implies text::has(s@, (#[trigger] r@[i])@) by {
            assert(text::texts(r@)[i] == r@[i]@);
            assert(text::unique(column)[i] == r@[i]@);
            assert(text::unique(column).contains(r@[i]@));
            assert(column.contains(r@[i]@));
            let j = choose|j: int| 0 <= j < column.len() && column[j] == r@[i]@;
            assert(text::has(s@, column[j]));
        }
    }
    r
}

/// The absolute `http` and `https` URLs in a text, each once, in order.
pub open spec fn urls_in(s: Seq<char>) -> Seq<Seq<char>> {
    text::unique(group_column(s, pattern::regex_captures(pattern::URL@, s), 0))
}

/// Whether a character ends a sentence rather than a path.
pub open spec fn is_punctuation(c: char) -> bool {
    c == '.' || c == ',' || c == ';'
}

/// The text without trailing punctuation.
pub open spec fn without_punctuation(s: Seq<char>) -> Seq<char>
    decreases s.len(),
{
    if s.len() > 0 && is_punctuation(s.last()) {
        without_punctuation(s.drop_last())
    } else {
        s
    }
}

/// Removes trailing punctuation.
fn trim_punctuation(s: &[char]) -> (r: &[char])
    ensures
        r@ == without_punctuation(s@),
{
    let mut to: usize = s.len();
    assert(s@.take(to as int) =~= s@);
    while to > 0 && (s[to - 1] == '.' || s[to - 1] == ',' || s[to - 1] == ';')
        invariant
            to <= s@.len(),
            without_punctuation(s@) == without_punctuation(s@.take(to as int)),
        decreases to,
    {
        assert(s@.take(to as int).drop_last() =~= s@.take(to - 1));
        to -= 1;
    }
    text::take(s, to)
}

/// The paths among the given matches, without trailing punctuation.
pub open spec fn path_column(s: Seq<char>, ms: Seq<Seq<pattern::Group>>) -> Seq<Seq<char>> {
    group_column(s, ms, 1).map_values(|p: Seq<char>| without_punctuation(p))
}

/// The root-relative paths of assets in a text, each once, in order.
pub open spec fn asset_paths_in(s: Seq<char>) -> Seq<Seq<char>> {
    text::unique(
        text::nonempty(path_column(s, pattern::regex_captures(pattern::RELATIVE_ASSET@, s))),
    )
}

/// The paths among the given matches, each once, in order.
pub fn asset_paths_of(s: &str, ms: &[Vec<pattern::Group>]) -> (r: Vec<String>)
    requires
        pattern::are_matches(s@, pattern::match_views(ms@)),
    ensures
        text::texts(r@) == text::unique(
            text::nonempty(path_column(s@, pattern::match_views(ms@))),
        ),
{
    let ghost views = pattern::match_views(ms@);
    let ghost column = path_column(s@, views);
    let n: usize = ms.len();
    let mut out: Vec<String> = Vec::new();
    let mut i: usize = 0;
    assert(text::nonempty(column.take(0)) =~= Seq::<Seq<char>>::empty());
    assert(text::texts(out@) =~= text::unique(text::nonempty(column.take(0))));
    while i < n
        invariant
            i <= n == ms@.len(),
            views == pattern::match_views(ms@),
            column == path_column(s@, views),
            pattern::are_matches(s@, views),
            text::texts(out@) == text::unique(text::nonempty(column.take(i as int))),
        decreases n - i,
    {
        assert(ms@[i as int]@ == views[i as int]);
        let found = group_of_match(s, &ms[i], 1);
        let path = text::string_of(trim_punctuation(&found));
        let ghost front = text::nonempty(column.take(i as int));
        proof {
            assert(column.take(i + 1).drop_last() =~= column.take(i as int));
            assert(column.take(i + 1).last() == path@);
            assert(front.push(path@).drop_last() =~= front);
        }
        if !path.as_str().is_empty() && !text::listed(&out, &path) {
            proof {
                text::lemma_texts_push(out@, path);
            }
            out.push(path);
        }
        i += 1;
    }
    assert(column.take(n as int) =~= column);
    out
}

/// The root-relative paths of assets in a text: HTML attributes, CSS `url(..)`, JSON strings
/// and the like, below one of the usual directories; each once, in order.
pub fn extract_relative_asset_paths(s: &str) -> (r: Vec<String>)
    ensures
        text::texts(r@) == asset_paths_in(s@),
        text::texts(r@).no_duplicates(),
{
    proof {
        text::lemma_unique(
            text::nonempty(path_column(s@, pattern::regex_captures(pattern::RELATIVE_ASSET@, s@))),
        );
    }
    let ms = pattern::captures(pattern::RELATIVE_ASSET, s);
    asset_paths_of(s, &ms)
}

// ---------------------------------------------------------------------------
// Laws
// ---------------------------------------------------------------------------

/// Whether a pass puts every match back as it was.
pub open spec fn is_untouched(
    pass: Pass,
    rule: Rule,
    s: Seq<char>,
    ms: Seq<Seq<pattern::Group>>,
) -> bool {
    forall|i: int|
        0 <= i < ms.len() ==> pass_replaced(pass, rule, pattern::group_texts(s, #[trigger] ms[i]))
            == pattern::group_text(s, ms[i][0])
}

/// The rest of a text whose matches are all put back is the rest of the text.
proof fn lemma_untouched_rest(
    pass: Pass,
    rule: Rule,
    s: Seq<char>,
    ms: Seq<Seq<pattern::Group>>,
    i: int,
    from: int,
)
    requires
        pattern::are_matches(s, ms),
        is_untouched(pass, rule, s, ms),
        0 <= i <= ms.len(),
        pattern::is_span(s, from, vstd::utf8::encode_utf8(s).len() as int),
        i < ms.len() ==> from <= pattern::start(ms[i][0]),
    ensures
        replaced_from(pass, rule, s, ms, i, from) == pattern::cut(
            s,
            from,
            vstd::utf8::encode_utf8(s).len() as int,
        ),
    decreases ms.len() - i,
{
    let total = vstd::utf8::encode_utf8(s).len() as int;
    if i < ms.len() {
        assert(ms[i][0] is Some);
        let a = pattern::start(ms[i][0]);
        let b = pattern::end(ms[i][0]);
        if i + 1 < ms.len() {
            assert(ms[i + 1][0] is Some);
        }
        lemma_untouched_rest(pass, rule, s, ms, i + 1, b);
        pattern::lemma_cut_joins(s, from, a, b);
        pattern::lemma_cut_joins(s, from, b, total);
    }
}

/// A pass that puts every match back leaves the text as it is: what lies between the matches is
/// never changed.
pub proof fn law_untouched_links_keep_the_text(
    pass: Pass,
    rule: Rule,
    s: Seq<char>,
    ms: Seq<Seq<pattern::Group>>,
)
    requires
        pattern::are_matches(s, ms),
        is_untouched(pass, rule, s, ms),
    ensures
        replaced_from(pass, rule, s, ms, 0, 0) == s,
{
    pattern::lemma_cut_whole(s);
    if ms.len() > 0 {
        assert(ms[0][0] is Some);
    }
    lemma_untouched_rest(pass, rule, s, ms, 0, 0);
}

/// Links to this machine and to XML namespaces are never rewritten, whatever the rule.
pub proof fn law_local_links_stay(rule: Rule, groups: Seq<Seq<char>>)
    requires
        is_local(pattern::at(groups, 2)) || is_namespace(pattern::at(groups, 2)),
    ensures
        url_replaced(rule, groups) == pattern::at(groups, 0),
        protocol_relative_replaced(rule, groups) == pattern::at(groups, 0),
{
}

/// Links to the base's own host are not rewritten, so that rewriting never loops.
pub proof fn law_own_links_stay(
    base: Seq<char>,
    scheme: Seq<char>,
    origin: Seq<char>,
    groups: Seq<Seq<char>>,
)
    requires
        host_of_base(base) == Some(text::lowered(pattern::at(groups, 2))),
    ensures
        url_replaced(Rule::Absolute { base }, groups) == pattern::at(groups, 0),
        url_replaced(Rule::Prefix { base, scheme, origin }, groups) == pattern::at(groups, 0),
        protocol_relative_replaced(Rule::Prefix { base, scheme, origin }, groups) == pattern::at(
            groups,
            0,
        ),
{
}

/// A link rewritten to a relative path begins at the root.
pub proof fn law_relative_links_begin_at_the_root(groups: Seq<Seq<char>>)
    requires
        !is_local(pattern::at(groups, 2)),
        !is_namespace(pattern::at(groups, 2)),
    ensures
        url_replaced(Rule::Relative, groups).len() > 0,
        url_replaced(Rule::Relative, groups)[0] == '/',
{
    reveal_strlit("/");
}

/// Without a rule the text stays as it is, and so does every body.
pub proof fn law_keeping_changes_nothing(s: Seq<char>, body: Seq<u8>)
    ensures
        rewritten(Rule::Keep, s) == s,
        body_rewritten(Rule::Keep, ""@, body) == body,
{
    reveal_strlit("");
    let enc = encoding_name(""@);
    assert(enc.len() == 0) by {
        assert(""@.len() == 0);
        assert(text::trimmed(""@).len() == 0);
    }
    if text::decoded(body) is Some {
        vstd::utf8::decode_utf8_encode_utf8(body);
    }
}

/// An address that was made to lead through `tape` is found again as a prefixed target.
pub proof fn law_link_through_is_found(
    base: Seq<char>,
    scheme: Seq<char>,
    authority: Seq<char>,
    path: Seq<char>,
)
    requires
        http_util::is_scheme(scheme),
        http_util::is_authority(authority),
        http_util::is_tail(path),
    ensures
        ({
            let address = link_through(base, scheme, authority, path);
            let front = text::without_trailing(base, '/');
            &&& address.take(front.len() as int) == front
            &&& http_util::prefixed_target(address.skip(front.len() as int)) == Some(
                (http_util::Target {
                    scheme: text::lowered(scheme),
                    authority,
                    path_and_query: http_util::or_root(path),
                    prefix: true,
                }),
            )
        }),
{
    let front = text::without_trailing(base, '/');
    let address = link_through(base, scheme, authority, path);
    assert(address.take(front.len() as int) =~= front);
    assert(address.skip(front.len() as int) =~= "/"@ + (scheme + "://"@ + authority + path));
    http_util::law_prefixed_address_is_found(scheme, authority, path);
}

/// A redirect to an absolute address leads back to `tape`: behind the base, the request target
/// is the address that the header named.
pub proof fn law_absolute_redirect_leads_back(
    scheme: Seq<char>,
    authority: Seq<char>,
    path: Seq<char>,
    req_scheme: Seq<char>,
    req_origin: Seq<char>,
    base: Seq<char>,
)
    requires
        scheme == "http"@ || scheme == "https"@,
        http_util::is_authority(authority),
        http_util::is_tail(path),
        !is_local(text::before(authority + path, '/', ':')),
        text::trimmed(scheme + "://"@ + authority + path) == scheme + "://"@ + authority + path,
    ensures
        ({
            let value = scheme + "://"@ + authority + path;
            let r = location_rewritten(value, req_scheme, req_origin, base);
            let front = text::without_trailing(base, '/');
            &&& r.take(front.len() as int) == front
            &&& http_util::prefixed_target(r.skip(front.len() as int)) == Some(
                (http_util::Target {
                    scheme,
                    authority,
                    path_and_query: http_util::or_root(path),
                    prefix: true,
                }),
            )
        }),
{
    reveal_strlit("http");
    reveal_strlit("https");
    reveal_strlit("://");
    reveal_strlit("http://");
    reveal_strlit("https://");
    let value = scheme + "://"@ + authority + path;
    let rest = authority + path;
    assert("http://"@ =~= "http"@ + "://"@);
    assert("https://"@ =~= "https"@ + "://"@);
    assert(value =~= scheme + "://"@ + rest);
    if scheme == "http"@ {
        assert("http://"@.is_prefix_of(value));
        assert(value.skip(7) =~= rest);
    } else {
        assert(value[4] == 's');
        assert(!"http://"@.is_prefix_of(value)) by {
            if "http://"@.is_prefix_of(value) {
                assert(value.subrange(0, 7)[4] == ':');
            }
        }
        assert("https://"@.is_prefix_of(value));
        assert(value.skip(8) =~= rest);
    }
    assert(value[0] == 'h');
    let front = text::without_trailing(base, '/');
    let r = location_rewritten(value, req_scheme, req_origin, base);
    assert(r =~= link_through(base, scheme, authority, path));
    assert(text::lowered(scheme) =~= scheme);
    law_link_through_is_found(base, scheme, authority, path);
}

/// A redirect to a path leads back to `tape`, to the same upstream as the request.
pub proof fn law_relative_redirect_leads_back(
    path: Seq<char>,
    req_scheme: Seq<char>,
    req_origin: Seq<char>,
    base: Seq<char>,
)
    requires
        http_util::is_scheme(req_scheme),
        http_util::is_authority(req_origin),
        path.len() > 0,
        path[0] == '/',
        !"//"@.is_prefix_of(path),
        text::trimmed(path) == path,
    ensures
        ({
            let r = location_rewritten(path, req_scheme, req_origin, base);
            let front = text::without_trailing(base, '/');
            &&& r.take(front.len() as int) == front
            &&& http_util::prefixed_target(r.skip(front.len() as int)) == Some(
                (http_util::Target {
                    scheme: text::lowered(req_scheme),
                    authority: req_origin,
                    path_and_query: path,
                    prefix: true,
                }),
            )
        }),
{
    reveal_strlit("http://");
    reveal_strlit("https://");
    assert(!"http://"@.is_prefix_of(path)) by {
        if "http://"@.is_prefix_of(path) {
            assert(path.subrange(0, 7)[0] == 'h');
        }
    }
    assert(!"https://"@.is_prefix_of(path)) by {
        if "https://"@.is_prefix_of(path) {
            assert(path.subrange(0, 8)[0] == 'h');
        }
    }
    law_link_through_is_found(base, req_scheme, req_origin, path);
}

/// The path of a URL begins at the root and holds no query.
pub proof fn law_url_path(url: Seq<char>)
    ensures
        path_of_url(url).len() > 0,
        path_of_url(url)[0] == '/',
        !path_of_url(url).contains('?'),
{
    reveal_strlit("/");
    text::lemma_upto(url, '?', '?');
    let whole = text::before(url, '?', '?');
    let k = text::found(whole, "://"@);
    text::lemma_find_from(whole, "://"@, 0);
    let from = match k {
        Some(at) => at + "://"@.len(),
        None => 0,
    };
    let rest = whole.skip(from);
    assert(whole.skip(0) =~= whole);
    text::lemma_upto(rest, '/', '/');
    let path = path_of_url(url);
    assert(path[0] == '/');
    assert forall|i: int| 0 <= i < path.len() implies path[i] != '?' by {
        if i > 0 {
            let at = from + text::upto(rest, '/', '/') + i;
            assert(path[i] == whole[at]);
            assert(whole[at] == url[at]);
        }
    }
}

/// The path of an address is its path without the query.
pub proof fn law_path_of_address(scheme: Seq<char>, authority: Seq<char>, path: Seq<char>)
    requires
        http_util::is_scheme(scheme),
        http_util::is_authority(authority),
        path.len() > 0,
        path[0] == '/',
    ensures
        path_of_url(scheme + "://"@ + authority + path) == text::before(path, '?', '?'),
{
    let address = scheme + "://"@ + authority + path;
    let bare = text::before(path, '?', '?');
    let url = scheme + "://"@ + authority + bare;
    let n = scheme.len() as int;
    let k = authority.len() as int;
    let m = text::upto(path, '?', '?');
    reveal_strlit("http");
    reveal_strlit("https");
    reveal_strlit("://");
    reveal_strlit("/");
    assert(text::lowered(scheme).len() == n);
    text::lemma_upto(path, '?', '?');
    assert(m > 0);
    assert forall|j: int| 0 <= j < n + 3 + k + m implies address[j] != '?' by {
        if j < n {
            assert(address[j] == scheme[j]);
            assert(text::lowered(scheme)[j] == text::lower(scheme[j]));
        } else if j < n + 3 {
            assert(address[j] == "://"@[j - n]);
        } else if j < n + 3 + k {
            assert(address[j] == authority[j - n - 3]);
        } else {
            assert(address[j] == path[j - n - 3 - k]);
        }
    }
    if m < path.len() {
        assert(address[n + 3 + k + m] == path[m]);
    }
    text::lemma_upto_is(address, '?', '?', n + 3 + k + m);
    assert(text::before(address, '?', '?') =~= url);
    assert forall|j: int| 0 <= j < n implies !text::occurs_at(url, "://"@, j) by {
        assert(url[j] == scheme[j]);
        if text::occurs_at(url, "://"@, j) {
            assert(url.subrange(j, j + 3)[0] == ':');
            assert(scheme[j] == ':');
            assert(text::lowered(scheme)[j] == ':');
        }
    }
    assert(url.subrange(n, n + 3) =~= "://"@);
    assert(text::occurs_at(url, "://"@, n));
    text::lemma_found_is_first(url, "://"@, n);
    let rest = authority + bare;
    assert(url.skip(n + 3) =~= rest);
    assert forall|j: int| 0 <= j < k implies rest[j] != '/' by {
        assert(rest[j] == authority[j]);
    }
    assert(rest[k] == '/');
    text::lemma_upto_is(rest, '/', '/', k);
    assert("/"@ + rest.skip(k + 1) =~= bare);
}

/// The path of an address without a path is the root, whatever its query holds.
pub proof fn law_path_of_bare_address(scheme: Seq<char>, authority: Seq<char>, query: Seq<char>)
    requires
        http_util::is_scheme(scheme),
        http_util::is_authority(authority),
    ensures
        path_of_url(scheme + "://"@ + authority) == "/"@,
        path_of_url(scheme + "://"@ + authority + ("?"@ + query)) == "/"@,
{
    let url = scheme + "://"@ + authority;
    let longer = url + ("?"@ + query);
    let n = scheme.len() as int;
    let k = authority.len() as int;
    reveal_strlit("http");
    reveal_strlit("https");
    reveal_strlit("://");
    reveal_strlit("?");
    assert(text::lowered(scheme).len() == n);
    assert forall|j: int| 0 <= j < n + 3 + k implies url[j] != '?' by {
        if j < n {
            assert(url[j] == scheme[j]);
            assert(text::lowered(scheme)[j] == text::lower(scheme[j]));
        } else if j < n + 3 {
            assert(url[j] == "://"@[j - n]);
        } else {
            assert(url[j] == authority[j - n - 3]);
        }
    }
    text::lemma_upto_is(url, '?', '?', n + 3 + k);
    assert(url.take(n + 3 + k) =~= url);
    assert forall|j: int| 0 <= j < n + 3 + k implies longer[j] != '?' by {
        assert(longer[j] == url[j]);
    }
    assert(longer[n + 3 + k] == '?');
    text::lemma_upto_is(longer, '?', '?', n + 3 + k);
    assert(longer.take(n + 3 + k) =~= url);
    assert forall|j: int| 0 <= j < n implies !text::occurs_at(url, "://"@, j) by {
        assert(url[j] == scheme[j]);
        if text::occurs_at(url, "://"@, j) {
            assert(url.subrange(j, j + 3)[0] == ':');
            assert(text::lowered(scheme)[j] == ':');
        }
    }
    assert(url.subrange(n, n + 3) =~= "://"@);
    text::lemma_found_is_first(url, "://"@, n);
    assert(url.skip(n + 3) =~= authority);
    text::lemma_upto_is(authority, '/', '/', k);
}

/// The path of an address is the same whatever its query.
pub proof fn law_query_does_not_change_the_path(
    scheme: Seq<char>,
    authority: Seq<char>,
    path: Seq<char>,
    query: Seq<char>,
)
    requires
        http_util::is_scheme(scheme),
        http_util::is_authority(authority),
        path.len() > 0,
        path[0] == '/',
        !path.contains('?'),
    ensures
        path_of_url(scheme + "://"@ + authority + path) == path,
        path_of_url(scheme + "://"@ + authority + (path + "?"@ + query)) == path,
{
    let longer = path + "?"@ + query;
    let n = path.len() as int;
    reveal_strlit("?");
    law_path_of_address(scheme, authority, path);
    law_path_of_address(scheme, authority, longer);
    assert forall|j: int| 0 <= j < n implies path[j] != '?' by {
        assert(path.contains(path[j]));
    }
    text::lemma_upto_is(path, '?', '?', n);
    assert(path.take(n) =~= path);
    assert forall|j: int| 0 <= j < n implies longer[j] != '?' by {
        assert(longer[j] == path[j]);
    }
    assert(longer[n] == '?');
    text::lemma_upto_is(longer, '?', '?', n);
    assert(longer.take(n) =~= path);
}

/// Whether `base` is `front` with nothing but slashes behind it.
pub open spec fn is_base(base: Seq<char>, front: Seq<char>, slashes: Seq<char>) -> bool {
    &&& base == front + slashes
    &&& front.len() == 0 || front.last() != '/'
    &&& forall|i: int| 0 <= i < slashes.len() ==> #[trigger] slashes[i] == '/'
}

/// The address through `tape` is the base without its trailing slashes, and behind a slash the
/// whole address that it leads to.
pub proof fn law_address_through(
    base: Seq<char>,
    front: Seq<char>,
    slashes: Seq<char>,
    scheme: Seq<char>,
    authority: Seq<char>,
    path: Seq<char>,
)
    requires
        is_base(base, front, slashes),
    ensures
        link_through(base, scheme, authority, path) == front + ("/"@ + scheme + "://"@ + authority
            + path),
{
    text::law_without(slashes, front, '/');
    assert(link_through(base, scheme, authority, path) =~= front + ("/"@ + scheme + "://"@
        + authority + path));
}

/// A root-relative path in an attribute of a page leads through `tape`: between what stood before
/// it and its closing quote stands the base with an address that a later request is found to ask
/// for, of the same upstream and with the same path and query.
pub proof fn law_attribute_leads_through(
    base: Seq<char>,
    front: Seq<char>,
    slashes: Seq<char>,
    scheme: Seq<char>,
    origin: Seq<char>,
    whole: Seq<char>,
    lead: Seq<char>,
    path: Seq<char>,
    quote: Seq<char>,
)
    requires
        is_base(base, front, slashes),
        http_util::is_scheme(scheme),
        http_util::is_authority(origin),
        path.len() > 0,
        path[0] == '/',
        path.len() > 1 ==> path[1] != '/',
    ensures
        ({
            let address = "/"@ + scheme + "://"@ + origin + path;
            let rule = Rule::Prefix { base, scheme, origin };
            &&& html_attribute_replaced(rule, seq![whole, lead, path, quote]) == lead + front
                + address + quote
            &&& css_url_replaced(rule, seq![whole, lead, quote, path]) == lead + quote + front
                + address
            &&& http_util::prefixed_target(address) == Some(
                (http_util::Target {
                    scheme: text::lowered(scheme),
                    authority: origin,
                    path_and_query: path,
                    prefix: true,
                }),
            )
        }),
{
    let address = "/"@ + scheme + "://"@ + origin + path;
    let rule = Rule::Prefix { base, scheme, origin };
    reveal_strlit("//");
    assert(!"//"@.is_prefix_of(path)) by {
        if "//"@.is_prefix_of(path) {
            assert(path.subrange(0, 2)[1] == '/');
        }
    }
    law_address_through(base, front, slashes, scheme, origin, path);
    assert(html_attribute_replaced(rule, seq![whole, lead, path, quote]) =~= lead + front + address
        + quote);
    assert(css_url_replaced(rule, seq![whole, lead, quote, path]) =~= lead + quote + front
        + address);
    assert(address =~= "/"@ + (scheme + "://"@ + origin + path));
    http_util::law_prefixed_address_is_found(scheme, origin, path);
}

/// A path that begins with two slashes names a host and is no root-relative path: it stays.
/// Under a rule that does not lead back to `tape`, root-relative paths and protocol-relative links
/// stay.
pub proof fn law_other_relative_links_stay(
    rule: Rule,
    whole: Seq<char>,
    a: Seq<char>,
    b: Seq<char>,
    c: Seq<char>,
    d: Seq<char>,
)
    ensures
        b.len() > 1 && b[0] == '/' && b[1] == '/' ==> html_attribute_replaced(
            rule,
            seq![whole, a, b, c],
        ) == whole,
        c.len() > 1 && c[0] == '/' && c[1] == '/' ==> css_url_replaced(rule, seq![whole, a, b, c])
            == whole,
        !(rule is Prefix) ==> html_attribute_replaced(rule, seq![whole, a, b, c]) == whole,
        !(rule is Prefix) ==> css_url_replaced(rule, seq![whole, a, b, c]) == whole,
        !(rule is Prefix) ==> protocol_relative_replaced(rule, seq![whole, a, b, c, d]) == whole,
        url_replaced(Rule::Keep, seq![whole, a, b, c, d]) == whole,
{
    reveal_strlit("//");
    if b.len() > 1 && b[0] == '/' && b[1] == '/' {
        assert(b.subrange(0, 2) =~= "//"@);
        assert("//"@.is_prefix_of(b));
    }
    if c.len() > 1 && c[0] == '/' && c[1] == '/' {
        assert(c.subrange(0, 2) =~= "//"@);
        assert("//"@.is_prefix_of(c));
    }
}

/// Whether a host is one whose links are never rewritten: a name or an address of this machine,
/// or the one of the namespaces of XML, whatever its case.
pub open spec fn is_spared(host: Seq<char>) -> bool {
    let h = text::lowered(host);
    seq!["localhost"@, "127.0.0.1"@, "::1"@, "[::1]"@, "0.0.0.0"@, "www.w3.org"@].contains(h)
}

/// The hosts whose links are never rewritten.
proof fn lemma_spared(host: Seq<char>)
    ensures
        is_spared(host) <==> is_local(host) || is_namespace(host),
{
    let list = seq!["localhost"@, "127.0.0.1"@, "::1"@, "[::1]"@, "0.0.0.0"@, "www.w3.org"@];
    let h = text::lowered(host);
    if is_spared(host) {
        let i = choose|i: int| 0 <= i < list.len() && list[i] == h;
        assert(list[i] == h);
    }
    assert(list[0] == "localhost"@);
    assert(list[1] == "127.0.0.1"@);
    assert(list[2] == "::1"@);
    assert(list[3] == "[::1]"@);
    assert(list[4] == "0.0.0.0"@);
    assert(list[5] == "www.w3.org"@);
}

/// What follows the host of a link, as a path with query that begins at the root.
proof fn lemma_rooted(tail: Seq<char>)
    requires
        tail.len() == 0 || tail[0] == '/' || tail[0] == '?',
    ensures
        rooted(tail) == if tail.len() > 0 && tail[0] == '/' {
            tail
        } else {
            "/"@ + tail
        },
{
    assert("/"@ + Seq::<char>::empty() =~= "/"@);
    if tail.len() == 0 {
        assert(tail =~= Seq::<char>::empty());
    }
}

/// A relative link is the path with query of the URL, as it was: only scheme and host are gone. A
/// URL without a path leads to the root, with its query.
pub proof fn law_relative_link_keeps_path_and_query(
    whole: Seq<char>,
    scheme: Seq<char>,
    host: Seq<char>,
    port: Seq<char>,
    tail: Seq<char>,
)
    requires
        tail.len() == 0 || tail[0] == '/' || tail[0] == '?',
    ensures
        url_replaced(Rule::Relative, seq![whole, scheme, host, port, tail]) == if is_spared(host) {
            whole
        } else if tail.len() > 0 && tail[0] == '/' {
            tail
        } else {
            "/"@ + tail
        },
{
    lemma_spared(host);
    lemma_rooted(tail);
}

/// Whether `host` is the host of the address `base`, which is made of a scheme, a host, and a
/// port or a path behind it.
pub open spec fn is_host_of(
    base: Seq<char>,
    scheme: Seq<char>,
    host: Seq<char>,
    rest: Seq<char>,
) -> bool {
    &&& base == scheme + "://"@ + host + rest
    &&& !scheme.contains(':')
    &&& !host.contains(':')
    &&& !host.contains('/')
    &&& rest.len() > 0 ==> rest[0] == ':' || rest[0] == '/'
}

/// The host of a base address is the one that it names, in lower case.
proof fn lemma_host_of_base(
    base: Seq<char>,
    scheme: Seq<char>,
    host: Seq<char>,
    rest: Seq<char>,
)
    requires
        is_host_of(base, scheme, host, rest),
    ensures
        host_of_base(base) == Some(text::lowered(host)),
{
    reveal_strlit("://");
    let back = host + rest;
    assert(base =~= scheme + "://"@ + back);
    assert forall|j: int| 0 <= j < scheme.len() implies !text::occurs_at(
        scheme + "://"@ + back,
        "://"@,
        j,
    ) by {
        let s = scheme + "://"@ + back;
        assert(s[j] == scheme[j]);
        assert(scheme.contains(scheme[j]));
        if text::occurs_at(s, "://"@, j) {
            assert(s.subrange(j, j + 3)[0] == ':');
        }
    }
    text::law_cut_text(scheme, "://"@, back);
    let n = host.len() as int;
    assert forall|j: int| 0 <= j < n implies back[j] != '/' && back[j] != ':' by {
        assert(back[j] == host[j]);
        assert(host.contains(host[j]));
    }
    if rest.len() > 0 {
        assert(back[n] == rest[0]);
    }
    text::lemma_upto_is(back, '/', ':', n);
    assert(back.take(n) =~= host);
}

/// An absolute link is the base with the path and query of the URL behind one slash. Links to the
/// base's own host stay.
pub proof fn law_absolute_link_keeps_path_and_query(
    base: Seq<char>,
    front: Seq<char>,
    slashes: Seq<char>,
    base_scheme: Seq<char>,
    base_host: Seq<char>,
    base_rest: Seq<char>,
    whole: Seq<char>,
    scheme: Seq<char>,
    host: Seq<char>,
    port: Seq<char>,
    tail: Seq<char>,
)
    requires
        is_base(base, front, slashes),
        is_host_of(base, base_scheme, base_host, base_rest),
        tail.len() == 0 || tail[0] == '/' || tail[0] == '?',
        tail.len() > 1 && tail[0] == '/' ==> tail[1] != '/',
    ensures
        url_replaced(Rule::Absolute { base }, seq![whole, scheme, host, port, tail])
            == if is_spared(host) || text::lowered(host) == text::lowered(base_host) {
            whole
        } else if tail.len() > 0 && tail[0] == '/' {
            front + tail
        } else {
            front + "/"@ + tail
        },
{
    reveal_strlit("/");
    lemma_spared(host);
    lemma_rooted(tail);
    lemma_host_of_base(base, base_scheme, base_host, base_rest);
    text::law_without(slashes, front, '/');
    let path = rooted(tail);
    let rest = path.drop_first();
    assert(path =~= seq!['/'] + rest);
    assert(rest.len() > 0 ==> rest[0] != '/') by {
        if rest.len() > 0 {
            if tail[0] == '/' {
                assert(rest[0] == tail[1]);
            } else {
                assert(rest[0] == tail[0]);
            }
        }
    }
    text::law_without(seq!['/'], rest, '/');
    assert(front + "/"@ + rest =~= front + path);
    assert(front + "/"@ + tail =~= front + ("/"@ + tail));
}

/// The authority of a link: its host and, where it has one, its port.
pub open spec fn authority_in(host: Seq<char>, port: Seq<char>) -> Seq<char> {
    if port.len() > 0 {
        host + ":"@ + port
    } else {
        host
    }
}

/// What follows the authority of a link, as it is asked for: a path with query as it is, and
/// behind a slash where the path is missing.
pub open spec fn path_in(tail: Seq<char>) -> Seq<char> {
    if tail.len() > 0 && tail[0] == '/' {
        tail
    } else {
        "/"@ + tail
    }
}

/// An absolute URL leads through `tape`: behind the base stands its own address, with its scheme,
/// host, port, path and query. Links to the base's own host stay.
pub proof fn law_url_leads_through(
    base: Seq<char>,
    front: Seq<char>,
    slashes: Seq<char>,
    base_scheme: Seq<char>,
    base_host: Seq<char>,
    base_rest: Seq<char>,
    rule: Rule,
    whole: Seq<char>,
    scheme: Seq<char>,
    host: Seq<char>,
    port: Seq<char>,
    tail: Seq<char>,
)
    requires
        is_base(base, front, slashes),
        is_host_of(base, base_scheme, base_host, base_rest),
        rule matches Rule::Prefix { base: b, scheme: _, origin: _ } && b == base,
        scheme.len() > 0,
        tail.len() == 0 || tail[0] == '/' || tail[0] == '?',
    ensures
        url_replaced(rule, seq![whole, scheme, host, port, tail]) == if is_spared(host)
            || text::lowered(host) == text::lowered(base_host) {
            whole
        } else {
            front + ("/"@ + scheme + "://"@ + authority_in(host, port) + path_in(tail))
        },
{
    lemma_spared(host);
    lemma_rooted(tail);
    lemma_host_of_base(base, base_scheme, base_host, base_rest);
    law_address_through(
        base,
        front,
        slashes,
        scheme,
        authority_in(host, port),
        path_in(tail),
    );
}

/// A protocol-relative link leads through `tape`: behind what stood before it and the base stands
/// its address with the scheme of the request. Links to the base's own host stay.
pub proof fn law_protocol_relative_link_leads_through(
    base: Seq<char>,
    front: Seq<char>,
    slashes: Seq<char>,
    base_scheme: Seq<char>,
    base_host: Seq<char>,
    base_rest: Seq<char>,
    req_scheme: Seq<char>,
    req_origin: Seq<char>,
    whole: Seq<char>,
    lead: Seq<char>,
    host: Seq<char>,
    port: Seq<char>,
    tail: Seq<char>,
)
    requires
        is_base(base, front, slashes),
        is_host_of(base, base_scheme, base_host, base_rest),
        tail.len() == 0 || tail[0] == '/' || tail[0] == '?',
    ensures
        protocol_relative_replaced(
            Rule::Prefix { base, scheme: req_scheme, origin: req_origin },
            seq![whole, lead, host, port, tail],
        ) == if is_spared(host) || text::lowered(host) == text::lowered(base_host) {
            whole
        } else {
            lead + (front + ("/"@ + req_scheme + "://"@ + authority_in(host, port) + path_in(
                tail,
            )))
        },
{
    lemma_spared(host);
    lemma_rooted(tail);
    lemma_host_of_base(base, base_scheme, base_host, base_rest);
    law_address_through(
        base,
        front,
        slashes,
        req_scheme,
        authority_in(host, port),
        path_in(tail),
    );
}

/// The address of a link behind a slash is found to ask for the link's host and port, with its
/// path and query.
pub proof fn law_address_of_link_is_found(
    scheme: Seq<char>,
    host: Seq<char>,
    port: Seq<char>,
    tail: Seq<char>,
)
    requires
        http_util::is_scheme(scheme),
        http_util::is_authority(host),
        port.len() == 0 || http_util::is_authority(port),
        tail.len() == 0 || tail[0] == '/' || tail[0] == '?',
    ensures
        http_util::prefixed_target(
            "/"@ + scheme + "://"@ + authority_in(host, port) + path_in(tail),
        ) == Some(
            (http_util::Target {
                scheme: text::lowered(scheme),
                authority: authority_in(host, port),
                path_and_query: path_in(tail),
                prefix: true,
            }),
        ),
{
    reveal_strlit("/");
    reveal_strlit(":");
    let authority = authority_in(host, port);
    let path = path_in(tail);
    assert forall|i: int| 0 <= i < authority.len() implies (#[trigger] authority[i]) != '/'
        && authority[i] != '?' && authority[i] != '#' && authority[i] != '%' by {
        if i < host.len() {
            assert(authority[i] == host[i]);
        } else if i > host.len() {
            assert(authority[i] == port[i - host.len() - 1]);
        }
    }
    assert(path[0] == '/');
    assert("/"@ + scheme + "://"@ + authority + path =~= "/"@ + (scheme + "://"@ + authority
        + path));
    http_util::law_prefixed_address_is_found(scheme, authority, path);
}

/// Under a rule that leads back to `tape`, links of each kind are rewritten: where a text has
/// none to rewrite of two kinds, what is left is the work of the third; in a style sheet, paths
/// in `url(..)` come on top. Under another rule only absolute URLs are.
pub proof fn law_every_kind_of_link_is_rewritten(rule: Rule, s: Seq<char>)
    ensures
        ({
            let url = passed(Pass::Url, rule, s);
            let protocol = passed(Pass::ProtocolRelative, rule, s);
            let attribute = passed(Pass::HtmlAttribute, rule, s);
            &&& rule is Relative || rule is Absolute ==> rewritten(rule, s) == url
            &&& rule is Prefix && url == s && protocol == s ==> rewritten(rule, s) == attribute
            &&& rule is Prefix && url == s && passed(Pass::HtmlAttribute, rule, protocol)
                == protocol ==> rewritten(rule, s) == protocol
            &&& rule is Prefix && passed(Pass::ProtocolRelative, rule, url) == url && passed(
                Pass::HtmlAttribute,
                rule,
                url,
            ) == url ==> rewritten(rule, s) == url
            &&& rewritten(rule, s) == s ==> css_rewritten(rule, s) == passed(Pass::CssUrl, rule, s)
            &&& passed(Pass::CssUrl, rule, rewritten(rule, s)) == rewritten(rule, s)
                ==> css_rewritten(rule, s) == rewritten(rule, s)
        }),
{
}

/// A pass replaces the first match, then the rest of the matches behind it, and leaves what
/// stands before and between them.
pub proof fn law_matches_are_replaced_in_turn(
    rule: Rule,
    s: Seq<char>,
    ms: Seq<Seq<pattern::Group>>,
    i: int,
    from: int,
)
    ensures
        i >= ms.len() ==> replaced_from(Pass::Url, rule, s, ms, i, from) == pattern::cut(
            s,
            from,
            vstd::utf8::encode_utf8(s).len() as int,
        ),
        0 <= i < ms.len() ==> {
            let gap = pattern::cut(s, from, pattern::start(ms[i][0]));
            let groups = pattern::group_texts(s, ms[i]);
            let next = pattern::end(ms[i][0]);
            &&& replaced_from(Pass::Url, rule, s, ms, i, from) == gap + url_replaced(rule, groups)
                + replaced_from(Pass::Url, rule, s, ms, i + 1, next)
            &&& replaced_from(Pass::ProtocolRelative, rule, s, ms, i, from) == gap
                + protocol_relative_replaced(rule, groups) + replaced_from(
                Pass::ProtocolRelative,
                rule,
                s,
                ms,
                i + 1,
                next,
            )
            &&& replaced_from(Pass::HtmlAttribute, rule, s, ms, i, from) == gap
                + html_attribute_replaced(rule, groups) + replaced_from(
                Pass::HtmlAttribute,
                rule,
                s,
                ms,
                i + 1,
                next,
            )
            &&& replaced_from(Pass::CssUrl, rule, s, ms, i, from) == gap + css_url_replaced(
                rule,
                groups,
            ) + replaced_from(Pass::CssUrl, rule, s, ms, i + 1, next)
        },
{
}

/// Each pass looks for the links that it is named for.
pub proof fn law_passes_look_for_their_links(rule: Rule, s: Seq<char>)
    ensures
        passed(Pass::Url, rule, s) == replaced_from(
            Pass::Url,
            rule,
            s,
            pattern::regex_captures(pattern::URL@, s),
            0,
            0,
        ),
        passed(Pass::ProtocolRelative, rule, s) == replaced_from(
            Pass::ProtocolRelative,
            rule,
            s,
            pattern::regex_captures(pattern::PROTOCOL_RELATIVE@, s),
            0,
            0,
        ),
        passed(Pass::HtmlAttribute, rule, s) == replaced_from(
            Pass::HtmlAttribute,
            rule,
            s,
            pattern::regex_captures(pattern::HTML_ATTRIBUTE@, s),
            0,
            0,
        ),
        passed(Pass::CssUrl, rule, s) == replaced_from(
            Pass::CssUrl,
            rule,
            s,
            pattern::regex_captures(pattern::CSS_URL@, s),
            0,
            0,
        ),
{
}

/// A body of text, unpacked under its content encoding, is rewritten as a text and packed again
/// in the same way; a body without an encoding is rewritten as it is; and a body that is no text,
/// cannot be unpacked, or has an unknown encoding stays.
pub proof fn law_body_is_rewritten(
    rule: Rule,
    encoding: Seq<char>,
    name: Seq<char>,
    body: Seq<u8>,
    s: Seq<char>,
    out: Seq<u8>,
)
    requires
        name == text::lowered(text::trimmed(encoding)),
    ensures
        ({
            let text = vstd::utf8::encode_utf8(s);
            let new = vstd::utf8::encode_utf8(rewritten(rule, s));
            let r = body_rewritten(rule, encoding, body);
            &&& (name.len() == 0 || name == "identity"@) && body == text ==> r == new
            &&& (name.len() == 0 || name == "identity"@) && !vstd::utf8::valid_utf8(body) ==> r
                == body
            &&& name == "gzip"@ && codec::gzip_decoded(body) == Some(text) && codec::gzip_encoded(
                new,
            ) == Some(out) ==> r == out
            &&& name == "deflate"@ && codec::zlib_decoded(body) == Some(text)
                && codec::zlib_encoded(new) == Some(out) ==> r == out
            &&& name == "deflate"@ && codec::zlib_decoded(body) is None && codec::deflate_decoded(
                body,
            ) == Some(text) && codec::zlib_encoded(new) == Some(out) ==> r == out
            &&& name == "br"@ && codec::brotli_decoded(body) == Some(text)
                && codec::brotli_encoded(new) == Some(out) ==> r == out
            &&& name == "gzip"@ && codec::gzip_decoded(body) is None ==> r == body
            &&& name == "br"@ && codec::brotli_decoded(body) is None ==> r == body
            &&& !seq![""@, "identity"@, "gzip"@, "deflate"@, "br"@].contains(name) ==> r == body
        }),
{
    let text = vstd::utf8::encode_utf8(s);
    vstd::utf8::encode_utf8_valid_utf8(s);
    vstd::utf8::encode_utf8_decode_utf8(s);
    lemma_encodings();
    let list = seq![""@, "identity"@, "gzip"@, "deflate"@, "br"@];
    assert(list[0] == ""@ && list[1] == "identity"@ && list[2] == "gzip"@);
    assert(list[3] == "deflate"@ && list[4] == "br"@);
    if name.len() == 0 {
        assert(name =~= ""@);
    }
}

/// The names of the content encodings are different, and only the empty one is empty.
proof fn lemma_encodings()
    ensures
        ""@.len() == 0,
        "identity"@.len() == 8,
        "gzip"@.len() == 4,
        "deflate"@.len() == 7,
        "br"@.len() == 2,
{
    reveal_strlit("");
    reveal_strlit("identity");
    reveal_strlit("gzip");
    reveal_strlit("deflate");
    reveal_strlit("br");
}

/// Only the body of a style sheet has its `url(..)` rewritten, under a rule that leads back to
/// `tape`; every other body is rewritten as a text.
pub proof fn law_content_type_decides(
    rule: Rule,
    encoding: Seq<char>,
    content_type: Seq<char>,
    s: Seq<char>,
)
    requires
        text::lowered(text::trimmed(encoding)).len() == 0,
    ensures
        ({
            let css = text::has(text::lowered(content_type), "text/css"@);
            body_rewritten_for(rule, encoding, content_type, vstd::utf8::encode_utf8(s))
                == vstd::utf8::encode_utf8(
                if css && rule is Prefix {
                    passed(Pass::CssUrl, rule, rewritten(rule, s))
                } else {
                    rewritten(rule, s)
                },
            )
        }),
{
    vstd::utf8::encode_utf8_valid_utf8(s);
    vstd::utf8::encode_utf8_decode_utf8(s);
}

/// A redirect to a host of this machine, to a place within the page, or to nowhere stays as it
/// is.
pub proof fn law_some_redirects_stay(
    v: Seq<char>,
    req_scheme: Seq<char>,
    req_origin: Seq<char>,
    base: Seq<char>,
    host: Seq<char>,
    rest: Seq<char>,
)
    requires
        text::trimmed(v) == v,
        !host.contains('/'),
        !host.contains(':'),
        rest.len() > 0 ==> rest[0] == '/' || rest[0] == ':',
    ensures
        v.len() == 0 ==> location_rewritten(v, req_scheme, req_origin, base) == v,
        v.len() > 0 && v[0] == '#' ==> location_rewritten(v, req_scheme, req_origin, base) == v,
        seq!["localhost"@, "127.0.0.1"@, "::1"@, "[::1]"@, "0.0.0.0"@].contains(
            text::lowered(host),
        ) && (v == "http://"@ + (host + rest) || v == "https://"@ + (host + rest) || v == "//"@ + (
        host + rest)) ==> location_rewritten(v, req_scheme, req_origin, base) == v,
{
    reveal_strlit("http://");
    reveal_strlit("https://");
    reveal_strlit("//");
    let list = seq!["localhost"@, "127.0.0.1"@, "::1"@, "[::1]"@, "0.0.0.0"@];
    if list.contains(text::lowered(host)) {
        let i = choose|i: int| 0 <= i < list.len() && list[i] == text::lowered(host);
        assert(is_local(host)) by {
            assert(i == 0 || i == 1 || i == 2 || i == 3 || i == 4);
        }
        lemma_before_host(host, rest);
        text::law_stripped("http://"@, host + rest, v);
        text::law_stripped("https://"@, host + rest, v);
        text::law_stripped("//"@, host + rest, v);
        if v == "https://"@ + (host + rest) {
            assert(v[4] == 's');
            if "http://"@.is_prefix_of(v) {
                assert(v.subrange(0, 7)[4] == ':');
            }
        }
        if v == "//"@ + (host + rest) {
            assert(v[0] == '/');
            if "http://"@.is_prefix_of(v) {
                assert(v.subrange(0, 7)[0] == 'h');
            }
            if "https://"@.is_prefix_of(v) {
                assert(v.subrange(0, 8)[0] == 'h');
            }
        }
    }
}

/// The host of an address stands before its port and path.
proof fn lemma_before_host(host: Seq<char>, rest: Seq<char>)
    requires
        !host.contains('/'),
        !host.contains(':'),
        rest.len() > 0 ==> rest[0] == '/' || rest[0] == ':',
    ensures
        text::before(host + rest, '/', ':') == host,
{
    let all = host + rest;
    let n = host.len() as int;
    assert forall|j: int| 0 <= j < n implies all[j] != '/' && all[j] != ':' by {
        assert(all[j] == host[j]);
        assert(host.contains(host[j]));
    }
    if rest.len() > 0 {
        assert(all[n] == rest[0]);
    }
    text::lemma_upto_is(all, '/', ':', n);
    assert(all.take(n) =~= host);
}

/// A redirect to another host without a scheme, and one to a path without a leading slash, lead
/// back to `tape`: the one to that host and the other to the upstream of the request, with the
/// request's scheme.
pub proof fn law_schemeless_redirects_lead_back(
    host: Seq<char>,
    path: Seq<char>,
    page: Seq<char>,
    req_scheme: Seq<char>,
    req_origin: Seq<char>,
    base: Seq<char>,
    front: Seq<char>,
    slashes: Seq<char>,
)
    requires
        is_base(base, front, slashes),
        !is_local(text::before(host + path, '/', ':')),
        text::trimmed("//"@ + (host + path)) == "//"@ + (host + path),
        text::trimmed(page) == page,
        page.len() > 0,
        page[0] != '/',
        page[0] != '#',
        !"http://"@.is_prefix_of(page),
        !"https://"@.is_prefix_of(page),
    ensures
        location_rewritten("//"@ + (host + path), req_scheme, req_origin, base) == front + ("/"@
            + req_scheme + "://"@ + host + path),
        location_rewritten(page, req_scheme, req_origin, base) == front + ("/"@ + req_scheme
            + "://"@ + req_origin + ("/"@ + page)),
{
    reveal_strlit("http://");
    reveal_strlit("https://");
    reveal_strlit("//");
    let v = "//"@ + (host + path);
    assert(v[0] == '/');
    if "http://"@.is_prefix_of(v) {
        assert(v.subrange(0, 7)[0] == 'h');
    }
    if "https://"@.is_prefix_of(v) {
        assert(v.subrange(0, 8)[0] == 'h');
    }
    text::law_stripped("//"@, host + path, v);
    text::law_without(slashes, front, '/');
    assert(location_rewritten(v, req_scheme, req_origin, base) =~= front + ("/"@ + req_scheme
        + "://"@ + host + path));
    if "//"@.is_prefix_of(page) {
        assert(page.subrange(0, 2)[0] == '/');
    }
    law_address_through(base, front, slashes, req_scheme, req_origin, "/"@ + page);
}

/// A path with query, without a scheme, is its own path without the query.
pub proof fn law_path_of_a_path(path: Seq<char>, query: Seq<char>)
    requires
        path.len() > 0,
        path[0] == '/',
        !path.contains('?'),
        !text::has(path, "://"@),
    ensures
        path_of_url(path) == path,
        path_of_url(path + "?"@ + query) == path,
{
    reveal_strlit("/");
    reveal_strlit("?");
    assert("?"@ =~= seq!['?']);
    text::law_cut(path, '?', query);
    text::lemma_found_iff_has(path, "://"@);
    text::lemma_upto_is(path, '/', '/', 0);
    assert("/"@ + path.skip(1) =~= path);
}

/// A URL is listed where it is the whole of a match, once; a path of an asset is listed where a
/// match took it, without the punctuation behind it.
pub proof fn law_links_are_listed(s: Seq<char>, t: Seq<char>, end: Seq<char>)
    requires
        t.len() > 0,
        !seq!['.', ',', ';'].contains(t.last()),
        forall|i: int| 0 <= i < end.len() ==> seq!['.', ',', ';'].contains(#[trigger] end[i]),
    ensures
        urls_in(s).no_duplicates(),
        urls_in(s).contains(t) <==> group_column(
            s,
            pattern::regex_captures(pattern::URL@, s),
            0,
        ).contains(t),
        asset_paths_in(s).no_duplicates(),
        group_column(s, pattern::regex_captures(pattern::RELATIVE_ASSET@, s), 1).contains(t + end)
            ==> asset_paths_in(s).contains(t),
        without_punctuation(t + end) == t,
{
    let ms = pattern::regex_captures(pattern::RELATIVE_ASSET@, s);
    let column = group_column(s, ms, 1);
    let paths = path_column(s, ms);
    text::lemma_unique(group_column(s, pattern::regex_captures(pattern::URL@, s), 0));
    text::lemma_unique(text::nonempty(paths));
    lemma_punctuation_goes(t, end);
    if column.contains(t + end) {
        let i = choose|i: int| 0 <= i < column.len() && column[i] == t + end;
        assert(paths[i] == t);
        lemma_nonempty_keeps(paths, i);
    }
}

/// Punctuation behind a text is removed.
proof fn lemma_punctuation_goes(t: Seq<char>, end: Seq<char>)
    requires
        t.len() > 0,
        !seq!['.', ',', ';'].contains(t.last()),
        forall|i: int| 0 <= i < end.len() ==> seq!['.', ',', ';'].contains(#[trigger] end[i]),
    ensures
        without_punctuation(t + end) == t,
    decreases end.len(),
{
    let marks = seq!['.', ',', ';'];
    assert(marks[0] == '.' && marks[1] == ',' && marks[2] == ';');
    let all = t + end;
    if end.len() > 0 {
        let last = end[end.len() - 1];
        assert(marks.contains(last));
        let k = choose|k: int| 0 <= k < marks.len() && marks[k] == last;
        assert(is_punctuation(last));
        assert(all.last() == last);
        assert forall|i: int| 0 <= i < end.drop_last().len() implies marks.contains(
            #[trigger] end.drop_last()[i],
        ) by {
            assert(end.drop_last()[i] == end[i]);
        }
        lemma_punctuation_goes(t, end.drop_last());
        assert(all.drop_last() =~= t + end.drop_last());
    } else {
        assert(all =~= t);
        assert(!is_punctuation(t.last())) by {
            if is_punctuation(t.last()) {
                assert(marks.contains(t.last()));
            }
        }
    }
}

/// A text that is not empty is kept.
proof fn lemma_nonempty_keeps(list: Seq<Seq<char>>, i: int)
    requires
        0 <= i < list.len(),
        list[i].len() > 0,
    ensures
        text::nonempty(list).contains(list[i]),
    decreases list.len(),
{
    let kept = text::nonempty(list);
    if i < list.len() - 1 {
        let front = list.drop_last();
        lemma_nonempty_keeps(front, i);
        assert(front[i] == list[i]);
        let k = choose|k: int|
            0 <= k < text::nonempty(front).len() && text::nonempty(front)[k] == list[i];
        assert(kept[k] == list[i]);
    } else {
        assert(kept[kept.len() - 1] == list[i]);
    }
}

} // verus!
