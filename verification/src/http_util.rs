//! Requests as a proxy sees them: what their target is, and which headers concern one hop only.
use crate::percent;
use crate::text;
use vstd::prelude::*;

verus! {

/// The target of a request line, in its parts.
pub struct RequestUri {
    /// The scheme, in absolute form.
    pub scheme: Option<String>,
    /// The authority, in absolute form.
    pub authority: Option<String>,
    /// The path with query, where the target has one.
    pub path_and_query: Option<String>,
    /// The path; empty where the target has none.
    pub path: String,
}

/// The model of a request line's target.
pub struct UriParts {
    /// The scheme.
    pub scheme: Option<Seq<char>>,
    /// The authority.
    pub authority: Option<Seq<char>>,
    /// The path with query.
    pub path_and_query: Option<Seq<char>>,
    /// The path.
    pub path: Seq<char>,
}

impl View for RequestUri {
    type V = UriParts;

    open spec fn view(&self) -> UriParts {
        UriParts {
            scheme: text::opt_text(self.scheme),
            authority: text::opt_text(self.authority),
            path_and_query: text::opt_text(self.path_and_query),
            path: self.path@,
        }
    }
}

/// Where a proxy request leads to.
#[derive(Debug, PartialEq, Eq)]
pub struct RequestTarget {
    pub scheme: String,
    pub authority: String,
    pub path_and_query: String,
    /// Whether the target stands behind a prefix in the path (`/http://host/path`), rather than
    /// in the absolute form of a proxy request.
    pub prefix: bool,
}

/// The model of a proxy request's target.
pub struct Target {
    /// The scheme, in lower case.
    pub scheme: Seq<char>,
    /// The authority.
    pub authority: Seq<char>,
    /// The path with query.
    pub path_and_query: Seq<char>,
    /// Whether it stands behind a prefix.
    pub prefix: bool,
}

impl View for RequestTarget {
    type V = Target;

    open spec fn view(&self) -> Target {
        Target {
            scheme: self.scheme@,
            authority: self.authority@,
            path_and_query: self.path_and_query@,
            prefix: self.prefix,
        }
    }
}

impl Clone for RequestTarget {
    fn clone(&self) -> (r: Self)
        ensures
            r@ == self@,
    {
        RequestTarget {
            scheme: self.scheme.clone(),
            authority: self.authority.clone(),
            path_and_query: self.path_and_query.clone(),
            prefix: self.prefix,
        }
    }
}

/// The view of an optional target.
pub open spec fn opt_target(o: Option<RequestTarget>) -> Option<Target> {
    match o {
        Some(t) => Some(t@),
        None => None,
    }
}

// ---------------------------------------------------------------------------
// The mark of a scheme
// ---------------------------------------------------------------------------

/// The length of the colon at the start of a text: literal, as `%3A`, or as the space that some
/// browsers put in its place; 0 where there is none.
pub open spec fn colon_len(s: Seq<char>) -> int {
    if s.len() > 0 && (s[0] == ':' || s[0] == ' ') {
        1
    } else if "%3A"@.is_prefix_of(s) || "%3a"@.is_prefix_of(s) || "%20"@.is_prefix_of(s) {
        3
    } else {
        0
    }
}

/// The length of the slash at the start of a text: literal, or as `%2F`; 0 where there is none.
pub open spec fn slash_len(s: Seq<char>) -> int {
    if s.len() > 0 && s[0] == '/' {
        1
    } else if "%2F"@.is_prefix_of(s) || "%2f"@.is_prefix_of(s) {
        3
    } else {
        0
    }
}

/// The scheme at the start of a text, whatever its case: `https` or `http`.
pub open spec fn scheme_at_start(s: Seq<char>) -> Option<Seq<char>> {
    if s.len() >= 5 && text::lowered(s.take(5)) == "https"@ {
        Some("https"@)
    } else if s.len() >= 4 && text::lowered(s.take(4)) == "http"@ {
        Some("http"@)
    } else {
        None
    }
}

/// The mark of a scheme at the start of a text: the scheme, a colon, and one or two slashes.
/// What comes out is the scheme, the length of the mark, and the number of slashes.
pub open spec fn scheme_mark(s: Seq<char>) -> Option<(Seq<char>, int, int)> {
    match scheme_at_start(s) {
        Some(scheme) => {
            let n = scheme.len() as int;
            let colon = colon_len(s.skip(n));
            let first = slash_len(s.skip(n + colon));
            let second = slash_len(s.skip(n + colon + first));
            if colon == 0 || first == 0 {
                None
            } else {
                Some(
                    (
                        scheme,
                        n + colon + first + second,
                        if second > 0 {
                            2int
                        } else {
                            1int
                        },
                    ),
                )
            }
        },
        None => None,
    }
}

/// Measures the colon at the start of a text.
fn measure_colon(s: &[char]) -> (r: usize)
    ensures
        r == colon_len(s@),
        r <= s@.len(),
{
    if s.len() > 0 && (s[0] == ':' || s[0] == ' ') {
        return 1;
    }
    proof {
        reveal_strlit("%3A");
        reveal_strlit("%3a");
        reveal_strlit("%20");
    }
    if text::starts_with(s, &text::chars_of("%3A")) || text::starts_with(
        s,
        &text::chars_of("%3a"),
    ) || text::starts_with(s, &text::chars_of("%20")) {
        3
    } else {
        0
    }
}

/// Measures the slash at the start of a text.
fn measure_slash(s: &[char]) -> (r: usize)
    ensures
        r == slash_len(s@),
        r <= s@.len(),
{
    if s.len() > 0 && s[0] == '/' {
        return 1;
    }
    proof {
        reveal_strlit("%2F");
        reveal_strlit("%2f");
    }
    if text::starts_with(s, &text::chars_of("%2F")) || text::starts_with(
        s,
        &text::chars_of("%2f"),
    ) {
        3
    } else {
        0
    }
}

/// Recognises the mark of a scheme at the start of a text. Browsers may have percent-encoded the
/// colon and the slashes, and some libraries fold the two slashes into one.
pub fn split_scheme_prefix(s: &[char]) -> (r: Option<(&'static str, usize, usize)>)
    ensures
        match r {
            Some((scheme, consumed, slashes)) => scheme_mark(s@) == Some(
                (scheme@, consumed as int, slashes as int),
            ) && consumed <= s@.len(),
            None => scheme_mark(s@) is None,
        },
{
    proof {
        reveal_strlit("https");
        reveal_strlit("http");
    }
    let scheme: &'static str;
    let n: usize;
    if s.len() >= 5 && text::same(
        &text::string_of(&text::to_lower(text::take(s, 5))),
        "https",
    ) {
        scheme = "https";
        n = 5;
    } else if s.len() >= 4 && text::same(
        &text::string_of(&text::to_lower(text::take(s, 4))),
        "http",
    ) {
        scheme = "http";
        n = 4;
    } else {
        return None;
    }
    let rest = text::skip(s, n);
    let colon: usize = measure_colon(rest);
    let rest = text::skip(rest, colon);
    assert(rest@ =~= s@.skip(n + colon));
    let first: usize = measure_slash(rest);
    let rest = text::skip(rest, first);
    assert(rest@ =~= s@.skip(n + colon + first));
    let second: usize = measure_slash(rest);
    if colon == 0 || first == 0 {
        return None;
    }
    let slashes: usize = if second > 0 {
        2
    } else {
        1
    };
    Some((scheme, s.len() - rest.len() + second, slashes))
}

// ---------------------------------------------------------------------------
// The target of a request
// ---------------------------------------------------------------------------

/// Where the authority ends in what follows the mark of a scheme: at the first slash or, where
/// there is none, at the first question mark.
pub open spec fn authority_end(s: Seq<char>) -> int {
    let slash = text::upto(s, '/', '/');
    if slash < s.len() {
        slash
    } else {
        text::upto(s, '?', '?')
    }
}

/// The path with query of a target; the root where it is empty.
pub open spec fn or_root(s: Seq<char>) -> Seq<char> {
    if s.len() == 0 {
        "/"@
    } else {
        s
    }
}

/// The target that stands behind a prefix: `/http://host:port/path`. Escapes are decoded in the
/// authority only; path and query stay as they are.
pub open spec fn prefixed_target(s: Seq<char>) -> Option<Target> {
    match text::stripped(s, "/"@) {
        Some(rest) => match scheme_mark(rest) {
            Some((scheme, consumed, slashes)) => {
                let after = rest.skip(consumed);
                let end = authority_end(after);
                let authority = percent::percent_decoded(after.take(end), false);
                if end == 0 || authority.len() == 0 || authority.contains('#') {
                    None
                } else {
                    Some(
                        Target {
                            scheme,
                            authority,
                            path_and_query: or_root(after.skip(end)),
                            prefix: true,
                        },
                    )
                }
            },
            None => None,
        },
        None => None,
    }
}

/// The target of a request: of the absolute form `http://host/path` of a proxy request, or of
/// the prefixed path `/http://host/path`. A request of another form has none.
pub open spec fn proxy_target(uri: UriParts) -> Option<Target> {
    if uri.scheme is Some && uri.authority is Some {
        Some(
            Target {
                scheme: text::lowered(uri.scheme->0),
                authority: uri.authority->0,
                path_and_query: match uri.path_and_query {
                    Some(p) => or_root(p),
                    None => "/"@,
                },
                prefix: false,
            },
        )
    } else {
        prefixed_target(
            match uri.path_and_query {
                Some(p) => p,
                None => uri.path,
            },
        )
    }
}

/// The path with query of a target; the root where it is empty.
fn root_if_empty(s: &[char]) -> (r: String)
    ensures
        r@ == or_root(s@),
{
    if s.len() == 0 {
        text::owned("/")
    } else {
        text::string_of(s)
    }
}

/// Whether a text holds a character.
fn holds(s: &[char], c: char) -> (r: bool)
    ensures
        r == s@.contains(c),
{
    let k: usize = text::index_of_either(s, c, c);
    proof {
        text::lemma_upto(s@, c, c);
        if k < s@.len() {
            assert(s@[k as int] == c);
        }
    }
    k < s.len()
}

/// Finds the target that stands behind a prefix.
pub fn parse_prefixed_target(target: &str) -> (r: Option<RequestTarget>)
    ensures
        opt_target(r) == prefixed_target(target@),
{
    let cs = text::chars_of(target);
    let rest = match text::strip(&cs, "/") {
        Some(rest) => rest,
        None => return None,
    };
    let (scheme, consumed, _) = match split_scheme_prefix(rest) {
        Some(mark) => mark,
        None => return None,
    };
    let after = text::skip(rest, consumed);
    let slash: usize = text::index_of_either(after, '/', '/');
    let end: usize = if slash < after.len() {
        slash
    } else {
        text::index_of_either(after, '?', '?')
    };
    if end == 0 {
        return None;
    }
    let authority = percent::percent_decode(
        &text::string_of(text::take(after, end)),
        false,
    );
    if authority.as_str().is_empty() || holds(&text::chars_of(&authority), '#') {
        return None;
    }
    Some(
        RequestTarget {
            scheme: text::owned(scheme),
            authority,
            path_and_query: root_if_empty(text::skip(after, end)),
            prefix: true,
        },
    )
}

/// Finds the target of a request.
///
/// Two forms are recognised: the absolute form of a proxy request
/// (`GET http://host:port/path`), and a prefixed path, for clients that cannot be given a proxy
/// and take `tape` for their server (`GET /http://host:port/path`).
pub fn parse_proxy_target(uri: &RequestUri) -> (r: Option<RequestTarget>)
    ensures
        opt_target(r) == proxy_target(uri@),
{
    if let (Some(scheme), Some(authority)) = (&uri.scheme, &uri.authority) {
        let path_and_query = match &uri.path_and_query {
            Some(p) => root_if_empty(&text::chars_of(p)),
            None => text::owned("/"),
        };
        return Some(
            RequestTarget {
                scheme: text::lower_string(scheme),
                authority: authority.clone(),
                path_and_query,
                prefix: false,
            },
        );
    }
    match &uri.path_and_query {
        Some(p) => parse_prefixed_target(p),
        None => parse_prefixed_target(&uri.path),
    }
}

/// The scheme and authority of a target.
pub open spec fn origin_text(t: Target) -> Seq<char> {
    t.scheme + "://"@ + t.authority
}

/// The absolute URL of a target.
pub open spec fn url_text(t: Target) -> Seq<char> {
    origin_text(t) + t.path_and_query
}

/// Writes the scheme and authority of a target.
pub fn origin_of(t: &RequestTarget) -> (r: String)
    ensures
        r@ == origin_text(t@),
{
    let mut out = text::chars_of(&t.scheme);
    text::push_str(&mut out, "://");
    text::push_str(&mut out, &t.authority);
    text::string_of(&out)
}

/// Writes the absolute URL of a target.
pub fn url_of(t: &RequestTarget) -> (r: String)
    ensures
        r@ == url_text(t@),
{
    let mut out = text::chars_of(&origin_of(t));
    text::push_str(&mut out, &t.path_and_query);
    text::string_of(&out)
}

// ---------------------------------------------------------------------------
// Headers
// ---------------------------------------------------------------------------

/// Whether a header name in lower case is of a header that concerns one hop only (RFC 7230).
pub open spec fn hop_by_hop(name: Seq<char>) -> bool {
    name == "connection"@ || name == "keep-alive"@ || name == "proxy-authenticate"@ || name
        == "proxy-authorization"@ || name == "te"@ || name == "trailer"@ || name
        == "transfer-encoding"@ || name == "upgrade"@
}

/// Whether a header name in lower case is of a header that concerns one hop only.
pub fn is_hop_by_hop(name: &str) -> (r: bool)
    ensures
        r == hop_by_hop(name@),
{
    text::same(name, "connection") || text::same(name, "keep-alive") || text::same(
        name,
        "proxy-authenticate",
    ) || text::same(name, "proxy-authorization") || text::same(name, "te") || text::same(
        name,
        "trailer",
    ) || text::same(name, "transfer-encoding") || text::same(name, "upgrade")
}

/// Whether a header name, whatever its case, is of a header that concerns one hop only.
pub fn is_hop_by_hop_str(name: &str) -> (r: bool)
    ensures
        r == hop_by_hop(text::lowered(name@)),
{
    is_hop_by_hop(&text::lower_string(name))
}

// ---------------------------------------------------------------------------
// Laws
// ---------------------------------------------------------------------------

/// Whether a text can stand as an authority before a path: it is not empty, and holds no
/// character that would end it or be decoded.
pub open spec fn is_authority(s: Seq<char>) -> bool {
    &&& s.len() > 0
    &&& forall|i: int|
        0 <= i < s.len() ==> (#[trigger] s[i]) != '/' && s[i] != '?' && s[i] != '#' && s[i] != '%'
}

/// Whether a text can follow an authority: nothing, a path, or a query without a slash.
pub open spec fn is_tail(s: Seq<char>) -> bool {
    ||| s.len() == 0
    ||| s[0] == '/'
    ||| s[0] == '?' && forall|i: int| 0 <= i < s.len() ==> (#[trigger] s[i]) != '/'
}

/// Whether a text is the name of a supported scheme, whatever its case.
pub open spec fn is_scheme(s: Seq<char>) -> bool {
    text::lowered(s) == "http"@ || text::lowered(s) == "https"@
}

/// The mark that a scheme's name, a colon and two slashes make.
proof fn lemma_scheme_mark(scheme: Seq<char>, rest: Seq<char>)
    requires
        is_scheme(scheme),
    ensures
        scheme_mark(scheme + "://"@ + rest) == Some(
            (text::lowered(scheme), scheme.len() as int + 3, 2int),
        ),
{
    let s = scheme + "://"@ + rest;
    let n = scheme.len() as int;
    reveal_strlit("http");
    reveal_strlit("https");
    reveal_strlit("://");
    let low = text::lowered(scheme);
    assert(low.len() == n);
    assert(s.len() >= n + 3);
    assert(s[n] == ':' && s[n + 1] == '/' && s[n + 2] == '/');
    if low == "https"@ {
        assert(s.take(5) =~= scheme);
    } else {
        assert(s.take(4) =~= scheme);
        assert(s.take(5)[4] == ':');
        assert(text::lowered(s.take(5))[4] == ':');
        assert("https"@[4] == 's');
    }
    assert(scheme_at_start(s) == Some(low));
    assert(s.skip(n)[0] == ':');
    assert(s.skip(n + 1)[0] == '/');
    assert(s.skip(n + 2)[0] == '/');
}

/// The authority ends where the tail begins.
proof fn lemma_authority_end(authority: Seq<char>, tail: Seq<char>)
    requires
        is_authority(authority),
        is_tail(tail),
    ensures
        authority_end(authority + tail) == authority.len(),
{
    let s = authority + tail;
    let n = authority.len() as int;
    assert forall|j: int| 0 <= j < n implies s[j] != '/' && s[j] != '?' by {
        assert(s[j] == authority[j]);
    }
    if tail.len() == 0 {
        text::lemma_upto_is(s, '/', '/', n);
        text::lemma_upto_is(s, '?', '?', n);
    } else if tail[0] == '/' {
        assert(s[n] == '/');
        text::lemma_upto_is(s, '/', '/', n);
    } else {
        assert(s[n] == '?');
        assert forall|j: int| 0 <= j < s.len() implies s[j] != '/' by {
            if j >= n {
                assert(s[j] == tail[j - n]);
            }
        }
        text::lemma_upto_is(s, '/', '/', s.len() as int);
        text::lemma_upto_is(s, '?', '?', n);
    }
}

/// A prefixed path is recognised: behind `/` any `http` or `https` address is found again, with
/// its scheme in lower case and its path and query as they were.
pub proof fn law_prefixed_address_is_found(
    scheme: Seq<char>,
    authority: Seq<char>,
    tail: Seq<char>,
)
    requires
        is_scheme(scheme),
        is_authority(authority),
        is_tail(tail),
    ensures
        prefixed_target("/"@ + (scheme + "://"@ + authority + tail)) == Some(
            (Target {
                scheme: text::lowered(scheme),
                authority,
                path_and_query: or_root(tail),
                prefix: true,
            }),
        ),
{
    let address = scheme + "://"@ + authority + tail;
    let s = "/"@ + address;
    reveal_strlit("/");
    reveal_strlit("://");
    assert(s.skip(1) =~= address);
    assert("/"@.is_prefix_of(s));
    let rest = authority + tail;
    assert(address =~= scheme + "://"@ + rest);
    lemma_scheme_mark(scheme, rest);
    let consumed = scheme.len() as int + 3;
    assert(address.skip(consumed) =~= rest);
    lemma_authority_end(authority, tail);
    assert(rest.take(authority.len() as int) =~= authority);
    assert(rest.skip(authority.len() as int) =~= tail);
    percent::law_plain_text_decodes_to_itself(authority, false);
    assert(!authority.contains('#'));
}

/// The headers that concern one hop only are the eight of RFC 7230.
pub proof fn law_hop_by_hop(name: Seq<char>)
    ensures
        hop_by_hop(name) <==> seq![
            "connection"@,
            "keep-alive"@,
            "proxy-authenticate"@,
            "proxy-authorization"@,
            "te"@,
            "trailer"@,
            "transfer-encoding"@,
            "upgrade"@,
        ].contains(name),
{
    let list = seq![
        "connection"@,
        "keep-alive"@,
        "proxy-authenticate"@,
        "proxy-authorization"@,
        "te"@,
        "trailer"@,
        "transfer-encoding"@,
        "upgrade"@,
    ];
    assert(list[0] == "connection"@ && list[1] == "keep-alive"@);
    assert(list[2] == "proxy-authenticate"@ && list[3] == "proxy-authorization"@);
    assert(list[4] == "te"@ && list[5] == "trailer"@);
    assert(list[6] == "transfer-encoding"@ && list[7] == "upgrade"@);
    if list.contains(name) {
        let i = choose|i: int| 0 <= i < list.len() && list[i] == name;
        assert(list[i] == name);
    }
}

/// A request in absolute form asks for what its line names: the scheme in lower case, the
/// authority, and the path with query as they are; the root where there is no path.
pub proof fn law_absolute_form(uri: UriParts, scheme: Seq<char>, authority: Seq<char>)
    requires
        uri.scheme == Some(scheme),
        uri.authority == Some(authority),
    ensures
        proxy_target(uri) matches Some(t) && t.scheme == text::lowered(scheme) && t.authority
            == authority && !t.prefix && t.path_and_query == match uri.path_and_query {
            Some(p) => if p.len() == 0 {
                "/"@
            } else {
                p
            },
            None => "/"@,
        },
{
}

/// A request that names no authority asks for what stands behind a prefix in its path with query
/// and, where it has none, in its path.
pub proof fn law_other_forms(uri: UriParts)
    requires
        uri.scheme is None || uri.authority is None,
    ensures
        uri.path_and_query matches Some(p) ==> proxy_target(uri) == prefixed_target(p),
        uri.path_and_query is None ==> proxy_target(uri) == prefixed_target(uri.path),
{
}

/// The colon and the slashes of a prefixed address may be percent-encoded, one slash may be
/// missing, and a space may stand for the colon: the address is found all the same, with the
/// escapes of its authority decoded, and its path and query as they are.
pub proof fn law_altered_prefix_is_found(
    scheme: Seq<char>,
    colon: Seq<char>,
    first: Seq<char>,
    second: Seq<char>,
    authority: Seq<char>,
    tail: Seq<char>,
)
    requires
        is_scheme(scheme),
        colon == ":"@ || colon == "%3A"@ || colon == "%3a"@ || colon == " "@ || colon == "%20"@,
        first == "/"@ || first == "%2F"@ || first == "%2f"@,
        second == "/"@ || second == "%2F"@ || second == "%2f"@ || second.len() == 0,
        is_authority(authority),
        is_tail(tail),
    ensures
        prefixed_target("/"@ + (scheme + colon + first + second + (authority + tail))) == Some(
            (Target {
                scheme: text::lowered(scheme),
                authority,
                path_and_query: or_root(tail),
                prefix: true,
            }),
        ),
{
    let rest = authority + tail;
    let address = scheme + colon + first + second + rest;
    let s = "/"@ + address;
    reveal_strlit("/");
    assert("/"@.is_prefix_of(s));
    assert(s.skip(1) =~= address);
    lemma_altered_mark(scheme, colon, first, second, rest);
    let consumed = (scheme.len() + colon.len() + first.len() + second.len()) as int;
    assert(address.skip(consumed) =~= rest);
    lemma_authority_end(authority, tail);
    assert(rest.take(authority.len() as int) =~= authority);
    assert(rest.skip(authority.len() as int) =~= tail);
    percent::law_plain_text_decodes_to_itself(authority, false);
    assert(!authority.contains('#'));
}

/// The mark that a scheme's name, a colon and slashes make, as browsers alter them.
proof fn lemma_altered_mark(
    scheme: Seq<char>,
    colon: Seq<char>,
    first: Seq<char>,
    second: Seq<char>,
    rest: Seq<char>,
)
    requires
        is_scheme(scheme),
        colon == ":"@ || colon == "%3A"@ || colon == "%3a"@ || colon == " "@ || colon == "%20"@,
        first == "/"@ || first == "%2F"@ || first == "%2f"@,
        second == "/"@ || second == "%2F"@ || second == "%2f"@ || second.len() == 0,
        rest.len() > 0,
        rest[0] != '/',
        rest[0] != '%',
    ensures
        scheme_mark(scheme + colon + first + second + rest) == Some(
            (
                text::lowered(scheme),
                (scheme.len() + colon.len() + first.len() + second.len()) as int,
                if second.len() > 0 {
                    2int
                } else {
                    1int
                },
            ),
        ),
{
    let n = scheme.len() as int;
    let c = second + rest;
    let b = first + c;
    let a = colon + b;
    let s = scheme + a;
    assert(scheme + colon + first + second + rest =~= s);
    lemma_colon(colon, b);
    lemma_scheme_before(scheme, a);
    lemma_slash(first, c);
    if second.len() > 0 {
        lemma_slash(second, rest);
    } else {
        assert(c =~= rest);
        lemma_no_slash(rest);
    }
    lemma_skipped(scheme, a);
    lemma_skipped(scheme + colon, b);
    assert(s =~= scheme + colon + b);
    lemma_skipped(scheme + colon + first, c);
    assert(s =~= scheme + colon + first + c);
    lemma_mark(
        s,
        text::lowered(scheme),
        colon.len() as int,
        first.len() as int,
        second.len() as int,
    );
}

/// What is left of a text without its front.
proof fn lemma_skipped(a: Seq<char>, b: Seq<char>)
    ensures
        (a + b).skip(a.len() as int) == b,
{
    assert((a + b).skip(a.len() as int) =~= b);
}

/// A scheme, a colon and one or two slashes make a mark.
proof fn lemma_mark(s: Seq<char>, scheme: Seq<char>, colon: int, first: int, second: int)
    requires
        scheme_at_start(s) == Some(scheme),
        colon_len(s.skip(scheme.len() as int)) == colon,
        slash_len(s.skip(scheme.len() + colon)) == first,
        slash_len(s.skip(scheme.len() + colon + first)) == second,
        colon > 0,
        first > 0,
    ensures
        scheme_mark(s) == Some(
            (
                scheme,
                scheme.len() + colon + first + second,
                if second > 0 {
                    2int
                } else {
                    1int
                },
            ),
        ),
{
}

/// A scheme is found at the start, whatever follows it but the letter that would make another.
proof fn lemma_scheme_before(scheme: Seq<char>, rest: Seq<char>)
    requires
        is_scheme(scheme),
        rest.len() > 0,
        text::lower(rest[0]) != 's',
    ensures
        scheme_at_start(scheme + rest) == Some(text::lowered(scheme)),
{
    reveal_strlit("http");
    reveal_strlit("https");
    let s = scheme + rest;
    let low = text::lowered(scheme);
    assert(low.len() == scheme.len());
    if low == "https"@ {
        assert(s.take(5) =~= scheme);
    } else {
        assert(s.take(4) =~= scheme);
        assert(s.take(5)[4] == rest[0]);
        assert(text::lowered(s.take(5))[4] == text::lower(rest[0]));
        assert("https"@[4] == 's');
    }
}

/// The colon behind a scheme, as it is or in one of the forms that clients make of it.
proof fn lemma_colon(colon: Seq<char>, rest: Seq<char>)
    requires
        colon == ":"@ || colon == "%3A"@ || colon == "%3a"@ || colon == " "@ || colon == "%20"@,
    ensures
        colon_len(colon + rest) == colon.len(),
        colon.len() > 0,
        text::lower((colon + rest)[0]) != 's',
{
    reveal_strlit(":");
    reveal_strlit(" ");
    reveal_strlit("%3A");
    reveal_strlit("%3a");
    reveal_strlit("%20");
    let a = colon + rest;
    assert(a[0] == colon[0]);
    assert(colon.is_prefix_of(a));
}

/// What begins with neither a slash nor an escape begins with no form of a slash.
proof fn lemma_no_slash(s: Seq<char>)
    requires
        s.len() > 0,
        s[0] != '/',
        s[0] != '%',
    ensures
        slash_len(s) == 0,
{
    reveal_strlit("%2F");
    reveal_strlit("%2f");
    if "%2F"@.is_prefix_of(s) {
        assert(s.subrange(0, 3)[0] == '%');
    }
    if "%2f"@.is_prefix_of(s) {
        assert(s.subrange(0, 3)[0] == '%');
    }
}

/// A slash, literal or percent-encoded, is measured.
proof fn lemma_slash(slash: Seq<char>, rest: Seq<char>)
    requires
        slash == "/"@ || slash == "%2F"@ || slash == "%2f"@,
    ensures
        slash_len(slash + rest) == slash.len(),
        slash.len() > 0,
{
    reveal_strlit("/");
    reveal_strlit("%2F");
    reveal_strlit("%2f");
    let s = slash + rest;
    assert(s[0] == slash[0]);
    assert(slash.is_prefix_of(s));
}

/// A path without a slash before a scheme's name, or with no scheme's name behind it, has no
/// target behind a prefix.
pub proof fn law_plain_paths_have_no_target(s: Seq<char>, rest: Seq<char>)
    requires
        rest.len() < 4 || text::lowered(rest.take(4)) != "http"@,
        s.len() == 0 || s[0] != '/',
    ensures
        prefixed_target("/"@ + rest) is None,
        prefixed_target(s) is None,
{
    reveal_strlit("/");
    reveal_strlit("http");
    reveal_strlit("https");
    let t = "/"@ + rest;
    text::law_stripped("/"@, rest, t);
    if scheme_at_start(rest) is Some {
        assert(rest.len() >= 5 && text::lowered(rest.take(5)) == "https"@);
        assert(text::lowered(rest.take(4)) =~= text::lowered(rest.take(5)).take(4));
        assert("https"@.take(4) =~= "http"@);
    }
    if "/"@.is_prefix_of(s) {
        assert(s.subrange(0, 1)[0] == '/');
    }
}

/// The origin of a target is its scheme and authority, and its URL has path and query behind
/// them.
pub proof fn law_url_of_target(t: Target)
    ensures
        origin_text(t) == t.scheme + "://"@ + t.authority,
        url_text(t) == t.scheme + "://"@ + t.authority + t.path_and_query,
{
}

/// An authority that holds a hash sign, or none at all, makes no target.
pub proof fn law_malformed_authorities_make_no_target(
    scheme: Seq<char>,
    front: Seq<char>,
    back: Seq<char>,
    path: Seq<char>,
)
    requires
        is_scheme(scheme),
        front.len() > 0,
        forall|i: int|
            0 <= i < front.len() ==> (#[trigger] front[i]) != '/' && front[i] != '?' && front[i]
                != '%',
        forall|i: int|
            0 <= i < back.len() ==> (#[trigger] back[i]) != '/' && back[i] != '?' && back[i] != '%',
        path.len() > 0,
        path[0] == '/',
    ensures
        prefixed_target(
            "/"@ + (scheme + ":"@ + "/"@ + "/"@ + (front + "#"@ + back + path)),
        ) is None,
{
    reveal_strlit("#");
    reveal_strlit("/");
    let authority = front + "#"@ + back;
    let rest = front + "#"@ + back + path;
    let address = scheme + ":"@ + "/"@ + "/"@ + rest;
    let s = "/"@ + address;
    text::law_stripped("/"@, address, s);
    assert(rest[0] == front[0]);
    lemma_altered_mark(scheme, ":"@, "/"@, "/"@, rest);
    let consumed = (scheme.len() + ":"@.len() + "/"@.len() + "/"@.len()) as int;
    assert(address.skip(consumed) =~= rest);
    let n = authority.len() as int;
    assert(rest =~= authority + path);
    assert forall|j: int| 0 <= j < n implies rest[j] != '/' by {
        assert(rest[j] == authority[j]);
    }
    assert(rest[n] == path[0]);
    text::lemma_upto_is(rest, '/', '/', n);
    assert(rest.take(n) =~= authority);
    percent::law_plain_text_decodes_to_itself(authority, false);
    assert(authority[front.len() as int] == '#');
    assert(authority.contains('#'));
}

} // verus!
