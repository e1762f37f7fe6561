//! Requests and responses, as plain values.
use crate::http_util::RequestUri;
use crate::text;
use vstd::prelude::*;
use vstd::slice::slice_to_vec;

verus! {

/// A header: its name, and its value as it was sent.
#[derive(Debug)]
pub struct HttpHeader {
    pub name: String,
    pub value: Vec<u8>,
}

/// A request.
pub struct HttpRequest {
    pub method: String,
    pub uri: RequestUri,
    pub headers: Vec<HttpHeader>,
    pub body: Vec<u8>,
}

/// A response.
#[derive(Debug)]
pub struct HttpResponse {
    pub status: u16,
    pub headers: Vec<HttpHeader>,
    pub body: Vec<u8>,
}

/// The model of a header: name and value.
pub type Header = (Seq<char>, Seq<u8>);

/// The model of a response.
#[verifier::ext_equal]
pub struct Reply {
    /// The status code.
    pub status: u16,
    /// The headers in order.
    pub headers: Seq<Header>,
    /// The body.
    pub body: Seq<u8>,
}

impl View for HttpHeader {
    type V = Header;

    open spec fn view(&self) -> Header {
        (self.name@, self.value@)
    }
}

/// The view of a list of headers.
pub open spec fn header_views(headers: Seq<HttpHeader>) -> Seq<Header> {
    headers.map_values(|h: HttpHeader| h@)
}

impl View for HttpResponse {
    type V = Reply;

    open spec fn view(&self) -> Reply {
        Reply { status: self.status, headers: header_views(self.headers@), body: self.body@ }
    }
}

/// Appending a header appends its view.
pub proof fn lemma_header_push(headers: Seq<HttpHeader>, h: HttpHeader)
    ensures
        header_views(headers.push(h)) == header_views(headers).push(h@),
{
    assert(header_views(headers.push(h)) =~= header_views(headers).push(h@));
}

// ---------------------------------------------------------------------------
// Header values as text
// ---------------------------------------------------------------------------

/// Whether a byte is visible ASCII, a space or a tab.
pub open spec fn is_visible(b: u8) -> bool {
    b == 9 || 32 <= b < 127
}

/// The text of a header value that is visible ASCII.
pub open spec fn visible_text(value: Seq<u8>) -> Option<Seq<char>> {
    if forall|i: int| 0 <= i < value.len() ==> is_visible(#[trigger] value[i]) {
        Some(Seq::new(value.len(), |i: int| value[i] as char))
    } else {
        None
    }
}

/// Reads a header value that is visible ASCII.
pub fn read_visible(value: &[u8]) -> (r: Option<String>)
    ensures
        text::opt_text(r) == visible_text(value@),
{
    let n: usize = value.len();
    let mut out: Vec<char> = Vec::new();
    let mut i: usize = 0;
    while i < n
        invariant
            i <= n == value@.len(),
            out@.len() == i,
            forall|j: int| 0 <= j < i ==> is_visible(#[trigger] value@[j]),
            forall|j: int| 0 <= j < i ==> #[trigger] out@[j] == value@[j] as char,
        decreases n - i,
    {
        let b: u8 = value[i];
        if !(b == 9 || (32 <= b && b < 127)) {
            assert(!is_visible(value@[i as int]));
            return None;
        }
        out.push(b as char);
        i += 1;
    }
    assert(out@ =~= Seq::new(value@.len(), |i: int| value@[i] as char));
    Some(text::string_of(&out))
}

/// The value of the first header with a name in lower case.
pub open spec fn header_value(headers: Seq<Header>, name: Seq<char>) -> Option<Seq<u8>>
    decreases headers.len(),
{
    if headers.len() == 0 {
        None
    } else if text::lowered(headers[0].0) == name {
        Some(headers[0].1)
    } else {
        header_value(headers.drop_first(), name)
    }
}

/// The text of the first header with a name in lower case; empty where there is none, or where
/// it is not visible ASCII.
pub open spec fn header_text(headers: Seq<Header>, name: Seq<char>) -> Seq<char> {
    match header_value(headers, name) {
        Some(value) => match visible_text(value) {
            Some(t) => t,
            None => Seq::empty(),
        },
        None => Seq::empty(),
    }
}

/// Whether a header has a name, whatever its case.
pub fn is_named(h: &HttpHeader, name: &str) -> (r: bool)
    ensures
        r == (text::lowered(h.name@) == name@),
{
    text::same(&text::lower_string(&h.name), name)
}

/// Finds the first header with a name in lower case.
pub fn find_header(headers: &[HttpHeader], name: &str) -> (r: Option<usize>)
    ensures
        match r {
            Some(i) => i < headers@.len() && header_value(header_views(headers@), name@) == Some(
                headers@[i as int].value@,
            ),
            None => header_value(header_views(headers@), name@) is None,
        },
{
    let ghost views = header_views(headers@);
    let n: usize = headers.len();
    let mut i: usize = 0;
    assert(views.skip(0) =~= views);
    while i < n
        invariant
            i <= n == headers@.len(),
            views == header_views(headers@),
            header_value(views, name@) == header_value(views.skip(i as int), name@),
        decreases n - i,
    {
        assert(views.skip(i as int)[0] == headers@[i as int]@);
        if is_named(&headers[i], name) {
            return Some(i);
        }
        assert(views.skip(i as int).drop_first() =~= views.skip(i + 1));
        i += 1;
    }
    None
}

/// The text of the first header with a name in lower case.
pub fn read_header(headers: &[HttpHeader], name: &str) -> (r: String)
    ensures
        r@ == header_text(header_views(headers@), name@),
{
    match find_header(headers, name) {
        Some(i) => match read_visible(&headers[i].value) {
            Some(t) => t,
            None => String::new(),
        },
        None => String::new(),
    }
}

/// A header with a text for its value.
pub open spec fn text_header(name: Seq<char>, value: Seq<char>) -> Header {
    (name, vstd::utf8::encode_utf8(value))
}

/// Makes a header with a text for its value.
pub fn make_header(name: &str, value: &str) -> (r: HttpHeader)
    ensures
        r@ == text_header(name@, value@),
{
    HttpHeader { name: text::owned(name), value: text::bytes_of(value) }
}

/// Copies a header.
pub fn copy_header(h: &HttpHeader) -> (r: HttpHeader)
    ensures
        r@ == h@,
{
    HttpHeader { name: h.name.clone(), value: slice_to_vec(&h.value) }
}

// ---------------------------------------------------------------------------
// Plain answers
// ---------------------------------------------------------------------------

/// An answer in plain text.
pub open spec fn plain_reply(status: u16, message: Seq<char>) -> Reply {
    Reply {
        status,
        headers: seq![text_header("content-type"@, "text/plain; charset=utf-8"@)],
        body: vstd::utf8::encode_utf8(message),
    }
}

/// Makes an answer in plain text.
pub fn simple_response(status: u16, message: &str) -> (r: HttpResponse)
    ensures
        r@ == plain_reply(status, message@),
{
    let mut headers: Vec<HttpHeader> = Vec::new();
    headers.push(make_header("content-type", "text/plain; charset=utf-8"));
    let r = HttpResponse { status, headers, body: text::bytes_of(message) };
    assert(r@.headers =~= plain_reply(status, message@).headers);
    r
}

/// The query of a request: what follows the first question mark of its target.
pub open spec fn query_of(path_and_query: Option<Seq<char>>) -> Seq<char> {
    match path_and_query {
        Some(p) => match text::cut(p, '?') {
            Some((path, query)) => query,
            None => Seq::empty(),
        },
        None => Seq::empty(),
    }
}

/// Reads the query of a request.
pub fn read_query(uri: &RequestUri) -> (r: String)
    ensures
        r@ == query_of(uri@.path_and_query),
{
    match &uri.path_and_query {
        Some(p) => {
            let cs = text::chars_of(p);
            match text::split_once_at(&cs, '?') {
                Some((_, query)) => text::string_of(query),
                None => String::new(),
            }
        },
        None => String::new(),
    }
}

// ---------------------------------------------------------------------------
// Laws
// ---------------------------------------------------------------------------

/// The value of a header is that of the first with its name, whatever the case; there is none
/// exactly where no header has the name.
pub proof fn law_first_header_counts(headers: Seq<Header>, name: Seq<char>)
    ensures
        match header_value(headers, name) {
            Some(v) => exists|i: int|
                0 <= i < headers.len() && text::lowered((#[trigger] headers[i]).0) == name
                    && headers[i].1 == v && (forall|j: int|
                    0 <= j < i ==> text::lowered((#[trigger] headers[j]).0) != name),
            None => forall|j: int|
                0 <= j < headers.len() ==> text::lowered((#[trigger] headers[j]).0) != name,
        },
    decreases headers.len(),
{
    if headers.len() > 0 {
        let rest = headers.drop_first();
        if text::lowered(headers[0].0) == name {
            assert(headers[0].1 == headers[0].1);
        } else {
            law_first_header_counts(rest, name);
            match header_value(rest, name) {
                Some(v) => {
                    let i = choose|i: int|
                        0 <= i < rest.len() && text::lowered((#[trigger] rest[i]).0) == name
                            && rest[i].1 == v && (forall|j: int|
                            0 <= j < i ==> text::lowered((#[trigger] rest[j]).0) != name);
                    assert(headers[i + 1] == rest[i]);
                    assert forall|j: int| 0 <= j < i + 1 implies text::lowered(
                        (#[trigger] headers[j]).0,
                    ) != name by {
                        if j > 0 {
                            assert(headers[j] == rest[j - 1]);
                        }
                    }
                },
                None => {
                    assert forall|j: int| 0 <= j < headers.len() implies text::lowered(
                        (#[trigger] headers[j]).0,
                    ) != name by {
                        if j > 0 {
                            assert(headers[j] == rest[j - 1]);
                        }
                    }
                },
            }
        }
    }
}

/// A header that holds printable ASCII is read letter for letter; one with any other byte is not
/// read.
pub proof fn law_header_is_read(name: Seq<char>, value: Seq<u8>, rest: Seq<Header>)
    requires
        text::lowered(name) == name,
    ensures
        (forall|i: int|
            0 <= i < value.len() ==> 32 <= #[trigger] value[i] <= 126 || value[i] == 9) ==> {
            let r = header_text(seq![(name, value)] + rest, name);
            r.len() == value.len() && forall|i: int|
                0 <= i < value.len() ==> #[trigger] r[i] as int == value[i] as int
        },
        (exists|i: int|
            0 <= i < value.len() && (#[trigger] value[i] > 126 || value[i] < 32 && value[i]
                != 9)) ==> header_text(
            seq![(name, value)] + rest,
            name,
        ).len() == 0,
{
    let all = seq![(name, value)] + rest;
    assert(all[0] == (name, value));
    assert(header_value(all, name) == Some(value));
    if exists|i: int|
        0 <= i < value.len() && (#[trigger] value[i] > 126 || value[i] < 32 && value[i] != 9) {
        let i = choose|i: int|
            0 <= i < value.len() && (#[trigger] value[i] > 126 || value[i] < 32 && value[i] != 9);
        assert(!is_visible(value[i]));
    }
}

/// A plain answer has its status, its message as the body, and says that it is plain text.
pub proof fn law_plain_answer(status: u16, message: Seq<char>)
    ensures
        plain_reply(status, message).status == status,
        plain_reply(status, message).body == vstd::utf8::encode_utf8(message),
        plain_reply(status, message).headers == seq![
            ("content-type"@, vstd::utf8::encode_utf8("text/plain; charset=utf-8"@)),
        ],
{
}

/// The query is what follows the first question mark.
pub proof fn law_query(path: Seq<char>, query: Seq<char>)
    requires
        !path.contains('?'),
    ensures
        query_of(Some(path + seq!['?'] + query)) == query,
        query_of(Some(path)).len() == 0,
        query_of(None).len() == 0,
{
    text::law_cut(path, '?', query);
}

} // verus!
