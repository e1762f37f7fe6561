//! The recorded exchange of one request and its response.
use crate::codec;
use crate::text;
use vstd::prelude::*;
use vstd::slice::slice_to_vec;

verus! {

/// The encoding of a body that is stored as text.
pub const ENCODING_UTF8: &'static str = "utf8";

/// The encoding of a body that is stored in base64.
pub const ENCODING_BASE64: &'static str = "base64";

/// A recorded exchange: request and response as they were.
#[derive(Debug)]
pub struct Snapshot {
    /// The number of the recording, at least six digits.
    pub id: String,
    /// The upstream, such as `http://10.1.2.3:8080`.
    pub origin: String,
    /// When it was recorded (RFC 3339).
    pub recorded_at: String,
    /// How long the upstream took, in milliseconds.
    pub duration_ms: u64,
    pub request: RequestRecord,
    pub response: ResponseRecord,
}

/// The request of a recorded exchange.
#[derive(Debug)]
pub struct RequestRecord {
    pub method: String,
    /// The absolute URL with path and query.
    pub url: String,
    pub headers: Vec<(String, String)>,
    pub body: String,
    pub body_encoding: String,
}

/// The response of a recorded exchange.
#[derive(Debug)]
pub struct ResponseRecord {
    pub status: u16,
    pub headers: Vec<(String, String)>,
    pub body: String,
    pub body_encoding: String,
}

/// The model of a header list: names and values in order.
pub type HeaderTexts = Seq<(Seq<char>, Seq<char>)>;

/// The view of a header list.
pub open spec fn header_texts(headers: Seq<(String, String)>) -> HeaderTexts {
    headers.map_values(|h: (String, String)| (h.0@, h.1@))
}

/// The text under which a body is stored: itself where it is UTF-8, else its base64.
pub open spec fn stored_body(bytes: Seq<u8>) -> Seq<char> {
    if vstd::utf8::valid_utf8(bytes) {
        vstd::utf8::decode_utf8(bytes)
    } else {
        codec::base64_encoded(bytes)
    }
}

/// The encoding under which a body is stored.
pub open spec fn stored_encoding(bytes: Seq<u8>) -> Seq<char> {
    if vstd::utf8::valid_utf8(bytes) {
        ENCODING_UTF8@
    } else {
        ENCODING_BASE64@
    }
}

/// The bytes that a stored body stands for; none where its base64 is malformed.
pub open spec fn body_bytes(body: Seq<char>, encoding: Seq<char>) -> Seq<u8> {
    if encoding == ENCODING_BASE64@ {
        match codec::base64_decoded(body) {
            Some(bytes) => bytes,
            None => Seq::empty(),
        }
    } else {
        vstd::utf8::encode_utf8(body)
    }
}

/// Turns a body into text and encoding. No byte is lost: decoding gives the body back.
pub fn encode_body(bytes: &[u8]) -> (r: (String, String))
    ensures
        r.0@ == stored_body(bytes@),
        r.1@ == stored_encoding(bytes@),
        body_bytes(r.0@, r.1@) == bytes@,
{
    match text::utf8(bytes) {
        Some(s) => {
            proof {
                reveal_strlit("utf8");
                reveal_strlit("base64");
                assert(ENCODING_UTF8@.len() == 4);
                assert(ENCODING_BASE64@.len() == 6);
                vstd::utf8::decode_utf8_encode_utf8(bytes@);
            }
            (text::owned(s), text::owned(ENCODING_UTF8))
        },
        None => (codec::base64_encode(bytes), text::owned(ENCODING_BASE64)),
    }
}

/// Turns text and encoding back into a body.
pub fn decode_body(body: &str, encoding: &str) -> (r: Vec<u8>)
    ensures
        r@ == body_bytes(body@, encoding@),
{
    if text::same(encoding, ENCODING_BASE64) {
        match codec::base64_decode(body) {
            Some(bytes) => bytes,
            None => {
                let none: Vec<u8> = Vec::new();
                assert(none@ =~= Seq::<u8>::empty());
                none
            },
        }
    } else {
        slice_to_vec(body.as_bytes())
    }
}

/// A body of text is stored as it is and any other in base64, and either says so; what is stored
/// as text is read as text, and what is stored in base64 as what that stands for.
pub proof fn law_bodies_are_stored(bytes: Seq<u8>, s: Seq<char>, encoding: Seq<char>)
    ensures
        bytes == vstd::utf8::encode_utf8(s) ==> stored_body(bytes) == s && stored_encoding(bytes)
            == "utf8"@,
        !vstd::utf8::valid_utf8(bytes) ==> stored_body(bytes) == codec::base64_encoded(bytes)
            && stored_encoding(bytes) == "base64"@,
        encoding != "base64"@ ==> body_bytes(s, encoding) == vstd::utf8::encode_utf8(s),
        codec::base64_decoded(s) == Some(bytes) ==> body_bytes(s, "base64"@) == bytes,
        codec::base64_decoded(s) is None ==> body_bytes(s, "base64"@).len() == 0,
{
    vstd::utf8::encode_utf8_valid_utf8(s);
    vstd::utf8::encode_utf8_decode_utf8(s);
}

} // verus!
