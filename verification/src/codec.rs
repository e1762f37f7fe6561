//! Content encodings, base64, and digests.
//!
//! The algorithms are those of the `flate2`, `brotli`, `base64`, `hex` and `sha2` crates. The
//! choice of the algorithm for a content encoding is made, and verified, here.
use crate::text;
use base64::Engine;
use sha2::Digest;
use std::io::{Read, Write};
use vstd::prelude::*;

verus! {

// ---------------------------------------------------------------------------
// The outside algorithms
// ---------------------------------------------------------------------------

/// What the first member of a gzip stream unpacks to; `None` where it is damaged.
pub uninterp spec fn gzip_decoded(bytes: Seq<u8>) -> Option<Seq<u8>>;

/// The gzip stream of some bytes at the default level; `None` where none could be made.
pub uninterp spec fn gzip_encoded(bytes: Seq<u8>) -> Option<Seq<u8>>;

/// What a zlib stream unpacks to; `None` where it is damaged.
pub uninterp spec fn zlib_decoded(bytes: Seq<u8>) -> Option<Seq<u8>>;

/// The zlib stream of some bytes at the default level; `None` where none could be made.
pub uninterp spec fn zlib_encoded(bytes: Seq<u8>) -> Option<Seq<u8>>;

/// What a deflate stream without a wrapper unpacks to; `None` where it is damaged.
pub uninterp spec fn deflate_decoded(bytes: Seq<u8>) -> Option<Seq<u8>>;

/// What a brotli stream unpacks to; `None` where it is damaged.
pub uninterp spec fn brotli_decoded(bytes: Seq<u8>) -> Option<Seq<u8>>;

/// The brotli stream of some bytes at quality 5 with a window of 20 bits; `None` where none
/// could be made.
pub uninterp spec fn brotli_encoded(bytes: Seq<u8>) -> Option<Seq<u8>>;

/// The base64 text of some bytes, with the standard alphabet and padding.
pub uninterp spec fn base64_encoded(bytes: Seq<u8>) -> Seq<char>;

/// What a base64 text stands for; `None` where it is malformed.
pub uninterp spec fn base64_decoded(s: Seq<char>) -> Option<Seq<u8>>;

/// The SHA-256 digest of some bytes.
pub uninterp spec fn sha256(bytes: Seq<u8>) -> Seq<u8>;

/// The view of an optional byte vector.
pub open spec fn opt_bytes(o: Option<Vec<u8>>) -> Option<Seq<u8>> {
    match o {
        Some(v) => Some(v@),
        None => None,
    }
}

/// Unpacks a gzip stream with `flate2::read::GzDecoder`.
///
/// Trusted: the result is a function of the bytes.
#[verifier::external_body]
fn gunzip(body: &[u8]) -> (r: Option<Vec<u8>>)
    ensures
        opt_bytes(r) == gzip_decoded(body@),
{
    let mut out = Vec::new();
    flate2::read::GzDecoder::new(body).read_to_end(&mut out).ok()?;
    Some(out)
}

/// Unpacks a zlib stream with `flate2::read::ZlibDecoder`.
///
/// Trusted: the result is a function of the bytes.
#[verifier::external_body]
fn unzlib(body: &[u8]) -> (r: Option<Vec<u8>>)
    ensures
        opt_bytes(r) == zlib_decoded(body@),
{
    let mut out = Vec::new();
    flate2::read::ZlibDecoder::new(body).read_to_end(&mut out).ok()?;
    Some(out)
}

/// Unpacks a bare deflate stream with `flate2::read::DeflateDecoder`.
///
/// Trusted: the result is a function of the bytes.
#[verifier::external_body]
fn inflate(body: &[u8]) -> (r: Option<Vec<u8>>)
    ensures
        opt_bytes(r) == deflate_decoded(body@),
{
    let mut out = Vec::new();
    flate2::read::DeflateDecoder::new(body).read_to_end(&mut out).ok()?;
    Some(out)
}

/// Unpacks a brotli stream with `brotli::BrotliDecompress`.
///
/// Trusted: the result is a function of the bytes.
#[verifier::external_body]
fn unbrotli(body: &[u8]) -> (r: Option<Vec<u8>>)
    ensures
        opt_bytes(r) == brotli_decoded(body@),
{
    let mut out = Vec::new();
    let mut source = body;
    brotli::BrotliDecompress(&mut source, &mut out).ok()?;
    Some(out)
}

/// Packs bytes with `flate2::write::GzEncoder` at the default level.
///
/// Trusted: a stream is made, since only a writer's errors are reported and a vector has none; it
/// is a function of the bytes, and unpacks to them.
#[verifier::external_body]
fn gzip(body: &[u8]) -> (r: Option<Vec<u8>>)
    ensures
        r is Some,
        opt_bytes(r) == gzip_encoded(body@),
        r matches Some(out) ==> gzip_decoded(out@) == Some(body@),
{
    let mut e = flate2::write::GzEncoder::new(Vec::new(), flate2::Compression::default());
    e.write_all(body).ok()?;
    e.finish().ok()
}

/// Packs bytes with `flate2::write::ZlibEncoder` at the default level.
///
/// Trusted: a stream is made, since only a writer's errors are reported and a vector has none; it
/// is a function of the bytes, and unpacks to them.
#[verifier::external_body]
fn zlib(body: &[u8]) -> (r: Option<Vec<u8>>)
    ensures
        r is Some,
        opt_bytes(r) == zlib_encoded(body@),
        r matches Some(out) ==> zlib_decoded(out@) == Some(body@),
{
    let mut e = flate2::write::ZlibEncoder::new(Vec::new(), flate2::Compression::default());
    e.write_all(body).ok()?;
    e.finish().ok()
}

/// Packs bytes with `brotli::BrotliCompress`, at the quality and window that are handed over.
///
/// Trusted, for quality 5 and a window of 20 bits: a stream is made, since neither reading from a
/// slice nor writing to a vector fails; it is a function of the bytes, and unpacks to them.
#[verifier::external_body]
fn brotli_pack(body: &[u8], quality: i32, lgwin: i32) -> (r: Option<Vec<u8>>)
    requires
        quality == 5,
        lgwin == 20,
    ensures
        r is Some,
        opt_bytes(r) == brotli_encoded(body@),
        r matches Some(out) ==> brotli_decoded(out@) == Some(body@),
{
    let params = brotli::enc::BrotliEncoderParams { quality, lgwin, ..Default::default() };
    let mut out = Vec::new();
    let mut source = body;
    brotli::BrotliCompress(&mut source, &mut out, &params).ok()?;
    Some(out)
}

/// The base64 text of some bytes, by the `STANDARD` engine of `base64`.
///
/// Trusted: the text is a function of the bytes, and decoding it gives them back.
#[verifier::external_body]
pub(crate) fn base64_encode(bytes: &[u8]) -> (r: String)
    ensures
        r@ == base64_encoded(bytes@),
        base64_decoded(r@) == Some(bytes@),
{
    base64::engine::general_purpose::STANDARD.encode(bytes)
}

/// What a base64 text stands for, by the `STANDARD` engine of `base64`.
///
/// Trusted: the result is a function of the text.
#[verifier::external_body]
pub(crate) fn base64_decode(s: &str) -> (r: Option<Vec<u8>>)
    ensures
        opt_bytes(r) == base64_decoded(s@),
{
    base64::engine::general_purpose::STANDARD.decode(s).ok()
}

/// The SHA-256 digest of some bytes, by `sha2::Sha256::digest`.
///
/// Trusted: the digest is a function of the bytes, and 32 bytes long.
#[verifier::external_body]
pub(crate) fn sha256_digest(bytes: &[u8]) -> (r: Vec<u8>)
    ensures
        r@ == sha256(bytes@),
        r@.len() == 32,
{
    sha2::Sha256::digest(bytes).to_vec()
}

/// The hexadecimal digit of a value below 16, in lower case.
pub open spec fn hex_digit(n: int) -> char {
    if n < 10 {
        (48 + n) as char
    } else {
        (87 + n) as char
    }
}

/// Two lower-case hexadecimal digits for each byte, the higher half first.
pub open spec fn hex_text(bytes: Seq<u8>) -> Seq<char> {
    Seq::new(
        2 * bytes.len(),
        |i: int|
            if i % 2 == 0 {
                hex_digit(bytes[i / 2] as int / 16)
            } else {
                hex_digit(bytes[i / 2] as int % 16)
            },
    )
}

/// The hexadecimal text of some bytes, by `hex::encode`.
///
/// Trusted: each byte becomes two lower-case digits, the higher half first.
#[verifier::external_body]
pub(crate) fn hex_encode(bytes: &[u8]) -> (r: String)
    ensures
        r@ == hex_text(bytes@),
{
    hex::encode(bytes)
}

// ---------------------------------------------------------------------------
// Content encodings
// ---------------------------------------------------------------------------

/// What a body unpacks to under a content encoding in lower case; `None` for an unknown
/// encoding and for a damaged body. A `deflate` body is a zlib stream by the standard; a bare
/// deflate stream, which some servers send, is taken too.
pub open spec fn decompressed(encoding: Seq<char>, body: Seq<u8>) -> Option<Seq<u8>> {
    if encoding == "gzip"@ {
        gzip_decoded(body)
    } else if encoding == "deflate"@ {
        match zlib_decoded(body) {
            Some(plain) => Some(plain),
            None => deflate_decoded(body),
        }
    } else if encoding == "br"@ {
        brotli_decoded(body)
    } else {
        None
    }
}

/// A body packed under a content encoding in lower case; `None` for an unknown encoding.
pub open spec fn recompressed(encoding: Seq<char>, body: Seq<u8>) -> Option<Seq<u8>> {
    if encoding == "gzip"@ {
        gzip_encoded(body)
    } else if encoding == "deflate"@ {
        zlib_encoded(body)
    } else if encoding == "br"@ {
        brotli_encoded(body)
    } else {
        None
    }
}

/// The three known encodings have different names.
proof fn lemma_encoding_names()
    ensures
        "gzip"@ != "deflate"@,
        "gzip"@ != "br"@,
        "deflate"@ != "br"@,
{
    reveal_strlit("gzip");
    reveal_strlit("deflate");
    reveal_strlit("br");
    assert("gzip"@.len() == 4);
    assert("deflate"@.len() == 7);
    assert("br"@.len() == 2);
}

/// Unpacks a body under a content encoding in lower case.
pub fn decompress(encoding: &str, body: &[u8]) -> (r: Option<Vec<u8>>)
    ensures
        opt_bytes(r) == decompressed(encoding@, body@),
{
    if text::same(encoding, "gzip") {
        gunzip(body)
    } else if text::same(encoding, "deflate") {
        match unzlib(body) {
            Some(plain) => Some(plain),
            None => inflate(body),
        }
    } else if text::same(encoding, "br") {
        unbrotli(body)
    } else {
        None
    }
}

/// Whether a content encoding in lower case is known.
pub open spec fn is_known(encoding: Seq<char>) -> bool {
    encoding == "gzip"@ || encoding == "deflate"@ || encoding == "br"@
}

/// Packs a body under a content encoding in lower case, if it is known. What was packed unpacks
/// to the body.
pub fn recompress(encoding: &str, body: &[u8]) -> (r: Option<Vec<u8>>)
    ensures
        opt_bytes(r) == recompressed(encoding@, body@),
        r is Some <==> is_known(encoding@),
        r matches Some(out) ==> decompressed(encoding@, out@) == Some(body@),
{
    proof {
        lemma_encoding_names();
    }
    if text::same(encoding, "gzip") {
        gzip(body)
    } else if text::same(encoding, "deflate") {
        zlib(body)
    } else if text::same(encoding, "br") {
        brotli_pack(body, 5, 20)
    } else {
        None
    }
}

/// A digest is written in two digits for each byte, the higher half first.
pub proof fn law_hex(bytes: Seq<u8>, i: int)
    requires
        0 <= i < bytes.len(),
    ensures
        hex_text(bytes).len() == 2 * bytes.len(),
        hex_text(bytes)[2 * i] == "0123456789abcdef"@[bytes[i] as int / 16],
        hex_text(bytes)[2 * i + 1] == "0123456789abcdef"@[bytes[i] as int % 16],
{
    reveal_strlit("0123456789abcdef");
    assert((2 * i) / 2 == i && (2 * i) % 2 == 0);
    assert((2 * i + 1) / 2 == i && (2 * i + 1) % 2 == 1);
    lemma_hex_digit(bytes[i] as int / 16);
    lemma_hex_digit(bytes[i] as int % 16);
}

/// The hexadecimal digits.
proof fn lemma_hex_digit(n: int)
    requires
        0 <= n < 16,
    ensures
        hex_digit(n) == "0123456789abcdef"@[n],
{
    reveal_strlit("0123456789abcdef");
    let s = "0123456789abcdef"@;
    assert(s[0] == '0' && s[1] == '1' && s[2] == '2' && s[3] == '3' && s[4] == '4');
    assert(s[5] == '5' && s[6] == '6' && s[7] == '7' && s[8] == '8' && s[9] == '9');
    assert(s[10] == 'a' && s[11] == 'b' && s[12] == 'c' && s[13] == 'd' && s[14] == 'e');
    assert(s[15] == 'f');
}

/// Bodies are packed and unpacked under their content encoding: `gzip`, `deflate` as a zlib stream
/// or, where it is none, as a bare one, and `br`; under no other.
pub proof fn law_encodings(name: Seq<char>, body: Seq<u8>)
    ensures
        decompressed("gzip"@, body) == gzip_decoded(body),
        zlib_decoded(body) is Some ==> decompressed("deflate"@, body) == zlib_decoded(body),
        zlib_decoded(body) is None ==> decompressed("deflate"@, body) == deflate_decoded(body),
        decompressed("br"@, body) == brotli_decoded(body),
        recompressed("gzip"@, body) == gzip_encoded(body),
        recompressed("deflate"@, body) == zlib_encoded(body),
        recompressed("br"@, body) == brotli_encoded(body),
        !seq!["gzip"@, "deflate"@, "br"@].contains(name) ==> decompressed(name, body) is None
            && recompressed(name, body) is None && !is_known(name),
        seq!["gzip"@, "deflate"@, "br"@].contains(name) ==> is_known(name),
{
    reveal_strlit("gzip");
    reveal_strlit("deflate");
    reveal_strlit("br");
    assert("gzip"@.len() == 4 && "deflate"@.len() == 7 && "br"@.len() == 2);
    let l = seq!["gzip"@, "deflate"@, "br"@];
    assert(l[0] == "gzip"@ && l[1] == "deflate"@ && l[2] == "br"@);
}

} // verus!
