//! Regular expressions: where a pattern matches, and the text that its groups take.
//!
//! The matching itself is done by the `regex` crate. What this module adds is verified: cutting
//! the matched groups out of the text, and joining a text from replaced matches.
use crate::text;
use vstd::prelude::*;

verus! {

/// An absolute URL: scheme, host, port, and path with query.
///
/// The last group takes `/path?query` as well as a `?query` that follows the host directly.
pub const URL: &'static str =
    r#"(?i)\b(https?)://([a-z0-9.\-]+)(?::(\d{1,5}))?((?:/[^\s"'<>(){}]*)?(?:\?[^\s"'<>(){}]*)?)"#;

/// A protocol-relative URL: leading character, host, port, and path with query.
///
/// A leading colon, word character or hyphen rules a match out, so that neither `http://` nor
/// the public identifier `-//W3C//DTD` of a document type is taken for one.
pub const PROTOCOL_RELATIVE: &'static str =
    r#"(?i)(^|[^:\w-])//([a-z0-9.\-]+)(?::(\d{1,5}))?((?:/[^\s"'<>(){}]*)?(?:\?[^\s"'<>(){}]*)?)"#;

/// A root-relative path in an attribute of an HTML tag: lead, path, closing quote.
pub const HTML_ATTRIBUTE: &'static str =
    r#"(?i)(\b(?:href|src|action|poster)\s*=\s*["'])(/[^"'\s>]*)("|')"#;

/// A root-relative path in a CSS `url(..)`: lead, quote, path.
pub const CSS_URL: &'static str = r#"(?i)(url\(\s*)(["']?)(/[^"'\s)]+)"#;

/// A root-relative path below one of the usual directories for assets.
pub const RELATIVE_ASSET: &'static str =
    r#"(?i)(/(?:static|assets|img|images|upload|fonts|media|css|js)/[^\s"'<>(){};]*)"#;

/// A group of a match: the byte range that it took, if it took part.
pub type Group = Option<(usize, usize)>;

/// Whether a pattern is one of the fixed ones above.
pub open spec fn is_fixed(pattern: Seq<char>) -> bool {
    pattern == URL@ || pattern == PROTOCOL_RELATIVE@ || pattern == HTML_ATTRIBUTE@ || pattern
        == CSS_URL@ || pattern == RELATIVE_ASSET@
}

/// The matches of a pattern in a text, from left to right: for each the groups, the whole
/// match first.
pub uninterp spec fn regex_captures(pattern: Seq<char>, text: Seq<char>) -> Seq<Seq<Group>>;

/// Whether a pattern compiles without regard to case.
pub uninterp spec fn regex_compiles(pattern: Seq<char>) -> bool;

/// Whether a pattern, without regard to case, matches anywhere in a text.
pub uninterp spec fn regex_matches(pattern: Seq<char>, text: Seq<char>) -> bool;

/// The views of the matches.
pub open spec fn match_views(v: Seq<Vec<Group>>) -> Seq<Seq<Group>> {
    v.map_values(|m: Vec<Group>| m@)
}

/// Whether a byte range can be cut out of a text.
pub open spec fn is_span(text: Seq<char>, a: int, b: int) -> bool {
    let bytes = vstd::utf8::encode_utf8(text);
    &&& 0 <= a <= b <= bytes.len()
    &&& vstd::utf8::is_char_boundary(bytes, a)
    &&& vstd::utf8::is_char_boundary(bytes, b)
}

/// The byte offset at which a group begins.
pub open spec fn start(g: Group) -> int {
    match g {
        Some(range) => range.0 as int,
        None => 0,
    }
}

/// The byte offset at which a group ends.
pub open spec fn end(g: Group) -> int {
    match g {
        Some(range) => range.1 as int,
        None => 0,
    }
}

/// Whether matches lie in a text, one after the other.
pub open spec fn are_matches(text: Seq<char>, ms: Seq<Seq<Group>>) -> bool {
    &&& forall|i: int| 0 <= i < ms.len() ==> (#[trigger] ms[i]).len() > 0 && ms[i][0] is Some
    &&& forall|i: int, k: int|
        0 <= i < ms.len() && 0 <= k < ms[i].len() && (#[trigger] ms[i][k]) is Some ==> is_span(
            text,
            start(ms[i][k]),
            end(ms[i][k]),
        )
    &&& forall|i: int, j: int|
        0 <= i < j < ms.len() ==> end((#[trigger] ms[i])[0]) <= start((#[trigger] ms[j])[0])
}

/// All matches of a fixed pattern, by `regex::Regex::captures_iter`.
///
/// Trusted: the fixed patterns compile; the result is a function of pattern and text; every
/// match has a group for the whole of it; each group that took part is a byte range of the
/// text that begins and ends between two characters; and the matches do not overlap and come
/// from left to right.
#[verifier::external_body]
pub(crate) fn captures(pattern: &str, text: &str) -> (r: Vec<Vec<Group>>)
    requires
        is_fixed(pattern@),
    ensures
        match_views(r@) == regex_captures(pattern@, text@),
        are_matches(text@, match_views(r@)),
{
    let re = regex::Regex::new(pattern).unwrap();
    re.captures_iter(text)
        .map(|c| c.iter().map(|g| g.map(|m| (m.start(), m.end()))).collect())
        .collect()
}

/// Declares `regex::Regex`: a compiled pattern. Nothing is known of its inside.
#[verifier::external_type_specification]
#[verifier::external_body]
pub struct ExRegex(regex::Regex);

/// Declares `regex::Error`: why a pattern does not compile. Nothing is known of its inside.
#[verifier::external_type_specification]
#[verifier::external_body]
pub struct ExRegexError(regex::Error);

/// Compiles a pattern without regard to case, by `regex::RegexBuilder::build`.
///
/// Trusted: whether the pattern compiles is a function of the pattern.
#[verifier::external_body]
pub(crate) fn compile(pattern: &str) -> (r: Result<regex::Regex, regex::Error>)
    ensures
        r is Ok == regex_compiles(pattern@),
{
    regex::RegexBuilder::new(pattern).case_insensitive(true).build()
}

/// Whether a pattern, without regard to case, matches anywhere in a text, by
/// `regex::Regex::is_match`.
///
/// Trusted: the answer is a function of pattern and text.
#[verifier::external_body]
pub(crate) fn is_match(pattern: &str, text: &str) -> (r: bool)
    requires
        regex_compiles(pattern@),
    ensures
        r == regex_matches(pattern@, text@),
{
    regex::RegexBuilder::new(pattern).case_insensitive(true).build().unwrap().is_match(text)
}

/// The part of a text between two byte offsets.
pub open spec fn cut(text: Seq<char>, a: int, b: int) -> Seq<char> {
    vstd::utf8::decode_utf8(vstd::utf8::encode_utf8(text).subrange(a, b))
}

/// A byte offset between two characters is one in every prefix that reaches it.
proof fn lemma_boundary_in_prefix(bytes: Seq<u8>, a: int, b: int)
    requires
        vstd::utf8::valid_utf8(bytes),
        0 <= a <= b <= bytes.len(),
        vstd::utf8::is_char_boundary(bytes, a),
        vstd::utf8::is_char_boundary(bytes, b),
    ensures
        vstd::utf8::valid_utf8(bytes.subrange(0, b)),
        vstd::utf8::is_char_boundary(bytes.subrange(0, b), a),
{
    let front = bytes.subrange(0, b);
    vstd::utf8::valid_utf8_split(bytes, b);
    vstd::utf8::is_char_boundary_start_end_of_seq(front);
    if a < b {
        vstd::utf8::is_char_boundary_iff_not_is_continuation_byte(bytes, a);
        vstd::utf8::is_char_boundary_iff_not_is_continuation_byte(front, a);
    }
}

/// Cuts the part between two byte offsets out of a text.
pub fn slice(s: &str, a: usize, b: usize) -> (r: &str)
    requires
        is_span(s@, a as int, b as int),
    ensures
        r@ == cut(s@, a as int, b as int),
{
    let ghost bytes = vstd::utf8::encode_utf8(s@);
    proof {
        vstd::utf8::encode_utf8_valid_utf8(s@);
        lemma_boundary_in_prefix(bytes, a as int, b as int);
    }
    let front = s.split_at(b).0;
    let part = front.split_at(a).1;
    proof {
        assert(vstd::utf8::encode_utf8(part@) =~= bytes.subrange(a as int, b as int));
        vstd::utf8::encode_utf8_decode_utf8(part@);
    }
    part
}

/// The text that a group took; empty where it took no part.
pub open spec fn group_text(text: Seq<char>, g: Group) -> Seq<char> {
    match g {
        Some(range) => cut(text, range.0 as int, range.1 as int),
        None => Seq::empty(),
    }
}

/// The texts that the groups of a match took.
pub open spec fn group_texts(text: Seq<char>, m: Seq<Group>) -> Seq<Seq<char>> {
    Seq::new(m.len(), |k: int| group_text(text, m[k]))
}

/// The text of group `k`; empty where there is no such group.
pub open spec fn at(groups: Seq<Seq<char>>, k: int) -> Seq<char> {
    if 0 <= k < groups.len() {
        groups[k]
    } else {
        Seq::empty()
    }
}

/// The text of group `k`.
pub fn group_at(groups: &[Vec<char>], k: usize) -> (r: Vec<char>)
    ensures
        r@ == at(text::pieces(groups@), k as int),
{
    if k < groups.len() {
        text::vec_of(&groups[k])
    } else {
        Vec::new()
    }
}

/// Whether the groups of one match lie in a text.
pub open spec fn is_match_in(text: Seq<char>, m: Seq<Group>) -> bool {
    forall|k: int|
        0 <= k < m.len() && (#[trigger] m[k]) is Some ==> is_span(
            text,
            start(m[k]),
            end(m[k]),
        )
}

/// The texts that the groups of a match took.
pub fn groups_of(s: &str, m: &[Group]) -> (r: Vec<Vec<char>>)
    requires
        is_match_in(s@, m@),
    ensures
        text::pieces(r@) == group_texts(s@, m@),
{
    let mut out: Vec<Vec<char>> = Vec::new();
    let n: usize = m.len();
    let mut k: usize = 0;
    while k < n
        invariant
            k <= n == m@.len(),
            is_match_in(s@, m@),
            text::pieces(out@) == group_texts(s@, m@).take(k as int),
        decreases n - k,
    {
        let t = match m[k] {
            Some((a, b)) => {
                assert(m@[k as int] is Some);
                text::chars_of(slice(s, a, b))
            },
            None => Vec::new(),
        };
        let ghost before = out@;
        proof {
            assert(t@ == group_text(s@, m@[k as int]));
        }
        out.push(t);
        k += 1;
        proof {
            text::lemma_pieces_push(before, t);
            assert(text::pieces(out@) =~= group_texts(s@, m@).take(k as int));
        }
    }
    assert(group_texts(s@, m@).take(n as int) =~= group_texts(s@, m@));
    out
}

/// The parts of a text before and after a byte offset make up the text.
pub proof fn lemma_cut_joins(text: Seq<char>, a: int, b: int, c: int)
    requires
        is_span(text, a, b),
        is_span(text, b, c),
    ensures
        cut(text, a, c) == cut(text, a, b) + cut(text, b, c),
{
    let bytes = vstd::utf8::encode_utf8(text);
    vstd::utf8::encode_utf8_valid_utf8(text);
    lemma_boundary_in_prefix(bytes, a, c);
    lemma_boundary_in_prefix(bytes, b, c);
    let front = bytes.subrange(0, c);
    vstd::utf8::valid_utf8_split(front, a);
    let part = front.subrange(a, c);
    assert(part =~= bytes.subrange(a, c));
    vstd::utf8::is_char_boundary_start_end_of_seq(part);
    if b < c {
        vstd::utf8::is_char_boundary_iff_not_is_continuation_byte(bytes, b);
        vstd::utf8::is_char_boundary_iff_not_is_continuation_byte(part, b - a);
    }
    vstd::utf8::decode_utf8_split(part, b - a);
    assert(part.subrange(0, b - a) =~= bytes.subrange(a, b));
    assert(part.subrange(b - a, part.len() as int) =~= bytes.subrange(b, c));
}

/// A part of a text between two byte offsets stands in the text.
pub proof fn lemma_cut_stands_in(text: Seq<char>, a: int, b: int)
    requires
        is_span(text, a, b),
    ensures
        text::has(text, cut(text, a, b)),
{
    let total = vstd::utf8::encode_utf8(text).len() as int;
    lemma_cut_whole(text);
    lemma_cut_joins(text, 0, a, total);
    lemma_cut_joins(text, a, b, total);
    let front = cut(text, 0, a);
    let part = cut(text, a, b);
    assert(text =~= front + (part + cut(text, b, total)));
    assert(text.subrange(front.len() as int, (front.len() + part.len()) as int) =~= part);
    assert(text::occurs_at(text, part, front.len() as int));
}

/// The whole range of a text is the text.
pub proof fn lemma_cut_whole(text: Seq<char>)
    ensures
        is_span(text, 0, vstd::utf8::encode_utf8(text).len() as int),
        cut(text, 0, vstd::utf8::encode_utf8(text).len() as int) == text,
{
    let bytes = vstd::utf8::encode_utf8(text);
    vstd::utf8::encode_utf8_valid_utf8(text);
    vstd::utf8::encode_utf8_decode_utf8(text);
    vstd::utf8::is_char_boundary_start_end_of_seq(bytes);
    assert(bytes.subrange(0, bytes.len() as int) =~= bytes);
}

/// What is cut out of a text between two offsets is what stands between what goes before and what
/// follows.
pub proof fn law_cut(a: Seq<char>, s: Seq<char>, b: Seq<char>)
    ensures
        ({
            let from = vstd::utf8::encode_utf8(a).len();
            let to = from + vstd::utf8::encode_utf8(s).len();
            &&& cut(a + s + b, from as int, to as int) == s
            &&& from <= usize::MAX && to <= usize::MAX ==> group_text(
                a + s + b,
                Some((from as usize, to as usize)),
            ) == s
        }),
{
    lemma_encoded(a, s);
    lemma_encoded(a + s, b);
    let bytes = vstd::utf8::encode_utf8(a + s + b);
    let from = vstd::utf8::encode_utf8(a).len() as int;
    let to = from + vstd::utf8::encode_utf8(s).len();
    assert(bytes.subrange(from, to) =~= vstd::utf8::encode_utf8(s));
    vstd::utf8::encode_utf8_decode_utf8(s);
}

/// The bytes of a text are those of its parts.
proof fn lemma_encoded(a: Seq<char>, b: Seq<char>)
    ensures
        vstd::utf8::encode_utf8(a + b) == vstd::utf8::encode_utf8(a) + vstd::utf8::encode_utf8(b),
    decreases a.len(),
{
    if a.len() == 0 {
        assert(a + b =~= b);
        assert(vstd::utf8::encode_utf8(a) =~= Seq::<u8>::empty());
        assert(vstd::utf8::encode_utf8(a) + vstd::utf8::encode_utf8(b)
            =~= vstd::utf8::encode_utf8(b));
    } else {
        lemma_encoded(a.drop_first(), b);
        assert((a + b).drop_first() =~= a.drop_first() + b);
        assert((a + b)[0] == a[0]);
        assert(vstd::utf8::encode_utf8(a + b) =~= vstd::utf8::encode_utf8(a)
            + vstd::utf8::encode_utf8(b));
    }
}

/// The groups of a match are found by their numbers; one that took no part, or is not there, is
/// empty.
pub proof fn law_groups(s: Seq<char>, m: Seq<Group>, k: int)
    ensures
        0 <= k < m.len() ==> at(group_texts(s, m), k) == group_text(s, m[k]),
        0 <= k < m.len() && m[k] is None ==> at(group_texts(s, m), k).len() == 0,
        k < 0 || k >= m.len() ==> at(group_texts(s, m), k).len() == 0,
{
}

} // verus!
