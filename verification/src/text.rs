//! Operations on text, modelled as sequences of characters.
//!
//! A function named by a participle (`trimmed`, `lowered`) is the specification; the function
//! named by the verb computes it.

use vstd::prelude::*;
use vstd::slice::{slice_subrange, slice_to_vec};

verus! {

/// `String::push` appends one character.
pub assume_specification[ String::push ](s: &mut String, c: char)
    ensures
        final(s)@ == old(s)@.push(c),
;

// ---------------------------------------------------------------------------
// Characters
// ---------------------------------------------------------------------------

/// The characters with the Unicode property `White_Space`.
pub open spec fn is_space(c: char) -> bool {
    ||| '\u{9}' <= c <= '\u{d}'
    ||| c == ' '
    ||| c == '\u{85}'
    ||| c == '\u{a0}'
    ||| c == '\u{1680}'
    ||| '\u{2000}' <= c <= '\u{200a}'
    ||| c == '\u{2028}'
    ||| c == '\u{2029}'
    ||| c == '\u{202f}'
    ||| c == '\u{205f}'
    ||| c == '\u{3000}'
}

/// Tells whether a character is white space.
pub fn space(c: char) -> (r: bool)
    ensures
        r == is_space(c),
{
    ('\u{9}' <= c && c <= '\u{d}') || c == ' ' || c == '\u{85}' || c == '\u{a0}' || c == '\u{1680}'
        || ('\u{2000}' <= c && c <= '\u{200a}') || c == '\u{2028}' || c == '\u{2029}' || c
        == '\u{202f}' || c == '\u{205f}' || c == '\u{3000}'
}

/// The lower case of an ASCII letter; any other character is its own lower case.
pub open spec fn lower(c: char) -> char {
    if 'A' <= c <= 'Z' {
        (c as u8 + 32) as char
    } else {
        c
    }
}

/// The upper case of an ASCII letter; any other character is its own upper case.
pub open spec fn upper(c: char) -> char {
    if 'a' <= c <= 'z' {
        (c as u8 - 32) as char
    } else {
        c
    }
}

/// ASCII digits.
pub open spec fn is_digit(c: char) -> bool {
    '0' <= c <= '9'
}

/// ASCII letters and digits.
pub open spec fn is_alphanumeric(c: char) -> bool {
    ||| '0' <= c <= '9'
    ||| 'A' <= c <= 'Z'
    ||| 'a' <= c <= 'z'
}

/// Tells whether a character is an ASCII letter or digit.
pub fn alphanumeric(c: char) -> (r: bool)
    ensures
        r == is_alphanumeric(c),
{
    ('0' <= c && c <= '9') || ('A' <= c && c <= 'Z') || ('a' <= c && c <= 'z')
}

// ---------------------------------------------------------------------------
// Strings and vectors of characters
// ---------------------------------------------------------------------------

/// The texts held by a vector of character vectors.
pub open spec fn pieces(v: Seq<Vec<char>>) -> Seq<Seq<char>> {
    Seq::new(v.len(), |i: int| v[i]@)
}

/// The texts held by a vector of strings.
pub open spec fn texts(v: Seq<String>) -> Seq<Seq<char>> {
    Seq::new(v.len(), |i: int| v[i]@)
}

/// The text of an optional string.
pub open spec fn opt_text(o: Option<String>) -> Option<Seq<char>> {
    match o {
        Some(s) => Some(s@),
        None => None,
    }
}

/// The characters of a string.
pub fn chars_of(s: &str) -> (r: Vec<char>)
    ensures
        r@ == s@,
{
    let mut out: Vec<char> = Vec::new();
    for c in it: s.chars()
        invariant
            out@ == it.seq().take(it.index() as int),
            it.seq() == s@,
    {
        out.push(c);
        assert(it.seq().take(it.index() as int + 1) == it.seq().take(it.index() as int).push(c));
    }
    out
}

/// The string made of the given characters.
pub fn string_of(cs: &[char]) -> (r: String)
    ensures
        r@ == cs@,
{
    let mut out = String::new();
    let n: usize = cs.len();
    let mut i: usize = 0;
    while i < n
        invariant
            i <= n == cs@.len(),
            out@ == cs@.take(i as int),
        decreases n - i,
    {
        out.push(cs[i]);
        i += 1;
        assert(cs@.take(i as int) == cs@.take(i - 1).push(cs@[i - 1]));
    }
    assert(cs@.take(n as int) == cs@);
    out
}

/// A string with the given content.
pub fn owned(s: &str) -> (r: String)
    ensures
        r@ == s@,
{
    s.to_string()
}

/// Tells whether two strings are equal.
pub fn same(a: &str, b: &str) -> (r: bool)
    ensures
        r == (a@ == b@),
{
    let x = a.as_bytes();
    let y = b.as_bytes();
    proof {
        vstd::utf8::encode_utf8_decode_utf8(a@);
        vstd::utf8::encode_utf8_decode_utf8(b@);
    }
    if x.len() != y.len() {
        return false;
    }
    let n: usize = x.len();
    let mut i: usize = 0;
    while i < n
        invariant
            i <= n == x@.len() == y@.len(),
            x@.take(i as int) == y@.take(i as int),
            x@ == vstd::utf8::encode_utf8(a@),
            y@ == vstd::utf8::encode_utf8(b@),
        decreases n - i,
    {
        if x[i] != y[i] {
            return false;
        }
        i += 1;
        assert(x@.take(i as int) == x@.take(i - 1).push(x@[i - 1]));
        assert(y@.take(i as int) == y@.take(i - 1).push(y@[i - 1]));
    }
    assert(x@.take(n as int) == x@);
    assert(y@.take(n as int) == y@);
    true
}

/// Tells whether two character slices are equal.
pub fn eq(a: &[char], b: &[char]) -> (r: bool)
    ensures
        r == (a@ == b@),
{
    if a.len() != b.len() {
        return false;
    }
    let n: usize = a.len();
    let mut i: usize = 0;
    while i < n
        invariant
            i <= n == a@.len() == b@.len(),
            forall|j: int| 0 <= j < i ==> a@[j] == b@[j],
        decreases n - i,
    {
        if a[i] != b[i] {
            return false;
        }
        i += 1;
    }
    assert(a@ =~= b@);
    true
}

/// Appends the characters of a slice.
pub fn push_all(out: &mut Vec<char>, s: &[char])
    ensures
        final(out)@ == old(out)@ + s@,
{
    let n: usize = s.len();
    let mut i: usize = 0;
    while i < n
        invariant
            i <= n == s@.len(),
            out@ == old(out)@ + s@.take(i as int),
        decreases n - i,
    {
        out.push(s[i]);
        i += 1;
        assert(s@.take(i as int) == s@.take(i - 1).push(s@[i - 1]));
    }
    assert(s@.take(n as int) == s@);
}

/// Appends a string to a text.
pub fn push_str(out: &mut Vec<char>, s: &str)
    ensures
        final(out)@ == old(out)@ + s@,
{
    let cs = chars_of(s);
    push_all(out, &cs);
}

/// Copies a slice into a vector.
pub fn vec_of(s: &[char]) -> (r: Vec<char>)
    ensures
        r@ == s@,
{
    let mut out: Vec<char> = Vec::new();
    push_all(&mut out, s);
    out
}

/// The part of a slice from index `from` on.
pub fn skip(s: &[char], from: usize) -> (r: &[char])
    requires
        from <= s@.len(),
    ensures
        r@ == s@.skip(from as int),
{
    slice_subrange(s, from, s.len())
}

/// The part of a slice before index `to`.
pub fn take(s: &[char], to: usize) -> (r: &[char])
    requires
        to <= s@.len(),
    ensures
        r@ == s@.take(to as int),
{
    slice_subrange(s, 0, to)
}

// ---------------------------------------------------------------------------
// Case
// ---------------------------------------------------------------------------

/// The text with every ASCII letter in lower case.
pub open spec fn lowered(s: Seq<char>) -> Seq<char> {
    Seq::new(s.len(), |i: int| lower(s[i]))
}

/// The text with every ASCII letter in upper case.
pub open spec fn uppered(s: Seq<char>) -> Seq<char> {
    Seq::new(s.len(), |i: int| upper(s[i]))
}

/// Puts ASCII letters in lower case.
pub fn to_lower(s: &[char]) -> (r: Vec<char>)
    ensures
        r@ == lowered(s@),
{
    let mut out: Vec<char> = Vec::new();
    let n: usize = s.len();
    let mut i: usize = 0;
    while i < n
        invariant
            i <= n == s@.len(),
            out@.len() == i,
            forall|j: int| 0 <= j < i ==> out@[j] == lower(s@[j]),
        decreases n - i,
    {
        let c: char = s[i];
        let l: char = if 'A' <= c && c <= 'Z' {
            (c as u8 + 32) as char
        } else {
            c
        };
        out.push(l);
        i += 1;
    }
    out
}

/// Puts ASCII letters in upper case.
pub fn to_upper(s: &[char]) -> (r: Vec<char>)
    ensures
        r@ == uppered(s@),
{
    let mut out: Vec<char> = Vec::new();
    let n: usize = s.len();
    let mut i: usize = 0;
    while i < n
        invariant
            i <= n == s@.len(),
            out@.len() == i,
            forall|j: int| 0 <= j < i ==> out@[j] == upper(s@[j]),
        decreases n - i,
    {
        let c: char = s[i];
        let l: char = if 'a' <= c && c <= 'z' {
            (c as u8 - 32) as char
        } else {
            c
        };
        out.push(l);
        i += 1;
    }
    out
}

/// Puts the ASCII letters of a string in lower case.
pub fn lower_string(s: &str) -> (r: String)
    ensures
        r@ == lowered(s@),
{
    string_of(&to_lower(&chars_of(s)))
}

/// Tells whether two strings differ at most in the case of ASCII letters.
pub fn same_ignoring_case(a: &str, b: &str) -> (r: bool)
    ensures
        r == (lowered(a@) == lowered(b@)),
{
    eq(&to_lower(&chars_of(a)), &to_lower(&chars_of(b)))
}

/// Lower case is a fixed point of lowering.
pub proof fn lemma_lowered_idempotent(s: Seq<char>)
    ensures
        lowered(lowered(s)) == lowered(s),
{
    assert(lowered(lowered(s)) =~= lowered(s));
}

// ---------------------------------------------------------------------------
// Prefixes and searching
// ---------------------------------------------------------------------------

/// `pat` stands in `s` at index `i`.
pub open spec fn occurs_at(s: Seq<char>, pat: Seq<char>, i: int) -> bool {
    &&& 0 <= i
    &&& i + pat.len() <= s.len()
    &&& s.subrange(i, i + pat.len()) == pat
}

/// The first index, at or after `i`, where `pat` stands in `s`.
pub open spec fn find_from(s: Seq<char>, pat: Seq<char>, i: int) -> Option<int>
    decreases s.len() - i + 1,
{
    if i < 0 || i + pat.len() > s.len() {
        None
    } else if occurs_at(s, pat, i) {
        Some(i)
    } else {
        find_from(s, pat, i + 1)
    }
}

/// The first index where `pat` stands in `s`.
pub open spec fn found(s: Seq<char>, pat: Seq<char>) -> Option<int> {
    find_from(s, pat, 0)
}

/// `pat` stands somewhere in `s`.
pub open spec fn has(s: Seq<char>, pat: Seq<char>) -> bool {
    exists|i: int| occurs_at(s, pat, i)
}

/// `find_from` is the least occurrence at or after its start, where there is one.
pub proof fn lemma_find_from(s: Seq<char>, pat: Seq<char>, i: int)
    requires
        0 <= i,
    ensures
        match find_from(s, pat, i) {
            Some(k) => i <= k && occurs_at(s, pat, k) && (forall|j: int|
                i <= j < k ==> !occurs_at(s, pat, j)),
            None => forall|j: int| i <= j ==> !occurs_at(s, pat, j),
        },
    decreases s.len() - i + 1,
{
    if i + pat.len() <= s.len() && !occurs_at(s, pat, i) {
        lemma_find_from(s, pat, i + 1);
    }
}

/// A text that stands somewhere is found, and only such a text.
pub proof fn lemma_found_iff_has(s: Seq<char>, pat: Seq<char>)
    ensures
        found(s, pat) is Some <==> has(s, pat),
        found(s, pat) matches Some(k) ==> occurs_at(s, pat, k),
{
    lemma_find_from(s, pat, 0);
}

/// The occurrence before which there is no other is the one that is found.
pub proof fn lemma_found_is_first(s: Seq<char>, pat: Seq<char>, k: int)
    requires
        occurs_at(s, pat, k),
        forall|j: int| 0 <= j < k ==> !occurs_at(s, pat, j),
    ensures
        found(s, pat) == Some(k),
{
    lemma_find_from(s, pat, 0);
}

/// Tells whether `pat` stands in `s` at index `i`.
pub fn stands_at(s: &[char], pat: &[char], i: usize) -> (r: bool)
    ensures
        r == occurs_at(s@, pat@, i as int),
{
    if i > s.len() || pat.len() > s.len() - i {
        return false;
    }
    let n: usize = pat.len();
    let mut j: usize = 0;
    while j < n
        invariant
            j <= n == pat@.len(),
            i + n <= s.len(),
            forall|k: int| 0 <= k < j ==> s@[i + k] == pat@[k],
        decreases n - j,
    {
        if s[i + j] != pat[j] {
            assert(s@.subrange(i as int, i + n)[j as int] != pat@[j as int]);
            return false;
        }
        j += 1;
    }
    assert(s@.subrange(i as int, i + n) =~= pat@);
    true
}

/// Tells whether `s` starts with `pat`.
pub fn starts_with(s: &[char], pat: &[char]) -> (r: bool)
    ensures
        r == pat@.is_prefix_of(s@),
{
    stands_at(s, pat, 0)
}

/// Tells whether a string starts with `pat`.
pub fn str_starts_with(s: &str, pat: &str) -> (r: bool)
    ensures
        r == pat@.is_prefix_of(s@),
{
    starts_with(&chars_of(s), &chars_of(pat))
}

/// The first index where `pat` stands in `s`.
pub fn find(s: &[char], pat: &[char]) -> (r: Option<usize>)
    ensures
        match r {
            Some(k) => found(s@, pat@) == Some(k as int) && k + pat.len() <= s.len(),
            None => found(s@, pat@) is None,
        },
{
    if pat.len() > s.len() {
        return None;
    }
    let last: usize = s.len() - pat.len();
    let mut i: usize = 0;
    while i <= last
        invariant
            last == s@.len() - pat@.len(),
            i <= last + 1,
            found(s@, pat@) == find_from(s@, pat@, i as int),
        decreases last + 1 - i,
    {
        if stands_at(s, pat, i) {
            return Some(i);
        }
        if i == last {
            assert(find_from(s@, pat@, i + 1) is None);
            return None;
        }
        i += 1;
    }
    None
}

/// Tells whether `pat` stands somewhere in `s`.
pub fn contains(s: &[char], pat: &[char]) -> (r: bool)
    ensures
        r == has(s@, pat@),
{
    proof {
        lemma_found_iff_has(s@, pat@);
    }
    match find(s, pat) {
        Some(_) => true,
        None => false,
    }
}

/// Tells whether `pat` stands somewhere in a string.
pub fn str_contains(s: &str, pat: &str) -> (r: bool)
    ensures
        r == has(s@, pat@),
{
    contains(&chars_of(s), &chars_of(pat))
}

// ---------------------------------------------------------------------------
// Text and bytes
// ---------------------------------------------------------------------------

/// The text of bytes, with replacement characters where they are not valid UTF-8.
pub uninterp spec fn lossy_text(bytes: Seq<u8>) -> Seq<char>;

/// The text in lower case, by the rules of Unicode.
pub uninterp spec fn unicode_lowered(s: Seq<char>) -> Seq<char>;

/// The text of bytes that are valid UTF-8, by `std::str::from_utf8`.
///
/// Trusted: there is a text exactly where the bytes are valid UTF-8, and it is the one that
/// they encode.
#[verifier::external_body]
pub(crate) fn utf8(bytes: &[u8]) -> (r: Option<&str>)
    ensures
        r is Some == vstd::utf8::valid_utf8(bytes@),
        r matches Some(s) ==> s@ == vstd::utf8::decode_utf8(bytes@),
{
    std::str::from_utf8(bytes).ok()
}

/// The text of bytes, by `String::from_utf8_lossy`.
///
/// Trusted: the text is a function of the bytes, and the one that they encode where they are
/// valid UTF-8.
#[verifier::external_body]
fn utf8_lossy(bytes: &[u8]) -> (r: String)
    ensures
        r@ == lossy_text(bytes@),
        vstd::utf8::valid_utf8(bytes@) ==> r@ == vstd::utf8::decode_utf8(bytes@),
{
    String::from_utf8_lossy(bytes).into_owned()
}

/// The text of bytes: the one that they encode where they are valid UTF-8, and one with
/// replacement characters where they are not.
pub open spec fn decoded_lossily(bytes: Seq<u8>) -> Seq<char> {
    if vstd::utf8::valid_utf8(bytes) {
        vstd::utf8::decode_utf8(bytes)
    } else {
        lossy_text(bytes)
    }
}

/// The text of bytes, valid UTF-8 or not.
pub fn decode_lossily(bytes: &[u8]) -> (r: String)
    ensures
        r@ == decoded_lossily(bytes@),
{
    utf8_lossy(bytes)
}

/// The text in lower case, by `str::to_lowercase`.
///
/// Trusted: the result is a function of the text.
#[verifier::external_body]
pub(crate) fn to_lower_unicode(s: &str) -> (r: String)
    ensures
        r@ == unicode_lowered(s@),
{
    s.to_lowercase()
}

/// How a text is written between quotation marks.
pub uninterp spec fn debug_text(s: Seq<char>) -> Seq<char>;

/// Writes a text between quotation marks with the `Debug` format of `str`.
///
/// Trusted: the result is a function of the text.
#[verifier::external_body]
pub(crate) fn quoted(s: &str) -> (r: String)
    ensures
        r@ == debug_text(s@),
{
    format!("{:?}", s)
}

/// The UTF-8 bytes of a text.
pub fn bytes_of(s: &str) -> (r: Vec<u8>)
    ensures
        r@ == vstd::utf8::encode_utf8(s@),
{
    slice_to_vec(s.as_bytes())
}

/// The text of bytes, where they are valid UTF-8.
pub open spec fn decoded(bytes: Seq<u8>) -> Option<Seq<char>> {
    if vstd::utf8::valid_utf8(bytes) {
        Some(vstd::utf8::decode_utf8(bytes))
    } else {
        None
    }
}

// ---------------------------------------------------------------------------
// Trimming
// ---------------------------------------------------------------------------

/// The text without leading white space.
pub open spec fn trimmed_start(s: Seq<char>) -> Seq<char>
    decreases s.len(),
{
    if s.len() > 0 && is_space(s[0]) {
        trimmed_start(s.drop_first())
    } else {
        s
    }
}

/// The text without trailing white space.
pub open spec fn trimmed_end(s: Seq<char>) -> Seq<char>
    decreases s.len(),
{
    if s.len() > 0 && is_space(s.last()) {
        trimmed_end(s.drop_last())
    } else {
        s
    }
}

/// The text without leading and trailing white space.
pub open spec fn trimmed(s: Seq<char>) -> Seq<char> {
    trimmed_end(trimmed_start(s))
}

/// The text without leading occurrences of `c`.
pub open spec fn without_leading(s: Seq<char>, c: char) -> Seq<char>
    decreases s.len(),
{
    if s.len() > 0 && s[0] == c {
        without_leading(s.drop_first(), c)
    } else {
        s
    }
}

/// The text without trailing occurrences of `c`.
pub open spec fn without_trailing(s: Seq<char>, c: char) -> Seq<char>
    decreases s.len(),
{
    if s.len() > 0 && s.last() == c {
        without_trailing(s.drop_last(), c)
    } else {
        s
    }
}

/// Removes leading and trailing white space.
pub fn trim(s: &[char]) -> (r: &[char])
    ensures
        r@ == trimmed(s@),
{
    let n: usize = s.len();
    let mut from: usize = 0;
    assert(s@.skip(0) == s@);
    while from < n && space(s[from])
        invariant
            from <= n == s@.len(),
            trimmed_start(s@) == trimmed_start(s@.skip(from as int)),
        decreases n - from,
    {
        assert(s@.skip(from as int).drop_first() == s@.skip(from + 1));
        from += 1;
    }
    let ghost t = s@.skip(from as int);
    let mut to: usize = n;
    assert(s@.subrange(from as int, n as int) == t);
    while to > from && space(s[to - 1])
        invariant
            from <= to <= n == s@.len(),
            t == s@.skip(from as int),
            trimmed_end(t) == trimmed_end(s@.subrange(from as int, to as int)),
        decreases to,
    {
        assert(s@.subrange(from as int, to as int).drop_last() == s@.subrange(
            from as int,
            to - 1,
        ));
        to -= 1;
    }
    slice_subrange(s, from, to)
}

/// Removes leading occurrences of `c`.
pub fn trim_leading(s: &[char], c: char) -> (r: &[char])
    ensures
        r@ == without_leading(s@, c),
{
    let n: usize = s.len();
    let mut from: usize = 0;
    assert(s@.skip(0) == s@);
    while from < n && s[from] == c
        invariant
            from <= n == s@.len(),
            without_leading(s@, c) == without_leading(s@.skip(from as int), c),
        decreases n - from,
    {
        assert(s@.skip(from as int).drop_first() == s@.skip(from + 1));
        from += 1;
    }
    skip(s, from)
}

/// Removes trailing occurrences of `c`.
pub fn trim_trailing(s: &[char], c: char) -> (r: &[char])
    ensures
        r@ == without_trailing(s@, c),
{
    let mut to: usize = s.len();
    assert(s@.take(to as int) == s@);
    while to > 0 && s[to - 1] == c
        invariant
            to <= s@.len(),
            without_trailing(s@, c) == without_trailing(s@.take(to as int), c),
        decreases to,
    {
        assert(s@.take(to as int).drop_last() == s@.take(to - 1));
        to -= 1;
    }
    take(s, to)
}

/// Removes the leading and trailing white space of a string.
pub fn trim_string(s: &str) -> (r: String)
    ensures
        r@ == trimmed(s@),
{
    let cs = chars_of(s);
    string_of(trim(&cs))
}

// ---------------------------------------------------------------------------
// Splitting
// ---------------------------------------------------------------------------

/// The index of the first character that is `a` or `b`; the length where there is none.
pub open spec fn upto(s: Seq<char>, a: char, b: char) -> int
    decreases s.len(),
{
    if s.len() == 0 || s[0] == a || s[0] == b {
        0
    } else {
        1 + upto(s.drop_first(), a, b)
    }
}

/// The part before the first character that is `a` or `b`.
pub open spec fn before(s: Seq<char>, a: char, b: char) -> Seq<char> {
    s.take(upto(s, a, b))
}

/// `upto` is the first index with one of the two characters.
pub proof fn lemma_upto(s: Seq<char>, a: char, b: char)
    ensures
        0 <= upto(s, a, b) <= s.len(),
        forall|j: int| 0 <= j < upto(s, a, b) ==> s[j] != a && s[j] != b,
        upto(s, a, b) < s.len() ==> s[upto(s, a, b)] == a || s[upto(s, a, b)] == b,
    decreases s.len(),
{
    if s.len() == 0 || s[0] == a || s[0] == b {
    } else {
        let t = s.drop_first();
        lemma_upto(t, a, b);
        assert forall|j: int| 0 <= j < upto(s, a, b) implies s[j] != a && s[j] != b by {
            if j > 0 {
                assert(s[j] == t[j - 1]);
            }
        }
    }
}

/// The index with one of the two characters, and with none of them before it, is `upto`.
pub proof fn lemma_upto_is(s: Seq<char>, a: char, b: char, k: int)
    requires
        0 <= k <= s.len(),
        forall|j: int| 0 <= j < k ==> s[j] != a && s[j] != b,
        k < s.len() ==> s[k] == a || s[k] == b,
    ensures
        upto(s, a, b) == k,
{
    lemma_upto(s, a, b);
    let u = upto(s, a, b);
    if u < k {
        assert(s[u] != a && s[u] != b);
    }
    if k < u {
        assert(s[k] != a && s[k] != b);
    }
}

/// The index of the first character that is `a` or `b`; the length where there is none.
pub fn index_of_either(s: &[char], a: char, b: char) -> (r: usize)
    ensures
        r == upto(s@, a, b),
        r <= s@.len(),
{
    let n: usize = s.len();
    let mut i: usize = 0;
    while i < n
        invariant
            i <= n == s@.len(),
            forall|j: int| 0 <= j < i ==> s@[j] != a && s@[j] != b,
        decreases n - i,
    {
        if s[i] == a || s[i] == b {
            proof {
                lemma_upto_is(s@, a, b, i as int);
            }
            return i;
        }
        i += 1;
    }
    proof {
        lemma_upto_is(s@, a, b, n as int);
    }
    n
}

/// The parts before and after the first `c`, where there is one.
pub open spec fn cut(s: Seq<char>, c: char) -> Option<(Seq<char>, Seq<char>)> {
    let k = upto(s, c, c);
    if k < s.len() {
        Some((s.take(k), s.skip(k + 1)))
    } else {
        None
    }
}

/// The parts before and after the first `pat`, where there is one.
pub open spec fn cut_text(s: Seq<char>, pat: Seq<char>) -> Option<(Seq<char>, Seq<char>)> {
    match found(s, pat) {
        Some(k) => Some((s.take(k), s.skip(k + pat.len()))),
        None => None,
    }
}

/// Splits a text at the first `pat`.
pub fn split_once<'a>(s: &'a [char], pat: &str) -> (r: Option<(&'a [char], &'a [char])>)
    ensures
        match r {
            Some((front, back)) => cut_text(s@, pat@) == Some((front@, back@)),
            None => cut_text(s@, pat@) is None,
        },
{
    let p = chars_of(pat);
    match find(s, &p) {
        Some(k) => Some((take(s, k), skip(s, k + p.len()))),
        None => None,
    }
}

/// Splits a text at the first `c`.
pub fn split_once_at(s: &[char], c: char) -> (r: Option<(&[char], &[char])>)
    ensures
        match r {
            Some((front, back)) => cut(s@, c) == Some((front@, back@)),
            None => cut(s@, c) is None,
        },
{
    let k: usize = index_of_either(s, c, c);
    if k < s.len() {
        Some((take(s, k), skip(s, k + 1)))
    } else {
        None
    }
}

/// What follows `pat` at the start of a text, where it stands there.
pub open spec fn stripped(s: Seq<char>, pat: Seq<char>) -> Option<Seq<char>> {
    if pat.is_prefix_of(s) {
        Some(s.skip(pat.len() as int))
    } else {
        None
    }
}

/// Removes `pat` from the start of a text.
pub fn strip<'a>(s: &'a [char], pat: &str) -> (r: Option<&'a [char]>)
    ensures
        match r {
            Some(rest) => stripped(s@, pat@) == Some(rest@),
            None => stripped(s@, pat@) is None,
        },
{
    let p = chars_of(pat);
    if starts_with(s, &p) {
        Some(skip(s, p.len()))
    } else {
        None
    }
}

/// The pieces of a text between occurrences of `c`.
pub open spec fn split(s: Seq<char>, c: char) -> Seq<Seq<char>>
    decreases s.len(),
{
    let k = upto(s, c, c);
    if 0 <= k < s.len() {
        seq![s.take(k)] + split(s.skip(k + 1), c)
    } else {
        seq![s]
    }
}

/// Appending a piece appends its text.
pub proof fn lemma_pieces_push(v: Seq<Vec<char>>, x: Vec<char>)
    ensures
        pieces(v.push(x)) == pieces(v).push(x@),
{
    assert(pieces(v.push(x)) =~= pieces(v).push(x@));
}

/// Appending a string appends its text.
pub proof fn lemma_texts_push(v: Seq<String>, x: String)
    ensures
        texts(v.push(x)) == texts(v).push(x@),
{
    assert(texts(v.push(x)) =~= texts(v).push(x@));
}

/// Splits a text at every `c`.
pub fn split_at_char(s: &[char], c: char) -> (r: Vec<Vec<char>>)
    ensures
        pieces(r@) == split(s@, c),
{
    let mut out: Vec<Vec<char>> = Vec::new();
    let mut from: usize = 0;
    assert(s@.skip(0) == s@);
    assert(pieces(out@) + split(s@, c) =~= split(s@, c));
    loop
        invariant
            from <= s.len(),
            split(s@, c) == pieces(out@) + split(s@.skip(from as int), c),
        decreases s@.len() - from,
    {
        let rest = skip(s, from);
        assert(rest.len() == s.len() - from);
        let k: usize = index_of_either(rest, c, c);
        let ghost before_push = out@;
        let piece = vec_of(take(rest, k));
        if k < rest.len() {
            out.push(piece);
            proof {
                lemma_pieces_push(before_push, piece);
                assert(rest@.skip(k + 1) == s@.skip(from + k + 1));
                assert(pieces(before_push) + (seq![rest@.take(k as int)] + split(
                    rest@.skip(k + 1),
                    c,
                )) =~= pieces(out@) + split(rest@.skip(k + 1), c));
            }
            from = from + k + 1;
        } else {
            out.push(piece);
            proof {
                lemma_pieces_push(before_push, piece);
                assert(rest@.take(k as int) == rest@);
                assert(pieces(before_push) + seq![rest@] =~= pieces(out@));
            }
            return out;
        }
    }
}

/// The part of a text behind the last `c`; all of it where there is none.
pub open spec fn behind_last(s: Seq<char>, c: char) -> Seq<char>
    decreases s.len(),
{
    if s.len() == 0 || s.last() == c {
        seq![]
    } else {
        behind_last(s.drop_last(), c).push(s.last())
    }
}

/// The part of a text behind the last `c`.
pub fn take_behind_last(s: &[char], c: char) -> (r: &[char])
    ensures
        r@ == behind_last(s@, c),
{
    let n: usize = s.len();
    let mut from: usize = n;
    assert(s@.skip(n as int) =~= Seq::<char>::empty());
    assert(s@.take(n as int) =~= s@);
    assert(behind_last(s@, c) + s@.skip(n as int) =~= behind_last(s@, c));
    while from > 0 && s[from - 1] != c
        invariant
            from <= n == s@.len(),
            behind_last(s@, c) == behind_last(s@.take(from as int), c) + s@.skip(from as int),
        decreases from,
    {
        proof {
            let t = s@.take(from as int);
            assert(t.drop_last() =~= s@.take(from - 1));
            assert(behind_last(s@.take(from - 1), c).push(t.last()) + s@.skip(from as int)
                =~= behind_last(s@.take(from - 1), c) + s@.skip(from - 1));
        }
        from -= 1;
    }
    proof {
        assert(behind_last(s@.take(from as int), c) =~= Seq::<char>::empty());
        assert(Seq::<char>::empty() + s@.skip(from as int) =~= s@.skip(from as int));
    }
    skip(s, from)
}

/// Texts without `c`, joined by `c`, are found again by splitting at `c`.
pub proof fn lemma_split_joined(parts: Seq<Seq<char>>, c: char)
    requires
        parts.len() > 0,
        forall|i: int| 0 <= i < parts.len() ==> !(#[trigger] parts[i]).contains(c),
    ensures
        split(joined(parts, seq![c]), c) == parts,
    decreases parts.len(),
{
    if parts.len() == 1 {
        let s = parts[0];
        assert forall|j: int| 0 <= j < s.len() implies s[j] != c by {
            assert(s.contains(s[j]));
        }
        lemma_upto_is(s, c, c, s.len() as int);
        assert(split(s, c) =~= parts);
    } else {
        let front = parts.drop_last();
        assert forall|i: int| 0 <= i < front.len() implies !(#[trigger] front[i]).contains(c) by {
            assert(front[i] == parts[i]);
        }
        lemma_split_joined(front, c);
        let a = joined(front, seq![c]);
        let b = parts.last();
        assert(!parts[parts.len() - 1].contains(c));
        lemma_split_appended(a, b, c);
        assert(front.push(b) =~= parts);
    }
}

/// Splitting a text with one more piece behind a `c` gives one more piece.
proof fn lemma_split_appended(a: Seq<char>, b: Seq<char>, c: char)
    requires
        !b.contains(c),
    ensures
        split(a + seq![c] + b, c) == split(a, c).push(b),
    decreases a.len(),
{
    let s = a + seq![c] + b;
    let k = upto(a, c, c);
    lemma_upto(a, c, c);
    assert forall|j: int| 0 <= j < k implies s[j] != c by {
        assert(s[j] == a[j]);
    }
    assert(s[k] == c) by {
        if k < a.len() {
            assert(s[k] == a[k]);
        }
    }
    lemma_upto_is(s, c, c, k);
    assert(s.take(k) =~= a.take(k));
    if k < a.len() {
        let rest = a.skip(k + 1);
        assert(s.skip(k + 1) =~= rest + seq![c] + b);
        lemma_split_appended(rest, b, c);
        assert(split(s, c) =~= split(a, c).push(b));
    } else {
        assert(s.skip(k + 1) =~= b);
        assert forall|j: int| 0 <= j < b.len() implies b[j] != c by {
            assert(b.contains(b[j]));
        }
        lemma_upto_is(b, c, c, b.len() as int);
        assert(split(b, c) =~= seq![b]);
        assert(a.take(k) =~= a);
        assert(split(s, c) =~= split(a, c).push(b));
    }
}

// ---------------------------------------------------------------------------
// Lists of texts
// ---------------------------------------------------------------------------

/// The texts of a list, each once, where it comes first.
pub open spec fn unique(list: Seq<Seq<char>>) -> Seq<Seq<char>>
    decreases list.len(),
{
    if list.len() == 0 {
        seq![]
    } else {
        let front = unique(list.drop_last());
        if front.contains(list.last()) {
            front
        } else {
            front.push(list.last())
        }
    }
}

/// The texts of a list that are not empty.
pub open spec fn nonempty(list: Seq<Seq<char>>) -> Seq<Seq<char>>
    decreases list.len(),
{
    if list.len() == 0 {
        seq![]
    } else {
        let front = nonempty(list.drop_last());
        if list.last().len() == 0 {
            front
        } else {
            front.push(list.last())
        }
    }
}

/// What `unique` keeps is in the list, all of the list is kept, and nothing is kept twice.
pub proof fn lemma_unique(list: Seq<Seq<char>>)
    ensures
        unique(list).no_duplicates(),
        forall|t: Seq<char>| unique(list).contains(t) <==> list.contains(t),
    decreases list.len(),
{
    if list.len() > 0 {
        let front = list.drop_last();
        let u = unique(front);
        lemma_unique(front);
        let r = unique(list);
        assert forall|t: Seq<char>| r.contains(t) <==> list.contains(t) by {
            if r.contains(t) {
                let i = choose|i: int| 0 <= i < r.len() && r[i] == t;
                if i < u.len() {
                    assert(u[i] == t);
                    assert(u.contains(t));
                    assert(front.contains(t));
                    let j = choose|j: int| 0 <= j < front.len() && front[j] == t;
                    assert(list[j] == t);
                } else {
                    assert(list[list.len() - 1] == t);
                }
            }
            if list.contains(t) {
                let j = choose|j: int| 0 <= j < list.len() && list[j] == t;
                if j < front.len() {
                    assert(front[j] == t);
                    assert(front.contains(t));
                    assert(u.contains(t));
                    let i = choose|i: int| 0 <= i < u.len() && u[i] == t;
                    assert(r[i] == t);
                } else if u.contains(list.last()) {
                    assert(r == u);
                    assert(r.contains(t));
                } else {
                    assert(r[u.len() as int] == t);
                }
            }
        }
        if !u.contains(list.last()) {
            assert forall|i: int, j: int|
                0 <= i < r.len() && 0 <= j < r.len() && i != j implies r[i] != r[j] by {
                if i < u.len() && j < u.len() {
                    assert(u[i] != u[j]);
                } else if i < u.len() {
                    assert(u.contains(u[i]));
                } else {
                    assert(u.contains(u[j]));
                }
            }
        }
    } else {
        assert(unique(list) =~= list);
    }
}

/// Whether a text is in a list of strings.
pub fn listed(list: &[String], t: &str) -> (r: bool)
    ensures
        r == texts(list@).contains(t@),
{
    let n: usize = list.len();
    let mut i: usize = 0;
    while i < n
        invariant
            i <= n == list@.len(),
            forall|j: int| 0 <= j < i ==> texts(list@)[j] != t@,
        decreases n - i,
    {
        if same(&list[i], t) {
            assert(texts(list@)[i as int] == t@);
            return true;
        }
        i += 1;
    }
    false
}

// ---------------------------------------------------------------------------
// Lines and words
// ---------------------------------------------------------------------------

/// The text without one trailing carriage return.
pub open spec fn without_return(s: Seq<char>) -> Seq<char> {
    if s.len() > 0 && s.last() == '\r' {
        s.drop_last()
    } else {
        s
    }
}

/// The lines of a text: each ends at a line feed, whose preceding carriage return belongs to
/// the line ending, or at the end of the text.
pub open spec fn lines(s: Seq<char>) -> Seq<Seq<char>>
    decreases s.len(),
{
    let k = upto(s, '\n', '\n');
    if s.len() == 0 {
        seq![]
    } else if 0 <= k < s.len() {
        seq![without_return(s.take(k))] + lines(s.skip(k + 1))
    } else {
        seq![s]
    }
}

/// Splits a text into its lines.
pub fn split_lines(s: &[char]) -> (r: Vec<Vec<char>>)
    ensures
        pieces(r@) == lines(s@),
{
    let mut out: Vec<Vec<char>> = Vec::new();
    let mut from: usize = 0;
    assert(s@.skip(0) == s@);
    assert(pieces(out@) + lines(s@) =~= lines(s@));
    while from < s.len()
        invariant
            from <= s.len(),
            lines(s@) == pieces(out@) + lines(s@.skip(from as int)),
        decreases s@.len() - from,
    {
        let rest = skip(s, from);
        let k: usize = index_of_either(rest, '\n', '\n');
        let ghost before_push = out@;
        if k < rest.len() {
            let mut end: usize = k;
            if k > 0 && rest[k - 1] == '\r' {
                end = k - 1;
            }
            let piece = vec_of(take(rest, end));
            out.push(piece);
            proof {
                lemma_pieces_push(before_push, piece);
                if k > 0 {
                    assert(rest@.take(k as int).drop_last() =~= rest@.take(k - 1));
                }
                assert(piece@ == without_return(rest@.take(k as int)));
                assert(rest@.skip(k + 1) == s@.skip(from + k + 1));
                assert(pieces(before_push) + (seq![piece@] + lines(rest@.skip(k + 1))) =~= pieces(
                    out@,
                ) + lines(rest@.skip(k + 1)));
            }
            from = from + k + 1;
        } else {
            let piece = vec_of(rest);
            out.push(piece);
            proof {
                lemma_pieces_push(before_push, piece);
                assert(pieces(before_push) + seq![rest@] =~= pieces(out@));
                assert(s@.skip(s@.len() as int) =~= Seq::<char>::empty());
                assert(pieces(out@) + lines(s@.skip(s@.len() as int)) =~= pieces(out@));
            }
            from = s.len();
        }
    }
    assert(s@.skip(from as int) =~= Seq::<char>::empty());
    assert(pieces(out@) + lines(s@.skip(from as int)) =~= pieces(out@));
    out
}

/// The length of the longest prefix without white space.
pub open spec fn word_len(s: Seq<char>) -> int
    decreases s.len(),
{
    if s.len() == 0 || is_space(s[0]) {
        0
    } else {
        1 + word_len(s.drop_first())
    }
}

/// The word length stays within the text.
pub proof fn lemma_word_len(s: Seq<char>)
    ensures
        0 <= word_len(s) <= s.len(),
        s.len() > 0 && !is_space(s[0]) ==> word_len(s) > 0,
        forall|j: int| 0 <= j < word_len(s) ==> !is_space(s[j]),
        word_len(s) < s.len() ==> is_space(s[word_len(s)]),
    decreases s.len(),
{
    if s.len() > 0 && !is_space(s[0]) {
        let t = s.drop_first();
        lemma_word_len(t);
        assert forall|j: int| 0 <= j < word_len(s) implies !is_space(s[j]) by {
            if j > 0 {
                assert(s[j] == t[j - 1]);
            }
        }
    }
}

/// The maximal runs of characters that are not white space.
pub open spec fn words(s: Seq<char>) -> Seq<Seq<char>>
    decreases s.len(),
{
    if s.len() == 0 {
        seq![]
    } else if is_space(s[0]) {
        words(s.drop_first())
    } else {
        proof {
            lemma_word_len(s);
        }
        seq![s.take(word_len(s))] + words(s.skip(word_len(s)))
    }
}

/// Splits a text into words.
pub fn split_words(s: &[char]) -> (r: Vec<Vec<char>>)
    ensures
        pieces(r@) == words(s@),
{
    let mut out: Vec<Vec<char>> = Vec::new();
    let n: usize = s.len();
    let mut from: usize = 0;
    assert(s@.skip(0) == s@);
    assert(pieces(out@) + words(s@) =~= words(s@));
    while from < n
        invariant
            from <= n == s@.len(),
            words(s@) == pieces(out@) + words(s@.skip(from as int)),
        decreases n - from,
    {
        let ghost rest = s@.skip(from as int);
        if space(s[from]) {
            assert(rest.drop_first() == s@.skip(from + 1));
            from += 1;
        } else {
            let mut to: usize = from;
            assert(rest.skip(0) == rest);
            while to < n && !space(s[to])
                invariant
                    from <= to <= n == s@.len(),
                    rest == s@.skip(from as int),
                    word_len(rest) == to - from + word_len(rest.skip(to - from)),
                decreases n - to,
            {
                assert(rest.skip(to - from).drop_first() == rest.skip(to - from + 1));
                to += 1;
            }
            let ghost before_push = out@;
            let piece = vec_of(slice_subrange(s, from, to));
            out.push(piece);
            proof {
                lemma_word_len(rest);
                assert(word_len(rest) == to - from);
                lemma_pieces_push(before_push, piece);
                assert(piece@ =~= rest.take(to - from));
                assert(rest.skip(to - from) == s@.skip(to as int));
                assert(pieces(before_push) + (seq![piece@] + words(rest.skip(to - from)))
                    =~= pieces(out@) + words(rest.skip(to - from)));
            }
            from = to;
        }
    }
    assert(s@.skip(from as int) =~= Seq::<char>::empty());
    assert(pieces(out@) + words(s@.skip(from as int)) =~= pieces(out@));
    out
}

// ---------------------------------------------------------------------------
// Joining and replacing
// ---------------------------------------------------------------------------

/// The texts one after the other, with `sep` between them.
pub open spec fn joined(parts: Seq<Seq<char>>, sep: Seq<char>) -> Seq<char>
    decreases parts.len(),
{
    if parts.len() == 0 {
        seq![]
    } else if parts.len() == 1 {
        parts[0]
    } else {
        joined(parts.drop_last(), sep) + sep + parts.last()
    }
}

/// Joins texts with a separator between them.
pub fn join(parts: &[Vec<char>], sep: &[char]) -> (r: Vec<char>)
    ensures
        r@ == joined(pieces(parts@), sep@),
{
    let mut out: Vec<char> = Vec::new();
    let n: usize = parts.len();
    let mut i: usize = 0;
    let ghost all = pieces(parts@);
    assert(joined(all.take(0), sep@) =~= out@);
    while i < n
        invariant
            i <= n == parts@.len(),
            all == pieces(parts@),
            out@ == joined(all.take(i as int), sep@),
        decreases n - i,
    {
        if i > 0 {
            push_all(&mut out, sep);
        }
        push_all(&mut out, &parts[i]);
        i += 1;
        proof {
            assert(all.take(i as int).drop_last() == all.take(i - 1));
            assert(all.take(i as int).last() == all[i - 1]);
            if i == 1 {
                assert(out@ =~= all[0]);
            }
        }
    }
    assert(all.take(n as int) == all);
    out
}

/// The text with the first `pat` replaced by `with`.
pub open spec fn first_replaced(s: Seq<char>, pat: Seq<char>, with: Seq<char>) -> Seq<char> {
    match found(s, pat) {
        Some(k) => s.take(k) + with + s.skip(k + pat.len()),
        None => s,
    }
}

/// Replaces the first `pat` by `with`.
pub fn replace_first(s: &[char], pat: &[char], with: &[char]) -> (r: Vec<char>)
    ensures
        r@ == first_replaced(s@, pat@, with@),
{
    match find(s, pat) {
        Some(k) => {
            let mut out = vec_of(take(s, k));
            push_all(&mut out, with);
            push_all(&mut out, skip(s, k + pat.len()));
            out
        },
        None => vec_of(s),
    }
}

/// The text with each `a` and `b` replaced by `to`.
pub open spec fn replaced_either(s: Seq<char>, a: char, b: char, to: char) -> Seq<char> {
    Seq::new(s.len(), |i: int| if s[i] == a || s[i] == b { to } else { s[i] })
}

/// Replaces each `a` and `b` by `to`.
pub fn replace_either(s: &[char], a: char, b: char, to: char) -> (r: Vec<char>)
    ensures
        r@ == replaced_either(s@, a, b, to),
{
    let mut out: Vec<char> = Vec::new();
    let n: usize = s.len();
    let mut i: usize = 0;
    while i < n
        invariant
            i <= n == s@.len(),
            out@.len() == i,
            forall|j: int|
                0 <= j < i ==> out@[j] == (if s@[j] == a || s@[j] == b {
                    to
                } else {
                    s@[j]
                }),
        decreases n - i,
    {
        let c: char = s[i];
        if c == a || c == b {
            out.push(to);
        } else {
            out.push(c);
        }
        i += 1;
    }
    out
}

// ---------------------------------------------------------------------------
// Laws
// ---------------------------------------------------------------------------

/// Changing the case changes the ASCII letters of the other case and nothing else.
pub proof fn law_case(s: Seq<char>, i: int)
    requires
        0 <= i < s.len(),
    ensures
        lowered(s).len() == s.len(),
        uppered(s).len() == s.len(),
        'A' <= s[i] <= 'Z' ==> lowered(s)[i] as int == s[i] as int + 32,
        !('A' <= s[i] <= 'Z') ==> lowered(s)[i] == s[i],
        'a' <= s[i] <= 'z' ==> uppered(s)[i] as int == s[i] as int - 32,
        !('a' <= s[i] <= 'z') ==> uppered(s)[i] == s[i],
{
}

/// Among the characters of ASCII, tab, line feed, vertical tab, form feed, carriage return and
/// space are white space; letters, digits and punctuation are not.
pub proof fn law_ascii_space(c: char)
    requires
        c < '\u{80}',
    ensures
        is_space(c) <==> c == ' ' || c == '\t' || c == '\n' || c == '\u{b}' || c == '\u{c}' || c
            == '\r',
{
}

/// A text with something before and behind it is found in the whole, and what is found stands so
/// in the whole.
pub proof fn law_has(a: Seq<char>, pat: Seq<char>, b: Seq<char>, s: Seq<char>)
    ensures
        has(a + pat + b, pat),
        has(s, pat) ==> exists|x: Seq<char>, y: Seq<char>| s == #[trigger] (x + pat + y),
{
    let all = a + pat + b;
    assert(all.subrange(a.len() as int, (a.len() + pat.len()) as int) =~= pat);
    assert(occurs_at(all, pat, a.len() as int));
    if has(s, pat) {
        let i = choose|i: int| occurs_at(s, pat, i);
        let x = s.take(i);
        let y = s.skip(i + pat.len());
        assert(s =~= x + pat + y);
    }
}

/// A text is cut at the first of a character.
pub proof fn law_cut(a: Seq<char>, c: char, b: Seq<char>)
    requires
        !a.contains(c),
    ensures
        cut(a + seq![c] + b, c) == Some((a, b)),
        before(a + seq![c] + b, c, c) == a,
        cut(a, c) is None,
        before(a, c, c) == a,
{
    let s = a + seq![c] + b;
    let n = a.len() as int;
    assert forall|j: int| 0 <= j < n implies a[j] != c by {
        assert(a.contains(a[j]));
    }
    assert forall|j: int| 0 <= j < n implies s[j] != c by {
        assert(s[j] == a[j]);
    }
    assert(s[n] == c);
    lemma_upto_is(s, c, c, n);
    lemma_upto_is(a, c, c, n);
    assert(s.take(n) =~= a);
    assert(s.skip(n + 1) =~= b);
    assert(a.take(n) =~= a);
}

/// A text is cut at the first occurrence of another.
pub proof fn law_cut_text(a: Seq<char>, pat: Seq<char>, b: Seq<char>)
    requires
        forall|j: int| 0 <= j < a.len() ==> !occurs_at(a + pat + b, pat, j),
    ensures
        cut_text(a + pat + b, pat) == Some((a, b)),
{
    let s = a + pat + b;
    let n = a.len() as int;
    assert(s.subrange(n, n + pat.len()) =~= pat);
    lemma_found_is_first(s, pat, n);
    assert(s.take(n) =~= a);
    assert(s.skip(n + pat.len()) =~= b);
}

/// What follows a start is what is left without it; a text with another start has none.
pub proof fn law_stripped(pat: Seq<char>, rest: Seq<char>, s: Seq<char>)
    ensures
        stripped(pat + rest, pat) == Some(rest),
        stripped(s, pat) matches Some(r) ==> s == pat + r,
{
    assert(pat.is_prefix_of(pat + rest));
    assert((pat + rest).skip(pat.len() as int) =~= rest);
    if stripped(s, pat) is Some {
        assert(s =~= pat + stripped(s, pat)->0);
    }
}

/// White space around a text is removed, and nothing within it.
pub proof fn law_trimmed(a: Seq<char>, s: Seq<char>, b: Seq<char>)
    requires
        forall|i: int| 0 <= i < a.len() ==> is_space(#[trigger] a[i]),
        forall|i: int| 0 <= i < b.len() ==> is_space(#[trigger] b[i]),
        s.len() > 0 ==> !is_space(s[0]) && !is_space(s.last()),
    ensures
        trimmed(a + s + b) == s,
    decreases a.len(), b.len(),
{
    let all = a + s + b;
    if a.len() > 0 {
        assert(all[0] == a[0]);
        assert forall|i: int| 0 <= i < a.drop_first().len() implies is_space(
            #[trigger] a.drop_first()[i],
        ) by {
            assert(a.drop_first()[i] == a[i + 1]);
        }
        law_trimmed(a.drop_first(), s, b);
        assert(all.drop_first() =~= a.drop_first() + s + b);
    } else if s.len() == 0 && b.len() > 0 {
        assert(all =~= b);
        assert(is_space(b[0]));
        assert forall|i: int| 0 <= i < b.drop_first().len() implies is_space(
            #[trigger] b.drop_first()[i],
        ) by {
            assert(b.drop_first()[i] == b[i + 1]);
        }
        law_trimmed(a, s, b.drop_first());
        assert(all.drop_first() =~= a + s + b.drop_first());
    } else if s.len() > 0 {
        assert(all[0] == s[0]);
        assert(trimmed_start(all) == all);
        lemma_end_is_trimmed(s, b);
        assert(all =~= s + b);
    } else {
        assert(all =~= s);
    }
}

/// White space behind a text is removed.
proof fn lemma_end_is_trimmed(s: Seq<char>, b: Seq<char>)
    requires
        forall|i: int| 0 <= i < b.len() ==> is_space(#[trigger] b[i]),
        s.len() > 0,
        !is_space(s.last()),
    ensures
        trimmed_end(s + b) == s,
    decreases b.len(),
{
    let all = s + b;
    if b.len() > 0 {
        assert(all.last() == b[b.len() - 1]);
        assert forall|i: int| 0 <= i < b.drop_last().len() implies is_space(
            #[trigger] b.drop_last()[i],
        ) by {
            assert(b.drop_last()[i] == b[i]);
        }
        lemma_end_is_trimmed(s, b.drop_last());
        assert(all.drop_last() =~= s + b.drop_last());
    } else {
        assert(all =~= s);
    }
}

/// A character is removed from the start as often as it stands there, and from the end.
pub proof fn law_without(a: Seq<char>, s: Seq<char>, c: char)
    requires
        forall|i: int| 0 <= i < a.len() ==> #[trigger] a[i] == c,
    ensures
        s.len() == 0 || s[0] != c ==> without_leading(a + s, c) == s,
        s.len() == 0 || s.last() != c ==> without_trailing(s + a, c) == s,
    decreases a.len(),
{
    if a.len() > 0 {
        assert(a[0] == c && a[a.len() - 1] == c);
        let rest = a.drop_first();
        assert forall|i: int| 0 <= i < rest.len() implies #[trigger] rest[i] == c by {
            assert(rest[i] == a[i + 1]);
        }
        law_without(rest, s, c);
        assert((a + s).drop_first() =~= rest + s);
        assert((s + a).drop_last() =~= s + rest);
    } else {
        assert(a + s =~= s);
        assert(s + a =~= s);
    }
}

/// The first word of a text is what stands before its first white space; white space before a
/// word counts for nothing.
pub proof fn law_words(w: Seq<char>, space: char, rest: Seq<char>)
    requires
        w.len() > 0,
        forall|i: int| 0 <= i < w.len() ==> !is_space(#[trigger] w[i]),
        is_space(space),
    ensures
        words(w) == seq![w],
        words(w + seq![space] + rest) == seq![w] + words(rest),
        words(seq![space] + rest) == words(rest),
{
    let s = w + seq![space] + rest;
    let n = w.len() as int;
    lemma_word_len(s);
    lemma_word_len(w);
    assert(s[0] == w[0]);
    assert forall|j: int| 0 <= j < n implies !is_space(s[j]) by {
        assert(s[j] == w[j]);
    }
    assert(s[n] == space);
    assert(word_len(s) == n) by {
        if word_len(s) < n {
            assert(!is_space(s[word_len(s)]));
        }
        if word_len(s) > n {
            assert(!is_space(s[n]));
        }
    }
    assert(word_len(w) == n) by {
        if word_len(w) < n {
            assert(!is_space(w[word_len(w)]));
        }
    }
    assert(s.take(n) =~= w);
    let back = s.skip(n);
    assert(back =~= seq![space] + rest);
    assert(back.drop_first() =~= rest);
    reveal_with_fuel(words, 2);
    assert(words(back) == words(rest));
    assert((seq![space] + rest).drop_first() =~= rest);
    assert(w.take(n) =~= w);
    assert(w.skip(n) =~= Seq::<char>::empty());
    assert(words(w.skip(n)) =~= Seq::<Seq<char>>::empty());
    assert(words(w) =~= seq![w]);
}

/// Words with one space between them are found again.
pub proof fn law_words_joined(parts: Seq<Seq<char>>)
    requires
        forall|i: int| 0 <= i < parts.len() ==> (#[trigger] parts[i]).len() > 0,
        forall|i: int, j: int|
            0 <= i < parts.len() && 0 <= j < parts[i].len() ==> !is_space(#[trigger] parts[i][j]),
    ensures
        words(joined(parts, seq![' '])) == parts,
    decreases parts.len(),
{
    let sep = seq![' '];
    if parts.len() == 0 {
        assert(words(joined(parts, sep)) =~= parts);
    } else if parts.len() == 1 {
        law_words(parts[0], ' ', seq![]);
        assert(seq![parts[0]] =~= parts);
    } else {
        let rest = parts.drop_first();
        assert forall|i: int| 0 <= i < rest.len() implies (#[trigger] rest[i]).len() > 0 by {
            assert(rest[i] == parts[i + 1]);
        }
        assert forall|i: int, j: int|
            0 <= i < rest.len() && 0 <= j < rest[i].len() implies !is_space(
            #[trigger] rest[i][j],
        ) by {
            assert(rest[i][j] == parts[i + 1][j]);
        }
        law_words_joined(rest);
        lemma_joined_first(parts, sep);
        law_words(parts[0], ' ', joined(rest, sep));
        assert(seq![parts[0]] + rest =~= parts);
    }
}

/// Joined texts are the first of them, the separator, and the others joined.
pub proof fn lemma_joined_first(parts: Seq<Seq<char>>, sep: Seq<char>)
    requires
        parts.len() > 1,
    ensures
        joined(parts, sep) == parts[0] + sep + joined(parts.drop_first(), sep),
    decreases parts.len(),
{
    reveal_with_fuel(joined, 2);
    let rest = parts.drop_first();
    if parts.len() == 2 {
        assert(parts.drop_last() =~= seq![parts[0]]);
        assert(rest =~= seq![parts[1]]);
    } else {
        lemma_joined_first(parts.drop_last(), sep);
        assert(parts.drop_last().drop_first() =~= rest.drop_last());
        assert(parts[0] + sep + joined(rest.drop_last(), sep) + sep + parts.last() =~= parts[0]
            + sep + (joined(rest.drop_last(), sep) + sep + parts.last()));
    }
}

/// A line ends at the first line feed, and a carriage return before that is no part of it; the
/// last line needs no end.
pub proof fn law_lines(a: Seq<char>, rest: Seq<char>)
    requires
        !a.contains('\n'),
    ensures
        lines(seq![]) == Seq::<Seq<char>>::empty(),
        a.len() > 0 ==> lines(a) == seq![a],
        a.len() == 0 || a.last() != '\r' ==> lines(a + seq!['\n'] + rest) == seq![a] + lines(rest),
        lines(a + seq!['\r', '\n'] + rest) == seq![a] + lines(rest),
{
    law_cut(a, '\n', rest);
    let n = a.len() as int;
    let s = a + seq!['\n'] + rest;
    let b = a.push('\r');
    let t = a + seq!['\r', '\n'] + rest;
    assert(t =~= b + seq!['\n'] + rest);
    assert(!b.contains('\n')) by {
        if b.contains('\n') {
            let j = choose|j: int| 0 <= j < b.len() && b[j] == '\n';
            assert(a[j] == '\n');
        }
    }
    law_cut(b, '\n', rest);
    lemma_upto(s, '\n', '\n');
    lemma_upto(t, '\n', '\n');
    lemma_upto(a, '\n', '\n');
    assert(b.drop_last() =~= a);
    assert(without_return(b) == a);
}

/// Texts that are not empty are kept, in their order, and no others.
pub proof fn law_nonempty(list: Seq<Seq<char>>)
    ensures
        nonempty(list) == list.filter(|t: Seq<char>| t.len() > 0),
    decreases list.len(),
{
    reveal(Seq::filter);
    if list.len() > 0 {
        law_nonempty(list.drop_last());
    } else {
        assert(nonempty(list) =~= list.filter(|t: Seq<char>| t.len() > 0));
    }
}

/// A text is listed where it comes first: one that was there before adds nothing.
pub proof fn law_unique(list: Seq<Seq<char>>, t: Seq<char>)
    ensures
        list.contains(t) ==> unique(list.push(t)) == unique(list),
        !list.contains(t) ==> unique(list.push(t)) == unique(list).push(t),
        unique(seq![]) == Seq::<Seq<char>>::empty(),
{
    lemma_unique(list);
    assert(list.push(t).drop_last() =~= list);
}

/// What stands behind the last of a character.
pub proof fn law_behind_last(a: Seq<char>, c: char, b: Seq<char>)
    requires
        !b.contains(c),
    ensures
        behind_last(a + seq![c] + b, c) == b,
        behind_last(b, c) == b,
    decreases b.len(),
{
    let s = a + seq![c] + b;
    if b.len() > 0 {
        let front = b.drop_last();
        assert(b.contains(b[b.len() - 1]));
        assert(!front.contains(c)) by {
            if front.contains(c) {
                let j = choose|j: int| 0 <= j < front.len() && front[j] == c;
                assert(b[j] == c);
            }
        }
        law_behind_last(a, c, front);
        assert(s.drop_last() =~= a + seq![c] + front);
        assert(front.push(b.last()) =~= b);
    } else {
        assert(s.last() == c);
        assert(behind_last(s, c) =~= b);
        assert(behind_last(b, c) =~= b);
    }
}

/// The first occurrence of a text is replaced, and nothing else.
pub proof fn law_first_replaced(a: Seq<char>, pat: Seq<char>, b: Seq<char>, with: Seq<char>)
    requires
        forall|j: int| 0 <= j < a.len() ==> !occurs_at(a + pat + b, pat, j),
    ensures
        first_replaced(a + pat + b, pat, with) == a + with + b,
{
    let s = a + pat + b;
    let n = a.len() as int;
    assert(s.subrange(n, n + pat.len()) =~= pat);
    lemma_found_is_first(s, pat, n);
    assert(s.take(n) =~= a);
    assert(s.skip(n + pat.len()) =~= b);
}

/// Two characters are replaced wherever they stand, and no others.
pub proof fn law_replaced_either(s: Seq<char>, a: char, b: char, to: char, i: int)
    requires
        0 <= i < s.len(),
    ensures
        replaced_either(s, a, b, to).len() == s.len(),
        replaced_either(s, a, b, to)[i] == if s[i] == a || s[i] == b {
            to
        } else {
            s[i]
        },
{
}

/// A text is split at every one of a character: the first piece is what stands before the first.
pub proof fn law_split(a: Seq<char>, c: char, rest: Seq<char>)
    requires
        !a.contains(c),
    ensures
        split(a, c) == seq![a],
        split(a + seq![c] + rest, c) == seq![a] + split(rest, c),
{
    let s = a + seq![c] + rest;
    let n = a.len() as int;
    lemma_upto(a, c, c);
    lemma_upto(s, c, c);
    let k = upto(s, c, c);
    assert(s[n] == c);
    if k < n {
        assert(s[k] == a[k]);
        assert(a.contains(a[k]));
    }
    let j = upto(a, c, c);
    if j < n {
        assert(a.contains(a[j]));
    }
    assert(s.take(n) =~= a);
    assert(s.skip(n + 1) =~= rest);
}

/// Bytes are the text that they encode, and none where they encode none.
pub proof fn law_decoded(s: Seq<char>, bytes: Seq<u8>)
    ensures
        decoded(vstd::utf8::encode_utf8(s)) == Some(s),
        decoded_lossily(vstd::utf8::encode_utf8(s)) == s,
        !vstd::utf8::valid_utf8(bytes) ==> decoded(bytes) is None,
{
    vstd::utf8::encode_utf8_valid_utf8(s);
    vstd::utf8::encode_utf8_decode_utf8(s);
}

/// The letters and digits of ASCII, and no other characters.
pub proof fn law_letters_and_digits(c: char)
    ensures
        is_alphanumeric(c) <==> '0' <= c <= '9' || 'A' <= c <= 'Z' || 'a' <= c <= 'z',
        is_digit(c) <==> '0' <= c <= '9',
{
}

} // verus!
