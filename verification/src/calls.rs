//! Recorded calls, in the form in which they are compared.
use crate::diff;
use crate::diff::IgnoreRules;
use crate::http_util;
use crate::json;
use crate::json::Json;
use crate::number;
use crate::order;
use crate::pattern;
use crate::rewrite;
use crate::snapshot;
use crate::snapshot::Snapshot;
use crate::text;
use vstd::prelude::*;

verus! {

// ---------------------------------------------------------------------------
// Queries
// ---------------------------------------------------------------------------

/// A parameter of a query: its name and its value.
pub type Pair = (Seq<char>, Seq<char>);

impl order::Ranked for (String, String) {
    open spec fn le(self, other: Self) -> bool {
        if self.0@ == other.0@ {
            order::text_le(self.1@, other.1@)
        } else {
            order::text_le(self.0@, other.0@)
        }
    }

    fn may_precede(&self, other: &Self) -> (r: bool) {
        if text::same(&self.0, &other.0) {
            order::string_no_later(&self.1, &other.1)
        } else {
            order::string_no_later(&self.0, &other.0)
        }
    }

    proof fn total(a: Self, b: Self) {
        order::lemma_text_le_total(a.0@, b.0@);
        order::lemma_text_le_total(a.1@, b.1@);
    }

    proof fn transitive(a: Self, b: Self, c: Self) {
        if a.0@ == b.0@ && b.0@ == c.0@ {
            order::lemma_text_le_transitive(a.1@, b.1@, c.1@);
        } else if a.0@ != b.0@ && b.0@ != c.0@ {
            order::lemma_text_le_transitive(a.0@, b.0@, c.0@);
            if a.0@ == c.0@ {
                order::lemma_text_le_antisymmetric(a.0@, b.0@);
            }
        }
    }
}

/// The order of parameters: by their names, then by their values.
pub open spec fn pair_order() -> spec_fn(Pair, Pair) -> bool {
    |a: Pair, b: Pair|
        if a.0 == b.0 {
            order::text_le(a.1, b.1)
        } else {
            order::text_le(a.0, b.0)
        }
}

/// The query of a URL; empty where it has none.
pub open spec fn query_of_url(url: Seq<char>) -> Seq<char> {
    let rest = match text::cut_text(url, "://"@) {
        Some((scheme, rest)) => rest,
        None => url,
    };
    match text::cut(rest, '?') {
        Some((front, query)) => query,
        None => Seq::empty(),
    }
}

/// The parameters that pieces of a query give: those with an equals sign.
pub open spec fn pairs_of(pieces: Seq<Seq<char>>) -> Seq<Pair>
    decreases pieces.len(),
{
    if pieces.len() == 0 {
        seq![]
    } else {
        let front = pairs_of(pieces.drop_last());
        match text::cut(pieces.last(), '=') {
            Some(pair) => front.push(pair),
            None => front,
        }
    }
}

/// The parameters of a URL in their order.
pub open spec fn sorted_query(url: Seq<char>) -> Seq<Pair> {
    order::sorted_by(pairs_of(text::split(query_of_url(url), '&')), pair_order())
}

/// The view of parameters.
pub open spec fn pair_views(list: Seq<(String, String)>) -> Seq<Pair> {
    list.map_values(|p: (String, String)| (p.0@, p.1@))
}

/// Reads the parameters of a URL.
fn read_query(url: &str) -> (r: Vec<(String, String)>)
    ensures
        pair_views(r@) == sorted_query(url@),
{
    let cs = text::chars_of(url);
    let rest: &[char] = match text::split_once(&cs, "://") {
        Some((_, rest)) => rest,
        None => &cs,
    };
    let query: Vec<char> = match text::split_once_at(rest, '?') {
        Some((_, query)) => text::vec_of(query),
        None => Vec::new(),
    };
    assert(query@ =~= query_of_url(url@));
    let pieces = text::split_at_char(&query, '&');
    let ghost all = text::split(query@, '&');
    let n: usize = pieces.len();
    let mut out: Vec<(String, String)> = Vec::new();
    let mut i: usize = 0;
    assert(pair_views(out@) =~= pairs_of(all.take(0)));
    while i < n
        invariant
            i <= n == pieces@.len(),
            all == text::pieces(pieces@),
            pair_views(out@) == pairs_of(all.take(i as int)),
        decreases n - i,
    {
        assert(all.take(i + 1).drop_last() =~= all.take(i as int));
        assert(all.take(i + 1).last() == pieces@[i as int]@);
        if let Some((k, v)) = text::split_once_at(&pieces[i], '=') {
            let pair = (text::string_of(k), text::string_of(v));
            let ghost before = out@;
            out.push(pair);
            assert(pair_views(out@) =~= pair_views(before).push((pair.0@, pair.1@)));
        }
        i += 1;
    }
    assert(all.take(n as int) =~= all);
    proof {
        let f = |p: (String, String)| (p.0@, p.1@);
        order::lemma_sorted_as(out@, f, pair_order());
        assert(pair_views(out@) =~= out@.map_values(f));
        assert(pair_views(order::sorted(out@)) =~= order::sorted(out@).map_values(f));
    }
    order::sort(out)
}

// ---------------------------------------------------------------------------
// Calls
// ---------------------------------------------------------------------------

/// A recorded call.
#[derive(Debug)]
pub struct CallRecord {
    pub id: String,
    /// The method, in upper case.
    pub method: String,
    /// The path without the query.
    pub path: String,
    /// The parameters of the query in their order.
    pub query: Vec<(String, String)>,
    pub request_body: String,
    pub status: u16,
    pub response_body: String,
    pub response_body_encoding: String,
}

/// The model of a call.
#[verifier::ext_equal]
pub struct Call {
    /// The id of the snapshot.
    pub id: Seq<char>,
    /// The method, in upper case.
    pub method: Seq<char>,
    /// The path without the query.
    pub path: Seq<char>,
    /// The parameters of the query in their order.
    pub query: Seq<Pair>,
    /// The body of the request, as it is stored.
    pub request_body: Seq<char>,
    /// The status of the answer.
    pub status: u16,
    /// The body of the answer.
    pub response_body: Seq<u8>,
}

impl View for CallRecord {
    type V = Call;

    open spec fn view(&self) -> Call {
        Call {
            id: self.id@,
            method: self.method@,
            path: self.path@,
            query: pair_views(self.query@),
            request_body: self.request_body@,
            status: self.status,
            response_body: snapshot::body_bytes(self.response_body@, self.response_body_encoding@),
        }
    }
}

impl Clone for CallRecord {
    fn clone(&self) -> (r: Self)
        ensures
            r@ == self@,
    {
        let n: usize = self.query.len();
        let mut query: Vec<(String, String)> = Vec::new();
        let mut i: usize = 0;
        while i < n
            invariant
                i <= n == self.query@.len(),
                query@ == self.query@.take(i as int),
            decreases n - i,
        {
            query.push((self.query[i].0.clone(), self.query[i].1.clone()));
            i += 1;
            assert(query@ =~= self.query@.take(i as int));
        }
        assert(self.query@.take(n as int) =~= self.query@);
        CallRecord {
            id: self.id.clone(),
            method: self.method.clone(),
            path: self.path.clone(),
            query,
            request_body: self.request_body.clone(),
            status: self.status,
            response_body: self.response_body.clone(),
            response_body_encoding: self.response_body_encoding.clone(),
        }
    }
}

/// The models of calls.
pub open spec fn call_views(list: Seq<CallRecord>) -> Seq<Call> {
    list.map_values(|c: CallRecord| c@)
}

/// The call of a snapshot.
pub open spec fn call_of(s: Snapshot) -> Call {
    Call {
        id: s.id@,
        method: text::uppered(s.request.method@),
        path: rewrite::path_of_url(s.request.url@),
        query: sorted_query(s.request.url@),
        request_body: s.request.body@,
        status: s.response.status,
        response_body: snapshot::body_bytes(s.response.body@, s.response.body_encoding@),
    }
}

/// The calls of snapshots.
pub open spec fn calls_of(list: Seq<Snapshot>) -> Seq<Call> {
    list.map_values(|s: Snapshot| call_of(s))
}

impl CallRecord {
    /// The call of a snapshot.
    pub fn from_snapshot(snap: &Snapshot) -> (r: Self)
        ensures
            r@ == call_of(*snap),
    {
        CallRecord {
            id: snap.id.clone(),
            method: text::string_of(&text::to_upper(&text::chars_of(&snap.request.method))),
            path: rewrite::url_path(&snap.request.url),
            query: read_query(&snap.request.url),
            request_body: snap.request.body.clone(),
            status: snap.response.status,
            response_body: snap.response.body.clone(),
            response_body_encoding: snap.response.body_encoding.clone(),
        }
    }

    /// What a call has in common with those that it can be paired with.
    pub fn fingerprint(&self, rules: &IgnoreRules) -> (r: String)
        ensures
            r@ == fingerprint_of(self@, rules@),
    {
        let parts = order::sort_strings(self.parts(rules));
        let n: usize = parts.len();
        let ghost all = text::texts(parts@);
        let mut pieces: Vec<Vec<char>> = Vec::new();
        let mut i: usize = 0;
        assert(text::pieces(pieces@) =~= all.take(0));
        while i < n
            invariant
                i <= n == parts@.len(),
                all == text::texts(parts@),
                text::pieces(pieces@) == all.take(i as int),
            decreases n - i,
        {
            let piece = text::chars_of(&parts[i]);
            proof {
                text::lemma_pieces_push(pieces@, piece);
                assert(all.take(i + 1) =~= all.take(i as int).push(piece@));
            }
            pieces.push(piece);
            i += 1;
        }
        assert(all.take(n as int) =~= all);
        let sep = text::chars_of("|");
        text::string_of(&text::join(&pieces, &sep))
    }

    /// The parts of the fingerprint of a call.
    fn parts(&self, rules: &IgnoreRules) -> (r: Vec<String>)
        ensures
            text::texts(r@) == fingerprint_parts(self@, rules@),
    {
        let ghost all = query_parts(pair_views(self.query@), rules@);
        let mut out: Vec<String> = Vec::new();
        let n: usize = self.query.len();
        let mut i: usize = 0;
        assert(text::texts(out@) =~= all.take(0));
        while i < n
            invariant
                i <= n == self.query@.len(),
                all == query_parts(pair_views(self.query@), rules@),
                text::texts(out@) == all.take(i as int),
            decreases n - i,
        {
            let part = write_query_part(&self.query[i].0, &self.query[i].1, rules);
            proof {
                text::lemma_texts_push(out@, part);
                assert(pair_views(self.query@)[i as int] == (
                    self.query@[i as int].0@,
                    self.query@[i as int].1@,
                ));
                assert(all.take(i + 1) =~= all.take(i as int).push(part@));
            }
            out.push(part);
            i += 1;
        }
        assert(all.take(n as int) =~= all);
        match json::parse(&self.request_body) {
            Ok(v) => {
                let more = json_parts(&v, "$", rules);
                append_strings(&mut out, more);
            },
            Err(_) => {
                let body = text::chars_of(&self.request_body);
                if body.len() > 0 {
                    let mut part = text::chars_of("body-raw:");
                    text::push_all(&mut part, &body);
                    let part = text::string_of(&part);
                    proof {
                        text::lemma_texts_push(out@, part);
                        assert(all.push(part@) =~= all + seq![part@]);
                    }
                    out.push(part);
                } else {
                    assert(all + Seq::<Seq<char>>::empty() =~= all);
                }
            },
        }
        out
    }
}

// ---------------------------------------------------------------------------
// Fingerprints
// ---------------------------------------------------------------------------

/// The part of a fingerprint for a parameter.
pub open spec fn query_part(p: Pair, rules: Seq<Seq<char>>) -> Seq<char> {
    "q:"@ + p.0 + "="@ + if diff::is_ignored(rules, "$.query."@ + p.0) {
        "<dynamic>"@
    } else {
        p.1
    }
}

/// The parts of a fingerprint for a query.
pub open spec fn query_parts(query: Seq<Pair>, rules: Seq<Seq<char>>) -> Seq<Seq<char>> {
    query.map_values(|p: Pair| query_part(p, rules))
}

/// The parts of a fingerprint for a JSON value at a path: one for each value that is neither a
/// list nor an object. A member that a rule covers has one, without its value.
pub open spec fn value_parts(
    t: json::Tree,
    path: Seq<char>,
    rules: Seq<Seq<char>>,
) -> Seq<Seq<char>>
    decreases t, 0int,
{
    match t {
        json::Tree::Object(members) => member_parts(members, members.len(), path, rules),
        json::Tree::List(items) => item_parts(items, items.len(), path, rules),
        _ => seq![path + "="@ + diff::summary(t)],
    }
}

/// The parts for the first `n` members of an object.
pub open spec fn member_parts(
    members: Seq<(Seq<char>, json::Tree)>,
    n: nat,
    path: Seq<char>,
    rules: Seq<Seq<char>>,
) -> Seq<Seq<char>>
    decreases members, n,
{
    if n == 0 || n > members.len() {
        seq![]
    } else {
        let k = (n - 1) as nat;
        let at = diff::member_path(path, members[k as int].0);
        member_parts(members, k, path, rules) + if diff::is_ignored(rules, at) {
            seq![at + "=<dynamic>"@]
        } else {
            value_parts(members[k as int].1, at, rules)
        }
    }
}

/// The parts for the first `n` items of a list.
pub open spec fn item_parts(
    items: Seq<json::Tree>,
    n: nat,
    path: Seq<char>,
    rules: Seq<Seq<char>>,
) -> Seq<Seq<char>>
    decreases items, n,
{
    if n == 0 || n > items.len() {
        seq![]
    } else {
        let k = (n - 1) as nat;
        item_parts(items, k, path, rules) + value_parts(
            items[k as int],
            diff::item_path(path, k),
            rules,
        )
    }
}

/// The parts of the fingerprint of a call: its parameters, and the fields of its body where that
/// is JSON, or else the body.
pub open spec fn fingerprint_parts(c: Call, rules: Seq<Seq<char>>) -> Seq<Seq<char>> {
    query_parts(c.query, rules) + match json::json_parsed(c.request_body) {
        Ok(t) => value_parts(t, "$"@, rules),
        Err(_) => if c.request_body.len() > 0 {
            seq!["body-raw:"@ + c.request_body]
        } else {
            seq![]
        },
    }
}

/// The fingerprint of a call: its parts in their order.
pub open spec fn fingerprint_of(c: Call, rules: Seq<Seq<char>>) -> Seq<char> {
    text::joined(order::sorted_texts(fingerprint_parts(c, rules)), "|"@)
}

/// Writes the part of a fingerprint for a parameter.
fn write_query_part(name: &str, value: &str, rules: &IgnoreRules) -> (r: String)
    ensures
        r@ == query_part((name@, value@), rules@),
{
    let mut at = text::chars_of("$.query.");
    text::push_str(&mut at, name);
    let mut out = text::chars_of("q:");
    text::push_str(&mut out, name);
    text::push_str(&mut out, "=");
    if rules.matches(&text::string_of(&at)) {
        text::push_str(&mut out, "<dynamic>");
    } else {
        text::push_str(&mut out, value);
    }
    text::string_of(&out)
}

/// Adds strings to a list.
pub fn append_strings(out: &mut Vec<String>, more: Vec<String>)
    ensures
        text::texts(final(out)@) == text::texts(old(out)@) + text::texts(more@),
{
    let mut more = more;
    let ghost (a, b) = (out@, more@);
    out.append(&mut more);
    assert(text::texts(a + b) =~= text::texts(a) + text::texts(b));
}

/// Writes the parts of a fingerprint for a JSON value.
fn json_parts(v: &Json, path: &str, rules: &IgnoreRules) -> (r: Vec<String>)
    ensures
        text::texts(r@) == value_parts(json::tree_of(*v), path@, rules@),
    decreases v,
{
    let mut out: Vec<String> = Vec::new();
    assert(text::texts(out@) =~= Seq::<Seq<char>>::empty());
    match v {
        Json::Object(members) => {
            let ghost trees = json::member_trees(members@);
            proof {
                json::lemma_object(*members);
            }
            let n: usize = members.len();
            let mut i: usize = 0;
            while i < n
                invariant
                    i <= n == members@.len(),
                    trees == json::member_trees(members@),
                    *v == Json::Object(*members),
                    text::texts(out@) == member_parts(trees, i as nat, path@, rules@),
                decreases n - i,
            {
                let at = diff::write_member_path(path, &members[i].0);
                proof {
                    assert((i + 1 - 1) as nat == i as nat);
                    assert(trees[i as int] == (
                        members@[i as int].0@,
                        json::tree_of(members@[i as int].1),
                    ));
                }
                if rules.matches(&at) {
                    let mut part = text::chars_of(&at);
                    text::push_str(&mut part, "=<dynamic>");
                    let part = text::string_of(&part);
                    proof {
                        text::lemma_texts_push(out@, part);
                        assert(text::texts(out@).push(part@) =~= text::texts(out@) + seq![part@]);
                    }
                    out.push(part);
                } else {
                    proof {
                        assert(decreases_to!(*v => v->Object_0));
                        assert(decreases_to!(*members => members@));
                        assert(decreases_to!(members@ => members@[i as int]));
                        assert(decreases_to!(members@[i as int] => members@[i as int].1));
                    }
                    let more = json_parts(&members[i].1, &at, rules);
                    append_strings(&mut out, more);
                }
                i += 1;
            }
        },
        Json::List(items) => {
            let ghost trees = json::item_trees(items@);
            proof {
                json::lemma_list(*items);
            }
            let n: usize = items.len();
            let mut i: usize = 0;
            while i < n
                invariant
                    i <= n == items@.len(),
                    trees == json::item_trees(items@),
                    *v == Json::List(*items),
                    text::texts(out@) == item_parts(trees, i as nat, path@, rules@),
                decreases n - i,
            {
                let at = diff::write_item_path(path, i);
                proof {
                    assert((i + 1 - 1) as nat == i as nat);
                    assert(decreases_to!(*v => v->List_0));
                    assert(decreases_to!(*items => items@));
                    assert(decreases_to!(items@ => items@[i as int]));
                }
                let more = json_parts(&items[i], &at, rules);
                append_strings(&mut out, more);
                i += 1;
            }
        },
        _ => {
            let mut part = text::chars_of(path);
            text::push_str(&mut part, "=");
            text::push_str(&mut part, &diff::value_summary(v));
            let part = text::string_of(&part);
            proof {
                text::lemma_texts_push(out@, part);
                assert(text::texts(out@).push(part@) =~= seq![part@]);
            }
            out.push(part);
        },
    }
    out
}

// ---------------------------------------------------------------------------
// Differences between requests
// ---------------------------------------------------------------------------

/// How parameters are written: `k=v&k2=v2`.
pub open spec fn query_text(query: Seq<Pair>) -> Seq<char> {
    text::joined(query.map_values(|p: Pair| p.0 + "="@ + p.1), "&"@)
}

/// The largest offset up to `n` that lies between two characters.
pub open spec fn boundary(bytes: Seq<u8>, n: nat) -> nat
    decreases n,
{
    if n == 0 || vstd::utf8::is_char_boundary(bytes, n as int) {
        n
    } else {
        boundary(bytes, (n - 1) as nat)
    }
}

/// A body in short: all of it up to 120 bytes, and of a longer one as many characters as these
/// bytes hold, with an ellipsis.
pub open spec fn short_body(body: Seq<char>) -> Seq<char> {
    let bytes = vstd::utf8::encode_utf8(body);
    if bytes.len() > 120 {
        pattern::cut(body, 0, boundary(bytes, 120) as int) + "…"@
    } else {
        body
    }
}

/// What differs between two requests.
pub open spec fn request_changes(b: Call, c: Call) -> Seq<Seq<char>> {
    (if b.query != c.query {
        seq!["query: "@ + query_text(b.query) + " → "@ + query_text(c.query)]
    } else {
        seq![]
    }) + (if b.request_body != c.request_body {
        seq!["body: "@ + short_body(b.request_body) + " → "@ + short_body(c.request_body)]
    } else {
        seq![]
    })
}

/// What is said of the difference between two requests; nothing where there is none.
pub open spec fn request_difference(b: Call, c: Call) -> Option<Seq<char>> {
    let changes = request_changes(b, c);
    if changes.len() == 0 {
        None
    } else {
        Some(text::joined(changes, "；"@))
    }
}

/// Writes parameters.
fn write_query(query: &[(String, String)]) -> (r: Vec<char>)
    ensures
        r@ == query_text(pair_views(query@)),
{
    let ghost all = pair_views(query@).map_values(|p: Pair| p.0 + "="@ + p.1);
    let n: usize = query.len();
    let mut pieces: Vec<Vec<char>> = Vec::new();
    let mut i: usize = 0;
    assert(text::pieces(pieces@) =~= all.take(0));
    while i < n
        invariant
            i <= n == query@.len(),
            all == pair_views(query@).map_values(|p: Pair| p.0 + "="@ + p.1),
            text::pieces(pieces@) == all.take(i as int),
        decreases n - i,
    {
        let mut piece = text::chars_of(&query[i].0);
        text::push_str(&mut piece, "=");
        text::push_str(&mut piece, &query[i].1);
        proof {
            text::lemma_pieces_push(pieces@, piece);
            assert(pair_views(query@)[i as int] == (query@[i as int].0@, query@[i as int].1@));
            assert(all.take(i + 1) =~= all.take(i as int).push(piece@));
        }
        pieces.push(piece);
        i += 1;
    }
    assert(all.take(n as int) =~= all);
    let sep = text::chars_of("&");
    text::join(&pieces, &sep)
}

/// Writes a body in short.
fn summarize_body(body: &str) -> (r: Vec<char>)
    ensures
        r@ == short_body(body@),
{
    let bytes = body.as_bytes();
    if bytes.len() <= 120 {
        return text::chars_of(body);
    }
    proof {
        vstd::utf8::encode_utf8_valid_utf8(body@);
        vstd::utf8::is_char_boundary_start_end_of_seq(bytes@);
    }
    let mut n: usize = 120;
    while n > 0 && bytes[n] >= 0x80 && bytes[n] <= 0xbf
        invariant
            n <= 120,
            bytes@ == vstd::utf8::encode_utf8(body@),
            vstd::utf8::valid_utf8(bytes@),
            bytes@.len() > 120,
            boundary(bytes@, 120) == boundary(bytes@, n as nat),
        decreases n,
    {
        proof {
            vstd::utf8::is_char_boundary_iff_not_is_continuation_byte(bytes@, n as int);
        }
        n -= 1;
    }
    proof {
        vstd::utf8::is_char_boundary_iff_not_is_continuation_byte(bytes@, n as int);
    }
    let mut out = text::chars_of(pattern::slice(body, 0, n));
    text::push_str(&mut out, "…");
    out
}

/// Whether two lists of parameters are equal.
fn is_same_query(a: &[(String, String)], b: &[(String, String)]) -> (r: bool)
    ensures
        r == (pair_views(a@) == pair_views(b@)),
{
    if a.len() != b.len() {
        assert(pair_views(a@).len() != pair_views(b@).len());
        return false;
    }
    let n: usize = a.len();
    let mut i: usize = 0;
    while i < n
        invariant
            i <= n == a@.len() == b@.len(),
            forall|k: int| 0 <= k < i ==> #[trigger] pair_views(a@)[k] == pair_views(b@)[k],
        decreases n - i,
    {
        if !text::same(&a[i].0, &b[i].0) || !text::same(&a[i].1, &b[i].1) {
            assert(pair_views(a@)[i as int] != pair_views(b@)[i as int]);
            return false;
        }
        i += 1;
    }
    assert(pair_views(a@) =~= pair_views(b@));
    true
}

/// Says what differs between two requests.
pub fn request_diff(base: &CallRecord, current: &CallRecord) -> (r: Option<String>)
    ensures
        text::opt_text(r) == request_difference(base@, current@),
{
    let ghost changes = request_changes(base@, current@);
    let mut parts: Vec<Vec<char>> = Vec::new();
    assert(text::pieces(parts@) =~= Seq::<Seq<char>>::empty());
    if !is_same_query(&base.query, &current.query) {
        let mut part = text::chars_of("query: ");
        text::push_all(&mut part, &write_query(&base.query));
        text::push_str(&mut part, " → ");
        text::push_all(&mut part, &write_query(&current.query));
        proof {
            text::lemma_pieces_push(parts@, part);
        }
        parts.push(part);
    }
    if !text::same(&base.request_body, &current.request_body) {
        let mut part = text::chars_of("body: ");
        text::push_all(&mut part, &summarize_body(&base.request_body));
        text::push_str(&mut part, " → ");
        text::push_all(&mut part, &summarize_body(&current.request_body));
        proof {
            text::lemma_pieces_push(parts@, part);
        }
        parts.push(part);
    }
    assert(text::pieces(parts@) =~= changes);
    if parts.len() == 0 {
        None
    } else {
        let sep = text::chars_of("；");
        Some(text::string_of(&text::join(&parts, &sep)))
    }
}

/// The number of an id; the largest there is, where it is no number.
pub open spec fn numeric_id(id: Seq<char>) -> u64 {
    match number::parsed(id, u64::MAX as nat) {
        Some(n) => n as u64,
        None => u64::MAX,
    }
}

/// Reads the number of an id.
pub fn read_id(id: &str) -> (r: u64)
    ensures
        r == numeric_id(id@),
{
    match number::parse(&text::chars_of(id), u64::MAX) {
        Some(n) => n,
        None => u64::MAX,
    }
}

// ---------------------------------------------------------------------------
// Laws
// ---------------------------------------------------------------------------

/// The query of a URL is what follows its first question mark; one without has none.
pub proof fn law_query_of_url(scheme: Seq<char>, front: Seq<char>, query: Seq<char>)
    requires
        http_util::is_scheme(scheme),
        !front.contains('?'),
    ensures
        query_of_url(scheme + "://"@ + (front + "?"@ + query)) == query,
        query_of_url(scheme + "://"@ + front).len() == 0,
{
    reveal_strlit("?");
    assert("?"@ =~= seq!['?']);
    lemma_behind_scheme(scheme, front + "?"@ + query);
    lemma_behind_scheme(scheme, front);
    text::law_cut(front, '?', query);
}

/// A URL is cut behind its scheme.
proof fn lemma_behind_scheme(scheme: Seq<char>, rest: Seq<char>)
    requires
        http_util::is_scheme(scheme),
    ensures
        text::cut_text(scheme + "://"@ + rest, "://"@) == Some((scheme, rest)),
{
    let url = scheme + "://"@ + rest;
    reveal_strlit("http");
    reveal_strlit("https");
    reveal_strlit("://");
    assert(text::lowered(scheme).len() == scheme.len());
    assert forall|j: int| 0 <= j < scheme.len() implies !text::occurs_at(url, "://"@, j) by {
        assert(url[j] == scheme[j]);
        if text::occurs_at(url, "://"@, j) {
            assert(url.subrange(j, j + 3)[0] == ':');
            assert(text::lowered(scheme)[j] == ':');
        }
    }
    text::law_cut_text(scheme, "://"@, rest);
}

/// The parameters of a query are those of its pieces, as they are written on both sides of the
/// first equals sign; a piece without one is none.
pub proof fn law_pairs(pieces: Seq<Seq<char>>, k: Seq<char>, v: Seq<char>)
    requires
        !k.contains('='),
    ensures
        pairs_of(seq![]).len() == 0,
        pairs_of(pieces.push(k + "="@ + v)) == pairs_of(pieces).push((k, v)),
        pairs_of(pieces.push(k)) == pairs_of(pieces),
{
    reveal_strlit("=");
    assert("="@ =~= seq!['=']);
    text::law_cut(k, '=', v);
    assert(pieces.push(k).drop_last() =~= pieces);
    assert(pieces.push(k + "="@ + v).drop_last() =~= pieces);
}

/// The order of parameters is a total order.
proof fn lemma_pair_order()
    ensures
        vstd::relations::total_ordering(pair_order()),
{
    let le = pair_order();
    assert forall|a: Pair| #[trigger] le(a, a) by {
        order::lemma_text_le_reflexive(a.1);
    }
    assert forall|a: Pair, b: Pair| #[trigger] le(a, b) && #[trigger] le(b, a) implies a == b by {
        if a.0 == b.0 {
            order::lemma_text_le_antisymmetric(a.1, b.1);
        } else {
            order::lemma_text_le_antisymmetric(a.0, b.0);
        }
    }
    assert forall|a: Pair, b: Pair, c: Pair|
        #[trigger] le(a, b) && #[trigger] le(b, c) implies le(a, c) by {
        if a.0 == b.0 && b.0 == c.0 {
            order::lemma_text_le_transitive(a.1, b.1, c.1);
        } else if a.0 != b.0 && b.0 != c.0 {
            order::lemma_text_le_transitive(a.0, b.0, c.0);
            if a.0 == c.0 {
                order::lemma_text_le_antisymmetric(a.0, b.0);
            }
        }
    }
    assert forall|a: Pair, b: Pair| #[trigger] le(a, b) || #[trigger] le(b, a) by {
        order::lemma_text_le_total(a.0, b.0);
        order::lemma_text_le_total(a.1, b.1);
    }
}

/// The parameters of a call are those of its URL, and none is lost; in which order they stand in
/// the URL does not count.
pub proof fn law_order_of_parameters_does_not_count(a: Seq<char>, b: Seq<char>)
    ensures
        sorted_query(a).to_multiset() == pairs_of(
            text::split(query_of_url(a), '&'),
        ).to_multiset(),
        pairs_of(text::split(query_of_url(a), '&')).to_multiset() == pairs_of(
            text::split(query_of_url(b), '&'),
        ).to_multiset() ==> sorted_query(a) == sorted_query(b),
{
    lemma_pair_order();
    order::law_sorted_by(
        pairs_of(text::split(query_of_url(a), '&')),
        pairs_of(text::split(query_of_url(b), '&')),
        pair_order(),
    );
}

/// A call says of a snapshot what was asked and answered; its method counts whatever its case.
pub proof fn law_call_of_a_snapshot(s: Snapshot)
    ensures
        ({
            let c = call_of(s);
            &&& c.id == s.id@
            &&& c.method == text::uppered(s.request.method@)
            &&& c.path == rewrite::path_of_url(s.request.url@)
            &&& c.query == sorted_query(s.request.url@)
            &&& c.request_body == s.request.body@
            &&& c.status == s.response.status
            &&& c.response_body == snapshot::body_bytes(
                s.response.body@,
                s.response.body_encoding@,
            )
        }),
{
}

/// Every parameter has its part in the fingerprint of a call, with its value, unless a rule
/// ignores it; every field of a body of JSON has one, and any other body is one as a whole.
pub proof fn law_fingerprint_holds_the_request(
    c: Call,
    rules: Seq<Seq<char>>,
    i: int,
    t: json::Tree,
)
    ensures
        ({
            let parts = fingerprint_parts(c, rules);
            let n = c.query.len() as int;
            &&& 0 <= i < n && !diff::is_ignored(rules, "$.query."@ + c.query[i].0) ==> parts[i]
                == "q:"@ + c.query[i].0 + "="@ + c.query[i].1
            &&& 0 <= i < n && diff::is_ignored(rules, "$.query."@ + c.query[i].0) ==> parts[i]
                == "q:"@ + c.query[i].0 + "="@ + "<dynamic>"@
            &&& json::json_parsed(c.request_body) == Ok::<json::Tree, Seq<char>>(t) ==> parts.skip(n)
                == value_parts(t, "$"@, rules)
            &&& json::json_parsed(c.request_body) is Err && c.request_body.len() > 0 ==> parts.skip(
                n,
            ) == seq!["body-raw:"@ + c.request_body]
            &&& json::json_parsed(c.request_body) is Err && c.request_body.len() == 0
                ==> parts.len() == n
        }),
{
    let parts = fingerprint_parts(c, rules);
    let n = c.query.len() as int;
    let q = query_parts(c.query, rules);
    assert(q.len() == n);
    let rest = match json::json_parsed(c.request_body) {
        Ok(t) => value_parts(t, "$"@, rules),
        Err(_) => if c.request_body.len() > 0 {
            seq!["body-raw:"@ + c.request_body]
        } else {
            seq![]
        },
    };
    assert(parts == q + rest);
    assert(parts.skip(n) =~= rest);
    if 0 <= i < n {
        assert(parts[i] == q[i]);
    }
}

/// The fields of a body: a value that holds no others has one part with its path, a list those of
/// all its items, and an object those of all its members, but without the value of one that a rule
/// ignores.
pub proof fn law_fields_of_a_body(
    t: json::Tree,
    items: Seq<json::Tree>,
    members: Seq<(Seq<char>, json::Tree)>,
    n: nat,
    path: Seq<char>,
    rules: Seq<Seq<char>>,
)
    ensures
        !(t is List) && !(t is Object) ==> value_parts(t, path, rules) == seq![
            path + "="@ + diff::summary(t),
        ],
        value_parts(json::Tree::List(items), path, rules) == item_parts(
            items,
            items.len(),
            path,
            rules,
        ),
        value_parts(json::Tree::Object(members), path, rules) == member_parts(
            members,
            members.len(),
            path,
            rules,
        ),
        item_parts(items, 0, path, rules).len() == 0,
        member_parts(members, 0, path, rules).len() == 0,
        n < items.len() ==> item_parts(items, n + 1, path, rules) == item_parts(
            items,
            n,
            path,
            rules,
        ) + value_parts(items[n as int], path + "["@ + number::decimal(n) + "]"@, rules),
        n < members.len() ==> {
            let at = path + "."@ + members[n as int].0;
            &&& diff::is_ignored(rules, at) ==> member_parts(members, n + 1, path, rules)
                == member_parts(members, n, path, rules) + seq![at + "=<dynamic>"@]
            &&& !diff::is_ignored(rules, at) ==> member_parts(members, n + 1, path, rules)
                == member_parts(members, n, path, rules) + value_parts(
                members[n as int].1,
                at,
                rules,
            )
        },
{
    reveal_with_fuel(value_parts, 2);
    reveal_with_fuel(item_parts, 2);
    reveal_with_fuel(member_parts, 2);
}

/// Two calls have the same fingerprint where their parts are the same, in whatever order they come;
/// and so where parameters and bodies are.
pub proof fn law_same_requests_have_one_fingerprint(a: Call, b: Call, rules: Seq<Seq<char>>)
    ensures
        fingerprint_parts(a, rules).to_multiset() == fingerprint_parts(b, rules).to_multiset()
            ==> fingerprint_of(a, rules) == fingerprint_of(b, rules),
        a.query == b.query && a.request_body == b.request_body ==> fingerprint_of(a, rules)
            == fingerprint_of(b, rules),
{
    order::law_text_order_is_total();
    order::law_sorted_by(
        fingerprint_parts(a, rules),
        fingerprint_parts(b, rules),
        order::text_order(),
    );
}

/// Of two requests something is said exactly where their parameters or their bodies differ, and it
/// tells both sides of what does.
pub proof fn law_request_differences(b: Call, c: Call)
    ensures
        request_difference(b, c) is None <==> b.query == c.query && b.request_body
            == c.request_body,
        b.query != c.query && b.request_body == c.request_body ==> request_difference(b, c) == Some(
            "query: "@ + query_text(b.query) + " → "@ + query_text(c.query),
        ),
        b.query == c.query && b.request_body != c.request_body ==> request_difference(b, c) == Some(
            "body: "@ + short_body(b.request_body) + " → "@ + short_body(c.request_body),
        ),
        b.query != c.query && b.request_body != c.request_body ==> request_difference(b, c) == Some(
            "query: "@ + query_text(b.query) + " → "@ + query_text(c.query) + "；"@ + ("body: "@
                + short_body(b.request_body) + " → "@ + short_body(c.request_body)),
        ),
{
    let x = "query: "@ + query_text(b.query) + " → "@ + query_text(c.query);
    let y = "body: "@ + short_body(b.request_body) + " → "@ + short_body(c.request_body);
    let none = Seq::<Seq<char>>::empty();
    reveal_with_fuel(text::joined, 3);
    assert(none + none =~= none);
    assert(seq![x] + none =~= seq![x]);
    assert(none + seq![y] =~= seq![y]);
    assert(seq![x] + seq![y] =~= seq![x, y]);
    assert(seq![x, y].drop_last() =~= seq![x]);
    assert(text::joined(seq![x], "；"@) =~= x);
    assert(text::joined(seq![y], "；"@) =~= y);
    assert(text::joined(seq![x, y], "；"@) =~= x + "；"@ + y);
}

/// Parameters are written with an equals sign each and an ampersand between them.
pub proof fn law_query_text(p: Pair, rest: Seq<Pair>)
    ensures
        query_text(seq![]).len() == 0,
        query_text(seq![p]) == p.0 + "="@ + p.1,
        rest.len() > 0 ==> query_text(seq![p] + rest) == p.0 + "="@ + p.1 + "&"@ + query_text(rest),
{
    let f = |p: Pair| p.0 + "="@ + p.1;
    let none = Seq::<Pair>::empty();
    assert(none.map_values(f) =~= Seq::<Seq<char>>::empty());
    assert(seq![p].map_values(f) =~= seq![p.0 + "="@ + p.1]);
    reveal_with_fuel(text::joined, 2);
    if rest.len() > 0 {
        let all = (seq![p] + rest).map_values(f);
        assert(all.drop_first() =~= rest.map_values(f));
        assert(all[0] == p.0 + "="@ + p.1);
        text::lemma_joined_first(all, "&"@);
    }
}

/// A body of at most 120 bytes is told as a whole, and of a longer one the characters that lie
/// within the first 120 bytes, with an ellipsis.
pub proof fn law_short_body(body: Seq<char>)
    ensures
        ({
            let bytes = vstd::utf8::encode_utf8(body);
            &&& bytes.len() <= 120 ==> short_body(body) == body
            &&& bytes.len() > 120 && vstd::utf8::is_char_boundary(bytes, 120) ==> short_body(body)
                == vstd::utf8::decode_utf8(bytes.subrange(0, 120)) + "…"@
        }),
{
}

/// The number of an id is what its digits say; one that is no number comes after all others.
pub proof fn law_numeric_id(n: nat, s: Seq<char>)
    requires
        n <= u64::MAX,
    ensures
        numeric_id(number::padded(number::decimal(n), 6, '0')) == n,
        number::parsed(s, u64::MAX as nat) is None ==> numeric_id(s) == u64::MAX,
{
    number::lemma_padded_decimal_parsed(n, 6, u64::MAX as nat);
}

/// The offset at which a text is cut lies between two characters, within the limit, and no later
/// one within the limit does.
pub proof fn law_boundary(bytes: Seq<u8>, n: nat, k: nat)
    ensures
        boundary(bytes, n) <= n,
        boundary(bytes, n) == 0 || vstd::utf8::is_char_boundary(bytes, boundary(bytes, n) as int),
        boundary(bytes, n) < k <= n ==> !vstd::utf8::is_char_boundary(bytes, k as int),
    decreases n,
{
    if n > 0 && !vstd::utf8::is_char_boundary(bytes, n as int) {
        law_boundary(bytes, (n - 1) as nat, k);
    }
}

} // verus!
