//! The store of recordings: names on disk, the numbering of snapshots, and the session's record.
use crate::clock;
use crate::codec;
use crate::number;
use crate::order;
use crate::snapshot::Snapshot;
use crate::text;
use vstd::prelude::*;
use vstd::slice::slice_subrange;

verus! {

// ---------------------------------------------------------------------------
// Names on disk
// ---------------------------------------------------------------------------

/// The SHA-256 digest of some bytes, in hexadecimal.
pub fn sha256_hex(data: &[u8]) -> (r: String)
    ensures
        r@ == codec::hex_text(codec::sha256(data@)),
        r@.len() == 64,
{
    codec::hex_encode(&codec::sha256_digest(data))
}

/// The parts of an origin before and after `://`; without it, all of it is the second.
pub open spec fn origin_parts(origin: Seq<char>) -> (Seq<char>, Seq<char>) {
    match text::cut_text(origin, "://"@) {
        Some(parts) => parts,
        None => (Seq::empty(), origin),
    }
}

/// The name of the directory for an origin: `http://10.1.2.3:8080` has `http_10.1.2.3_8080`.
/// The scheme keeps the recordings of one host over `http` and over `https` apart.
pub open spec fn origin_dir(origin: Seq<char>) -> Seq<char> {
    let (scheme, rest) = origin_parts(origin);
    let name = text::replaced_either(rest, ':', '/', '_');
    let low = text::lowered(scheme);
    if name.len() == 0 {
        "unknown"@
    } else if low == "http"@ || low == "https"@ {
        low + "_"@ + name
    } else {
        name
    }
}

/// The name of the directory for an origin.
pub fn origin_dir_name(origin: &str) -> (r: String)
    ensures
        r@ == origin_dir(origin@),
{
    let cs = text::chars_of(origin);
    let (scheme, rest): (&[char], &[char]) = match text::split_once(&cs, "://") {
        Some(parts) => parts,
        None => (text::take(&cs, 0), &cs),
    };
    proof {
        assert(cs@.take(0) =~= Seq::<char>::empty());
    }
    let name = text::replace_either(rest, ':', '/', '_');
    if name.len() == 0 {
        return text::owned("unknown");
    }
    let mut low = text::to_lower(scheme);
    let low_string = text::string_of(&low);
    if text::same(&low_string, "http") || text::same(&low_string, "https") {
        text::push_str(&mut low, "_");
        text::push_all(&mut low, &name);
        text::string_of(&low)
    } else {
        text::string_of(&name)
    }
}

/// The short digest of a URL in a snapshot's file name: the first six bytes of its SHA-256.
pub open spec fn short_digest(url: Seq<char>) -> Seq<char> {
    codec::hex_text(codec::sha256(vstd::utf8::encode_utf8(url)).take(6))
}

/// The short digest of a URL in a snapshot's file name.
pub fn path_hash(url: &str) -> (r: String)
    ensures
        r@ == short_digest(url@),
        r@.len() == 12,
{
    let digest = codec::sha256_digest(url.as_bytes());
    let front = slice_subrange(&digest, 0, 6);
    assert(front@ =~= digest@.take(6));
    codec::hex_encode(front)
}

/// The letters and digits of a text, at most the first `limit`.
pub open spec fn alphanumerics(s: Seq<char>, limit: nat) -> Seq<char>
    decreases s.len(),
{
    if s.len() == 0 {
        seq![]
    } else {
        let front = alphanumerics(s.drop_last(), limit);
        if text::is_alphanumeric(s.last()) && front.len() < limit {
            front.push(s.last())
        } else {
            front
        }
    }
}

/// A request method as it stands in a file name: its letters and digits, at most ten.
pub open spec fn method_name(method: Seq<char>) -> Seq<char> {
    let cleaned = alphanumerics(method, 10);
    if cleaned.len() == 0 {
        "REQ"@
    } else {
        cleaned
    }
}

/// A request method as it stands in a file name.
pub fn sanitize_method(method: &str) -> (r: String)
    ensures
        r@ == method_name(method@),
{
    let cs = text::chars_of(method);
    let n: usize = cs.len();
    let mut out: Vec<char> = Vec::new();
    let mut i: usize = 0;
    assert(cs@.take(0) =~= Seq::<char>::empty());
    while i < n
        invariant
            i <= n == cs@.len(),
            out@ == alphanumerics(cs@.take(i as int), 10),
        decreases n - i,
    {
        assert(cs@.take(i + 1).drop_last() =~= cs@.take(i as int));
        if text::alphanumeric(cs[i]) && out.len() < 10 {
            out.push(cs[i]);
        }
        i += 1;
    }
    assert(cs@.take(n as int) =~= cs@);
    if out.len() == 0 {
        text::owned("REQ")
    } else {
        text::string_of(&out)
    }
}

/// The name of a snapshot's file: `{id}-{method}-{digest of the URL}.json`.
pub open spec fn file_name_of(s: Snapshot) -> Seq<char> {
    s.id@ + "-"@ + method_name(s.request.method@) + "-"@ + short_digest(s.request.url@) + ".json"@
}

/// The name of a snapshot's file.
pub fn snapshot_file_name(snapshot: &Snapshot) -> (r: String)
    ensures
        r@ == file_name_of(*snapshot),
{
    let mut out = text::chars_of(&snapshot.id);
    text::push_str(&mut out, "-");
    text::push_str(&mut out, &sanitize_method(&snapshot.request.method));
    text::push_str(&mut out, "-");
    text::push_str(&mut out, &path_hash(&snapshot.request.url));
    text::push_str(&mut out, ".json");
    text::string_of(&out)
}

/// The path of a snapshot's file below the data directory:
/// `snapshots/{directory of the origin}/{file name}`.
pub open spec fn relative_path_of(s: Snapshot) -> Seq<char> {
    "snapshots/"@ + origin_dir(s.origin@) + "/"@ + file_name_of(s)
}

/// The path of a snapshot's file below the data directory.
pub fn snapshot_path(snapshot: &Snapshot) -> (r: String)
    ensures
        r@ == relative_path_of(*snapshot),
{
    let mut out = text::chars_of("snapshots/");
    text::push_str(&mut out, &origin_dir_name(&snapshot.origin));
    text::push_str(&mut out, "/");
    text::push_str(&mut out, &snapshot_file_name(snapshot));
    text::string_of(&out)
}

// ---------------------------------------------------------------------------
// Order
// ---------------------------------------------------------------------------

impl order::Ranked for Snapshot {
    open spec fn le(self, other: Self) -> bool {
        order::text_le(self.id@, other.id@)
    }

    fn may_precede(&self, other: &Self) -> (r: bool) {
        order::string_no_later(&self.id, &other.id)
    }

    proof fn total(a: Self, b: Self) {
        order::lemma_text_le_total(a.id@, b.id@);
    }

    proof fn transitive(a: Self, b: Self, c: Self) {
        order::lemma_text_le_transitive(a.id@, b.id@, c.id@);
    }
}

impl order::Ranked for String {
    open spec fn le(self, other: Self) -> bool {
        order::text_le(self@, other@)
    }

    fn may_precede(&self, other: &Self) -> (r: bool) {
        order::string_no_later(self, other)
    }

    proof fn total(a: Self, b: Self) {
        order::lemma_text_le_total(a@, b@);
    }

    proof fn transitive(a: Self, b: Self, c: Self) {
        order::lemma_text_le_transitive(a@, b@, c@);
    }
}

/// Whether a file is one of snapshots, by its name: something, and the extension `json`.
pub open spec fn is_snapshot_name(name: Seq<char>) -> bool {
    name.len() > ".json"@.len() && name.skip(name.len() - ".json"@.len()) == ".json"@
}

/// Whether a file is one of snapshots.
pub fn is_snapshot_file(name: &str) -> (r: bool)
    ensures
        r == is_snapshot_name(name@),
{
    let cs = text::chars_of(name);
    let ext = text::chars_of(".json");
    cs.len() > ext.len() && text::eq(text::skip(&cs, cs.len() - ext.len()), &ext)
}

/// Puts snapshots in the order of their ids, whatever the order in which they were read.
pub fn sort_snapshots(snapshots: Vec<Snapshot>) -> (r: Vec<Snapshot>)
    ensures
        r@ == order::sorted(snapshots@),
        order::is_sorted(r@),
        r@.to_multiset() == snapshots@.to_multiset(),
{
    proof {
        order::lemma_sorted(snapshots@);
        order::lemma_sorted_is_permutation(snapshots@);
    }
    order::sort(snapshots)
}

// ---------------------------------------------------------------------------
// The recorder
// ---------------------------------------------------------------------------

/// The record of a session, as `session.json` holds it.
#[derive(Debug)]
pub struct SessionMeta {
    pub tool_version: String,
    pub recorded_at: String,
    pub origins: Vec<String>,
    pub snapshot_count: usize,
}

/// The recorder: hands out numbers for snapshots and keeps the record of the session.
pub struct Recorder {
    root: String,
    seq: u64,
    snapshot_count: usize,
    origins: Vec<String>,
    recorded_at: String,
}

/// The number of an id; `None` where it is not a number.
pub open spec fn id_number(id: Seq<char>) -> Option<nat> {
    number::parsed(id, u64::MAX as nat)
}

/// The largest number among the ids of snapshots; 0 where none is a number.
pub open spec fn largest_number(s: Seq<Snapshot>) -> nat
    decreases s.len(),
{
    if s.len() == 0 {
        0
    } else {
        let front = largest_number(s.drop_last());
        match id_number(s.last().id@) {
            Some(n) => if n > front {
                n
            } else {
                front
            },
            None => front,
        }
    }
}

/// The id with a number: at least six digits.
pub open spec fn id_text(n: nat) -> Seq<char> {
    number::padded(number::decimal(n), 6, '0')
}

/// Finds the largest number among the ids of snapshots.
pub fn max_id(snapshots: &[Snapshot]) -> (r: u64)
    ensures
        r == largest_number(snapshots@),
{
    let n: usize = snapshots.len();
    let mut max: u64 = 0;
    let mut i: usize = 0;
    assert(snapshots@.take(0) =~= Seq::<Snapshot>::empty());
    while i < n
        invariant
            i <= n == snapshots@.len(),
            max == largest_number(snapshots@.take(i as int)),
        decreases n - i,
    {
        assert(snapshots@.take(i + 1).drop_last() =~= snapshots@.take(i as int));
        if let Some(id) = number::parse(&text::chars_of(&snapshots[i].id), u64::MAX) {
            if id > max {
                max = id;
            }
        }
        i += 1;
    }
    assert(snapshots@.take(n as int) =~= snapshots@);
    max
}

/// The texts of a list without those that repeat the one before.
pub open spec fn deduped(list: Seq<Seq<char>>) -> Seq<Seq<char>>
    decreases list.len(),
{
    if list.len() == 0 {
        seq![]
    } else {
        let front = deduped(list.drop_last());
        if front.len() > 0 && front.last() == list.last() {
            front
        } else {
            front.push(list.last())
        }
    }
}

/// The origins of a list in their order, each once.
pub open spec fn distinct_origins(list: Seq<String>) -> Seq<Seq<char>> {
    deduped(text::texts(order::sorted(list)))
}

/// Copies a list of strings.
fn copy_strings(list: &[String]) -> (r: Vec<String>)
    ensures
        r@ == list@,
{
    let n: usize = list.len();
    let mut out: Vec<String> = Vec::new();
    let mut i: usize = 0;
    while i < n
        invariant
            i <= n == list@.len(),
            out@ == list@.take(i as int),
        decreases n - i,
    {
        out.push(list[i].clone());
        i += 1;
        assert(out@ =~= list@.take(i as int));
    }
    assert(list@.take(n as int) =~= list@);
    out
}

/// Puts origins in order, each once.
pub fn sort_origins(list: &[String]) -> (r: Vec<String>)
    ensures
        text::texts(r@) == distinct_origins(list@),
{
    let sorted = order::sort(copy_strings(list));
    let ghost all = text::texts(sorted@);
    let n: usize = sorted.len();
    let mut out: Vec<String> = Vec::new();
    let mut i: usize = 0;
    assert(text::texts(out@) =~= deduped(all.take(0)));
    while i < n
        invariant
            i <= n == sorted@.len(),
            all == text::texts(sorted@),
            text::texts(out@) == deduped(all.take(i as int)),
        decreases n - i,
    {
        proof {
            assert(all.take(i + 1).drop_last() =~= all.take(i as int));
            if out@.len() > 0 {
                assert(text::texts(out@).last() == out@.last()@);
            }
        }
        let repeats = out.len() > 0 && text::same(&out[out.len() - 1], &sorted[i]);
        if !repeats {
            let x = sorted[i].clone();
            proof {
                text::lemma_texts_push(out@, x);
            }
            out.push(x);
        }
        i += 1;
    }
    assert(all.take(n as int) =~= all);
    out
}

/// Whether a recorder has noted that a snapshot was written.
pub open spec fn is_noted(before: Recorder, after: Recorder, snapshot: Snapshot) -> bool {
    &&& after.seen() == before.seen().push(snapshot.origin)
    &&& after.count() == before.count().wrapping_add(1)
    &&& after.dir() == before.dir()
    &&& after.last_number() == before.last_number()
    &&& after.began() == before.began()
}

/// The number of a recorder is one of 64 bits.
pub proof fn lemma_last_number(r: Recorder)
    ensures
        r.last_number() <= u64::MAX,
{
}

impl Recorder {
    /// The data directory.
    pub closed spec fn dir(&self) -> Seq<char> {
        self.root@
    }

    /// The last number that was handed out.
    pub closed spec fn last_number(&self) -> nat {
        self.seq as nat
    }

    /// How many snapshots the data directory holds.
    pub closed spec fn count(&self) -> usize {
        self.snapshot_count
    }

    /// The origins of the snapshots of this session.
    pub closed spec fn seen(&self) -> Seq<String> {
        self.origins@
    }

    /// When the session began.
    pub closed spec fn began(&self) -> Seq<char> {
        self.recorded_at@
    }

    /// A recorder for a data directory that holds the given snapshots. The numbering goes on
    /// behind the largest that is there, so that no snapshot is overwritten.
    pub fn new(root: String, existing: &[Snapshot]) -> (r: Self)
        ensures
            r.dir() == root@,
            r.last_number() == largest_number(existing@),
            r.count() == existing@.len(),
            r.seen() == Seq::<String>::empty(),
            clock::is_rfc3339_utc(r.began()),
    {
        Recorder {
            root,
            seq: max_id(existing),
            snapshot_count: existing.len(),
            origins: Vec::new(),
            recorded_at: clock::now_rfc3339(),
        }
    }

    /// The data directory.
    pub fn root(&self) -> (r: &str)
        ensures
            r@ == self.dir(),
    {
        self.root.as_str()
    }

    /// Whether all numbers have been handed out.
    pub fn is_exhausted(&self) -> (r: bool)
        ensures
            r == (self.last_number() == u64::MAX),
    {
        self.seq == u64::MAX
    }

    /// Hands out the id of the next snapshot.
    pub fn next_id(&mut self) -> (r: String)
        requires
            old(self).last_number() < u64::MAX,
        ensures
            final(self).last_number() == old(self).last_number() + 1,
            r@ == id_text(final(self).last_number()),
            id_number(r@) == Some(final(self).last_number()),
            final(self).dir() == old(self).dir(),
            final(self).count() == old(self).count(),
            final(self).seen() == old(self).seen(),
            final(self).began() == old(self).began(),
    {
        self.seq = self.seq + 1;
        proof {
            number::lemma_padded_decimal_parsed(self.seq as nat, 6, u64::MAX as nat);
        }
        text::string_of(&number::pad(&number::to_decimal(self.seq), 6, '0'))
    }

    /// Notes that a snapshot was written.
    pub fn note_written(&mut self, snapshot: &Snapshot)
        ensures
            is_noted(*old(self), *final(self), *snapshot),
    {
        self.origins.push(snapshot.origin.clone());
        self.snapshot_count = self.snapshot_count.wrapping_add(1);
    }

    /// The record of the session.
    pub fn session(&self, tool_version: &str) -> (r: SessionMeta)
        ensures
            r.tool_version@ == tool_version@,
            r.recorded_at@ == self.began(),
            text::texts(r.origins@) == distinct_origins(self.seen()),
            r.snapshot_count == self.count(),
    {
        SessionMeta {
            tool_version: text::owned(tool_version),
            recorded_at: self.recorded_at.clone(),
            origins: sort_origins(&self.origins),
            snapshot_count: self.snapshot_count,
        }
    }
}

// ---------------------------------------------------------------------------
// Laws
// ---------------------------------------------------------------------------

/// No number among the ids is larger than the largest.
proof fn lemma_largest_number(s: Seq<Snapshot>, i: int)
    requires
        0 <= i < s.len(),
        id_number(s[i].id@) is Some,
    ensures
        id_number(s[i].id@)->0 <= largest_number(s),
    decreases s.len(),
{
    if i < s.len() - 1 {
        lemma_largest_number(s.drop_last(), i);
        assert(s.drop_last()[i] == s[i]);
    }
}

/// The id that comes next is larger than every number that is there, and no id that is there.
pub proof fn law_next_id_is_new(existing: Seq<Snapshot>, i: int)
    requires
        0 <= i < existing.len(),
        largest_number(existing) < u64::MAX,
    ensures
        id_text(largest_number(existing) + 1) != existing[i].id@,
        id_number(existing[i].id@) matches Some(n) ==> n < largest_number(existing) + 1,
{
    let next = (largest_number(existing) + 1) as nat;
    number::lemma_padded_decimal_parsed(next, 6, u64::MAX as nat);
    if id_number(existing[i].id@) is Some {
        lemma_largest_number(existing, i);
    }
}

/// Two file names that begin with different ids are different, where neither id holds a hyphen.
proof fn lemma_file_names_differ(a: Snapshot, b: Snapshot)
    requires
        a.id@ != b.id@,
        !a.id@.contains('-'),
        !b.id@.contains('-'),
    ensures
        file_name_of(a) != file_name_of(b),
{
    reveal_strlit("-");
    let x = file_name_of(a);
    let y = file_name_of(b);
    let n = a.id@.len() as int;
    let m = b.id@.len() as int;
    assert(x[n] == '-');
    assert(y[m] == '-');
    if x == y {
        if n < m {
            assert(y[n] == b.id@[n]);
            assert(b.id@.contains(b.id@[n]));
        } else if m < n {
            assert(x[m] == a.id@[m]);
            assert(a.id@.contains(a.id@[m]));
        } else {
            assert forall|k: int| 0 <= k < n implies a.id@[k] == b.id@[k] by {
                assert(x[k] == a.id@[k]);
                assert(y[k] == b.id@[k]);
            }
            assert(a.id@ =~= b.id@);
        }
    }
}

/// A snapshot with the next id never takes the file name of one that is there: a second session
/// in one directory overwrites nothing.
pub proof fn law_next_snapshot_overwrites_none(existing: Seq<Snapshot>, i: int, new: Snapshot)
    requires
        0 <= i < existing.len(),
        largest_number(existing) < u64::MAX,
        new.id@ == id_text(largest_number(existing) + 1),
        !existing[i].id@.contains('-'),
    ensures
        file_name_of(existing[i]) != file_name_of(new),
{
    let next = (largest_number(existing) + 1) as nat;
    law_next_id_is_new(existing, i);
    number::lemma_decimal_digits(next);
    number::lemma_padded_value(number::decimal(next), 6);
    if new.id@.contains('-') {
        let k = choose|k: int| 0 <= k < new.id@.len() && new.id@[k] == '-';
        assert(text::is_digit(new.id@[k]));
    }
    lemma_file_names_differ(existing[i], new);
}

/// Whether a recorder goes from state to state by noting one snapshot after the other; in
/// between, ids may be handed out.
pub open spec fn is_session(states: Seq<Recorder>, written: Seq<Snapshot>) -> bool {
    &&& states.len() == written.len() + 1
    &&& forall|i: int|
        0 <= i < written.len() ==> {
            &&& (#[trigger] states[i + 1]).seen() == states[i].seen().push(written[i].origin)
            &&& states[i + 1].count() == states[i].count().wrapping_add(1)
        }
}

/// The origins of snapshots.
pub open spec fn origins_of(written: Seq<Snapshot>) -> Seq<String> {
    written.map_values(|s: Snapshot| s.origin)
}

/// The record of a session counts every snapshot of the directory, those that were there and
/// those that were written, and names the origins of those that were written, each once, in
/// order.
pub proof fn law_session_counts_every_snapshot(
    states: Seq<Recorder>,
    existing: Seq<Snapshot>,
    written: Seq<Snapshot>,
)
    requires
        is_session(states, written),
        states[0].count() == existing.len(),
        states[0].seen() == Seq::<String>::empty(),
        existing.len() + written.len() <= usize::MAX,
    ensures
        states.last().count() == existing.len() + written.len(),
        states.last().seen() == origins_of(written),
        is_rising(distinct_origins(states.last().seen())),
        forall|t: Seq<char>|
            distinct_origins(states.last().seen()).contains(t) <==> exists|i: int|
                0 <= i < written.len() && (#[trigger] written[i]).origin@ == t,
    decreases written.len(),
{
    let n = written.len() as int;
    if n > 0 {
        let front = states.drop_last();
        let fewer = written.drop_last();
        assert forall|i: int| 0 <= i < fewer.len() implies {
            &&& (#[trigger] front[i + 1]).seen() == front[i].seen().push(fewer[i].origin)
            &&& front[i + 1].count() == front[i].count().wrapping_add(1)
        } by {
            assert(front[i + 1] == states[i + 1]);
        }
        law_session_counts_every_snapshot(front, existing, fewer);
        assert(states[(n - 1) + 1] == states.last());
        assert(front.last() == states[n - 1]);
        assert(origins_of(written) =~= origins_of(fewer).push(written.last().origin));
    } else {
        assert(origins_of(written) =~= Seq::<String>::empty());
    }
    let seen = states.last().seen();
    law_session_origins(seen);
    assert forall|t: Seq<char>|
        distinct_origins(seen).contains(t) <==> exists|i: int|
            0 <= i < written.len() && (#[trigger] written[i]).origin@ == t by {
        if distinct_origins(seen).contains(t) {
            let i = choose|i: int| 0 <= i < seen.len() && (#[trigger] seen[i])@ == t;
            assert(written[i].origin@ == t);
        }
        if exists|i: int| 0 <= i < written.len() && (#[trigger] written[i]).origin@ == t {
            let i = choose|i: int|
                0 <= i < written.len() && (#[trigger] written[i]).origin@ == t;
            assert(seen[i]@ == t);
        }
    }
}

/// Up to a million snapshots, the order of the ids is the order of recording.
pub proof fn law_ids_come_in_order(n: nat, m: nat)
    requires
        n <= m < 1_000_000,
    ensures
        order::text_le(id_text(n), id_text(m)),
        id_text(n) == id_text(m) ==> n == m,
{
    number::lemma_six_digits(n);
    number::lemma_six_digits(m);
    number::lemma_decimal_digits(n);
    number::lemma_decimal_digits(m);
    number::lemma_decimal_value(n);
    number::lemma_decimal_value(m);
    number::lemma_padded_value(number::decimal(n), 6);
    number::lemma_padded_value(number::decimal(m), 6);
    number::lemma_digits_in_order(id_text(n), id_text(m));
}

/// The directory of an origin over one of the two schemes.
proof fn lemma_origin_dir(scheme: Seq<char>, rest: Seq<char>)
    requires
        scheme == "http"@ || scheme == "https"@,
        rest.len() > 0,
    ensures
        origin_dir(scheme + "://"@ + rest) == scheme + "_"@ + text::replaced_either(
            rest,
            ':',
            '/',
            '_',
        ),
{
    let origin = scheme + "://"@ + rest;
    let n = scheme.len() as int;
    reveal_strlit("http");
    reveal_strlit("https");
    reveal_strlit("://");
    assert forall|j: int| 0 <= j < n implies !text::occurs_at(origin, "://"@, j) by {
        assert(origin[j] == scheme[j]);
        if text::occurs_at(origin, "://"@, j) {
            assert(origin.subrange(j, j + 3)[0] == ':');
        }
    }
    assert(origin.subrange(n, n + 3) =~= "://"@);
    text::lemma_found_is_first(origin, "://"@, n);
    assert(origin.take(n) =~= scheme);
    assert(origin.skip(n + 3) =~= rest);
    assert(text::lowered(scheme) =~= scheme);
}

/// The recordings over `http` and over `https` are never kept in one directory.
pub proof fn law_schemes_have_their_own_directories(a: Seq<char>, b: Seq<char>)
    requires
        a.len() > 0,
        b.len() > 0,
    ensures
        origin_dir("http"@ + "://"@ + a) != origin_dir("https"@ + "://"@ + b),
{
    lemma_origin_dir("http"@, a);
    lemma_origin_dir("https"@, b);
    reveal_strlit("http");
    reveal_strlit("https");
    reveal_strlit("_");
    assert(origin_dir("http"@ + "://"@ + a)[4] == '_');
    assert(origin_dir("https"@ + "://"@ + b)[4] == 's');
}

/// Whether each text comes before those behind it.
pub open spec fn is_rising(list: Seq<Seq<char>>) -> bool {
    forall|i: int, j: int|
        0 <= i < j < list.len() ==> order::text_le(#[trigger] list[i], #[trigger] list[j])
            && list[i] != list[j]
}

/// A list in order, without repetitions of the one before, has strictly rising texts, and the
/// same texts.
proof fn lemma_deduped(list: Seq<Seq<char>>)
    requires
        forall|i: int, j: int| 0 <= i <= j < list.len() ==> order::text_le(list[i], list[j]),
    ensures
        list.len() > 0 ==> deduped(list).len() > 0 && deduped(list).last() == list.last(),
        is_rising(deduped(list)),
        forall|t: Seq<char>| deduped(list).contains(t) <==> list.contains(t),
    decreases list.len(),
{
    if list.len() > 0 {
        let front = list.drop_last();
        let d = deduped(front);
        let x = list.last();
        let r = deduped(list);
        lemma_deduped(front);
        assert forall|t: Seq<char>| r.contains(t) <==> list.contains(t) by {
            if r.contains(t) {
                let i = choose|i: int| 0 <= i < r.len() && r[i] == t;
                if i < d.len() {
                    assert(d[i] == t);
                    assert(d.contains(t));
                    assert(front.contains(t));
                    let j = choose|j: int| 0 <= j < front.len() && front[j] == t;
                    assert(list[j] == t);
                } else {
                    assert(list[list.len() - 1] == t);
                }
            }
            if list.contains(t) {
                let j = choose|j: int| 0 <= j < list.len() && list[j] == t;
                if j < front.len() {
                    assert(front[j] == t);
                    assert(front.contains(t));
                    assert(d.contains(t));
                    let i = choose|i: int| 0 <= i < d.len() && d[i] == t;
                    assert(r[i] == t);
                } else {
                    assert(r[r.len() - 1] == t);
                }
            }
        }
        if !(d.len() > 0 && d.last() == x) {
            assert forall|i: int, j: int| 0 <= i < j < r.len() implies order::text_le(
                #[trigger] r[i],
                #[trigger] r[j],
            ) && r[i] != r[j] by {
                if j < d.len() {
                    assert(r[i] == d[i] && r[j] == d[j]);
                } else {
                    let last = front.last();
                    assert(d.last() == last);
                    assert(list[list.len() - 2] == last);
                    assert(order::text_le(list[list.len() - 2], list[list.len() - 1]));
                    if i < d.len() - 1 {
                        assert(order::text_le(d[i], d[d.len() - 1]));
                        order::lemma_text_le_transitive(d[i], last, x);
                        if d[i] == x {
                            order::lemma_text_le_antisymmetric(last, x);
                        }
                    }
                }
            }
        }
    }
}

/// The record of a session names every origin that was recorded, each once, in order.
pub proof fn law_session_origins(list: Seq<String>)
    ensures
        is_rising(distinct_origins(list)),
        forall|t: Seq<char>|
            distinct_origins(list).contains(t) <==> exists|i: int|
                0 <= i < list.len() && (#[trigger] list[i])@ == t,
{
    broadcast use vstd::seq_lib::group_to_multiset_ensures;

    let s = order::sorted(list);
    order::lemma_sorted(list);
    order::lemma_sorted_is_permutation(list);
    let all = text::texts(s);
    assert forall|i: int, j: int| 0 <= i <= j < all.len() implies order::text_le(all[i], all[j]) by {
        assert(order::Ranked::le(s[i], s[j]));
    }
    lemma_deduped(all);
    assert forall|t: Seq<char>|
        distinct_origins(list).contains(t) <==> exists|i: int|
            0 <= i < list.len() && (#[trigger] list[i])@ == t by {
        if all.contains(t) {
            let k = choose|k: int| 0 <= k < all.len() && all[k] == t;
            assert(s.contains(s[k]));
            assert(s.to_multiset().count(s[k]) > 0);
            assert(list.contains(s[k]));
            let i = choose|i: int| 0 <= i < list.len() && list[i] == s[k];
            assert(list[i]@ == t);
        }
        if exists|i: int| 0 <= i < list.len() && (#[trigger] list[i])@ == t {
            let i = choose|i: int| 0 <= i < list.len() && (#[trigger] list[i])@ == t;
            assert(list.contains(list[i]));
            assert(list.to_multiset().count(list[i]) > 0);
            assert(s.contains(list[i]));
            let k = choose|k: int| 0 <= k < s.len() && s[k] == list[i];
            assert(all[k] == t);
        }
    }
}

/// The directory of an origin is named by scheme, host and port, so that two origins never share
/// their recordings by name alone; one without a scheme has the rest for a name, and one without
/// anything is unknown.
pub proof fn law_directory_of_an_origin(scheme: Seq<char>, host: Seq<char>, port: Seq<char>)
    requires
        scheme == "http"@ || scheme == "https"@,
        host.len() > 0,
        !host.contains(':'),
        !host.contains('/'),
        !port.contains(':'),
        !port.contains('/'),
    ensures
        origin_dir(scheme + "://"@ + host) == scheme + "_"@ + host,
        origin_dir(scheme + "://"@ + (host + ":"@ + port)) == scheme + "_"@ + (host + "_"@ + port),
        origin_dir(host) == host,
        origin_dir(Seq::empty()) == "unknown"@,
{
    reveal_strlit(":");
    reveal_strlit("_");
    reveal_strlit("://");
    let both = host + ":"@ + port;
    lemma_origin_dir(scheme, host);
    lemma_origin_dir(scheme, both);
    assert forall|i: int| 0 <= i < host.len() implies host[i] != ':' && host[i] != '/' by {
        assert(host.contains(host[i]));
    }
    assert forall|i: int| 0 <= i < port.len() implies port[i] != ':' && port[i] != '/' by {
        assert(port.contains(port[i]));
    }
    assert(text::replaced_either(host, ':', '/', '_') =~= host);
    assert(text::replaced_either(both, ':', '/', '_') =~= host + "_"@ + port);
    text::lemma_found_iff_has(host, "://"@);
    assert(!text::has(host, "://"@)) by {
        if text::has(host, "://"@) {
            text::law_has(host, "://"@, host, host);
            let (x, y) = choose|x: Seq<char>, y: Seq<char>| host == #[trigger] (x + "://"@ + y);
            assert(host[x.len() as int] == ':');
        }
    }
    let none = Seq::<char>::empty();
    text::lemma_found_iff_has(none, "://"@);
    assert(!text::has(none, "://"@)) by {
        if text::has(none, "://"@) {
            text::law_has(none, "://"@, none, none);
            let (x, y) = choose|x: Seq<char>, y: Seq<char>| none == #[trigger] (x + "://"@ + y);
            assert(none.len() == (x + "://"@ + y).len());
        }
    }
    reveal_strlit("http");
    reveal_strlit("https");
    assert(text::lowered(none).len() == 0);
}

/// A method of at most ten letters and digits stands in file names as it is; other characters
/// are left out of it, and one without any has a name all the same.
pub proof fn law_method_in_file_names(method: Seq<char>, c: char)
    ensures
        method.len() > 0 && method.len() <= 10 && (forall|i: int|
            0 <= i < method.len() ==> text::is_alphanumeric(#[trigger] method[i]))
            ==> method_name(method) == method,
        !text::is_alphanumeric(c) ==> method_name(method.push(c)) == method_name(method),
        method_name(Seq::empty()) == "REQ"@,
        method_name(method).len() <= 10,
{
    lemma_alphanumerics(method, 10);
    assert(method.push(c).drop_last() =~= method);
    reveal_strlit("REQ");
}

/// Letters and digits within the limit are kept.
proof fn lemma_alphanumerics(s: Seq<char>, limit: nat)
    ensures
        alphanumerics(s, limit).len() <= limit,
        s.len() <= limit && (forall|i: int|
            0 <= i < s.len() ==> text::is_alphanumeric(#[trigger] s[i])) ==> alphanumerics(s, limit)
            == s,
    decreases s.len(),
{
    if s.len() > 0 {
        lemma_alphanumerics(s.drop_last(), limit);
        if s.len() <= limit && (forall|i: int|
            0 <= i < s.len() ==> text::is_alphanumeric(#[trigger] s[i])) {
            assert forall|i: int| 0 <= i < s.drop_last().len() implies text::is_alphanumeric(
                #[trigger] s.drop_last()[i],
            ) by {
                assert(s.drop_last()[i] == s[i]);
            }
            assert(text::is_alphanumeric(s[s.len() - 1]));
            assert(s.drop_last().push(s.last()) =~= s);
        }
    } else {
        assert(alphanumerics(s, limit) =~= s);
    }
}

/// The file of a snapshot lies in the directory of its origin and is named by its id, its method
/// and the digest of its URL; the name is that of a snapshot's file.
pub proof fn law_file_of_a_snapshot(s: Snapshot)
    ensures
        relative_path_of(s) == "snapshots/"@ + origin_dir(s.origin@) + "/"@ + (s.id@ + "-"@
            + method_name(s.request.method@) + "-"@ + codec::hex_text(
            codec::sha256(vstd::utf8::encode_utf8(s.request.url@)).take(6),
        ) + ".json"@),
        is_snapshot_name(file_name_of(s)),
{
    let name = file_name_of(s);
    reveal_strlit("-");
    reveal_strlit(".json");
    assert(name.skip(name.len() - ".json"@.len()) =~= ".json"@);
}

/// The files of snapshots are those with something before the extension `json`.
pub proof fn law_snapshot_names(stem: Seq<char>, name: Seq<char>)
    ensures
        is_snapshot_name(stem + ".json"@) <==> stem.len() > 0,
        is_snapshot_name(name) ==> exists|s: Seq<char>| s.len() > 0 && name == #[trigger] (s
            + ".json"@),
{
    let whole = stem + ".json"@;
    assert(whole.skip(whole.len() - ".json"@.len()) =~= ".json"@);
    if is_snapshot_name(name) {
        let k = name.len() - ".json"@.len();
        let s = name.take(k);
        assert(name =~= s + ".json"@);
    }
}

/// An id is the number in at least six digits, and in exactly six up to a million; the number of
/// an id is what it is read back as.
pub proof fn law_id_has_six_digits(n: nat)
    requires
        n <= u64::MAX,
    ensures
        id_number(id_text(n)) == Some(n),
        id_text(n).len() >= 6,
        n < 1_000_000 ==> id_text(n).len() == 6,
        forall|i: int| 0 <= i < id_text(n).len() ==> '0' <= #[trigger] id_text(n)[i] <= '9',
{
    number::lemma_padded_decimal_parsed(n, 6, u64::MAX as nat);
    number::lemma_decimal_digits(n);
    if n < 1_000_000 {
        number::lemma_six_digits(n);
    }
}

/// The largest number is that of a snapshot, and no other has a larger one; ids that are no
/// numbers count for nothing.
pub proof fn law_largest_number(s: Seq<Snapshot>, i: int)
    requires
        0 <= i < s.len(),
    ensures
        id_number(s[i].id@) matches Some(n) ==> n <= largest_number(s),
        largest_number(s) == 0 || exists|j: int|
            0 <= j < s.len() && id_number((#[trigger] s[j]).id@) == Some(largest_number(s)),
    decreases s.len(),
{
    if id_number(s[i].id@) is Some {
        lemma_largest_number(s, i);
    }
    lemma_largest_number_is_one(s);
}

/// The largest number is that of a snapshot.
proof fn lemma_largest_number_is_one(s: Seq<Snapshot>)
    ensures
        largest_number(s) == 0 || exists|j: int|
            0 <= j < s.len() && id_number((#[trigger] s[j]).id@) == Some(largest_number(s)),
    decreases s.len(),
{
    if s.len() > 0 {
        let front = s.drop_last();
        lemma_largest_number_is_one(front);
        if largest_number(s) == largest_number(front) && largest_number(s) != 0 {
            let j = choose|j: int|
                0 <= j < front.len() && id_number((#[trigger] front[j]).id@) == Some(
                    largest_number(front),
                );
            assert(s[j] == front[j]);
        } else if largest_number(s) != 0 {
            assert(id_number(s[s.len() - 1].id@) == Some(largest_number(s)));
        }
    }
}

} // verus!
