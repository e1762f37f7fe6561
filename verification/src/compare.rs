//! The comparison of two recordings.
//!
//! The calls of the two are paired: those with the same method, path and fingerprint, in the
//! order of their numbers. A call without a partner is missing from the current recording or
//! added by it; of two partners, the answers and the requests are compared.
use crate::calls;
use crate::calls::Call;
use crate::calls::CallRecord;
use crate::diff;
use crate::diff::FieldDiff;
use crate::diff::IgnoreRules;
use crate::json;
use crate::matrix;
use crate::matrix::AssertionResult;
use crate::matrix::FeatureMatrix;
use crate::matrix::MatrixEntry;
use crate::order;
use crate::report;
use crate::sequence;
use crate::sequence::SequenceDiff;
use crate::snapshot;
use crate::snapshot::Snapshot;
use crate::text;
use vstd::prelude::*;

verus! {

// ---------------------------------------------------------------------------
// Classes of calls
// ---------------------------------------------------------------------------

/// What calls must have in common to be paired.
#[verifier::ext_equal]
pub struct Key {
    /// The method.
    pub method: Seq<char>,
    /// The path.
    pub path: Seq<char>,
    /// The fingerprint.
    pub fingerprint: Seq<char>,
}

/// The key of a call.
pub open spec fn key_of(c: Call, rules: Seq<Seq<char>>) -> Key {
    Key { method: c.method, path: c.path, fingerprint: calls::fingerprint_of(c, rules) }
}

/// A call in a recording: its number, and where it stands.
pub struct Spot {
    pub number: u64,
    pub at: usize,
}

/// The model of a spot.
pub struct Mark {
    /// The number of the call.
    pub number: u64,
    /// Where it stands.
    pub at: int,
}

impl View for Spot {
    type V = Mark;

    open spec fn view(&self) -> Mark {
        Mark { number: self.number, at: self.at as int }
    }
}

impl order::Ranked for Spot {
    open spec fn le(self, other: Self) -> bool {
        self.number < other.number || (self.number == other.number && self.at <= other.at)
    }

    fn may_precede(&self, other: &Self) -> (r: bool) {
        self.number < other.number || (self.number == other.number && self.at <= other.at)
    }

    proof fn total(a: Self, b: Self) {
    }

    proof fn transitive(a: Self, b: Self, c: Self) {
    }
}

/// The order of calls: by their numbers, then as they stand.
pub open spec fn mark_order() -> spec_fn(Mark, Mark) -> bool {
    |a: Mark, b: Mark| a.number < b.number || (a.number == b.number && a.at <= b.at)
}

/// The models of spots.
pub open spec fn mark_views(v: Seq<Spot>) -> Seq<Mark> {
    v.map_values(|s: Spot| s@)
}

/// The calls with a key among the first `n` of a recording.
pub open spec fn marks(list: Seq<Call>, rules: Seq<Seq<char>>, key: Key, n: nat) -> Seq<Mark>
    decreases n,
{
    if n == 0 || n > list.len() {
        seq![]
    } else {
        let i = n - 1;
        let front = marks(list, rules, key, i as nat);
        if key_of(list[i], rules) == key {
            front.push(Mark { number: calls::numeric_id(list[i].id), at: i })
        } else {
            front
        }
    }
}

/// The calls of a recording with a key, in the order of their numbers.
pub open spec fn class_of(list: Seq<Call>, rules: Seq<Seq<char>>, key: Key) -> Seq<Mark> {
    order::sorted_by(marks(list, rules, key, list.len()), mark_order())
}

/// Where a call stands among marks; behind the last, where it is none of them.
pub open spec fn rank_in(class: Seq<Mark>, at: int) -> int
    decreases class.len(),
{
    if class.len() == 0 || class[0].at == at {
        0
    } else {
        1 + rank_in(class.drop_first(), at)
    }
}

/// The call of the current recording that a call of the baseline is paired with.
pub open spec fn partner(b: Seq<Call>, c: Seq<Call>, rules: Seq<Seq<char>>, i: int) -> Option<int> {
    let key = key_of(b[i], rules);
    let p = rank_in(class_of(b, rules, key), i);
    let others = class_of(c, rules, key);
    if 0 <= p < others.len() {
        Some(others[p].at)
    } else {
        None
    }
}

/// Whether a call of the current recording has no partner in the baseline.
pub open spec fn is_added(b: Seq<Call>, c: Seq<Call>, rules: Seq<Seq<char>>, j: int) -> bool {
    let key = key_of(c[j], rules);
    rank_in(class_of(c, rules, key), j) >= class_of(b, rules, key).len()
}

/// The marks are the calls with the key, as they stand.
proof fn lemma_marks(list: Seq<Call>, rules: Seq<Seq<char>>, key: Key, n: nat)
    requires
        n <= list.len(),
    ensures
        forall|p: int|
            0 <= p < marks(list, rules, key, n).len() ==> is_mark_of(
                #[trigger] marks(list, rules, key, n)[p],
                list,
                rules,
                key,
                n,
            ),
        forall|i: int|
            0 <= i < n && key_of(#[trigger] list[i], rules) == key ==> marks(
                list,
                rules,
                key,
                n,
            ).contains(Mark { number: calls::numeric_id(list[i].id), at: i }),
        marks(list, rules, key, n).no_duplicates(),
    decreases n,
{
    let all = marks(list, rules, key, n);
    if n > 0 {
        let k = (n - 1) as nat;
        let front = marks(list, rules, key, k);
        lemma_marks(list, rules, key, k);
        assert forall|p: int| 0 <= p < all.len() implies is_mark_of(
            #[trigger] all[p],
            list,
            rules,
            key,
            n,
        ) by {
            if p < front.len() {
                assert(all[p] == front[p]);
            }
        }
        assert forall|i: int| 0 <= i < n && key_of(#[trigger] list[i], rules) == key implies
            all.contains(Mark { number: calls::numeric_id(list[i].id), at: i }) by {
            let m = Mark { number: calls::numeric_id(list[i].id), at: i };
            if i < k {
                assert(front.contains(m));
                let p = choose|p: int| 0 <= p < front.len() && front[p] == m;
                assert(all[p] == m);
            } else {
                assert(all[front.len() as int] == m);
            }
        }
        assert forall|p: int, q: int| 0 <= p < all.len() && 0 <= q < all.len() && p != q implies
            all[p] != all[q] by {
            if p < front.len() && q < front.len() {
                assert(front[p] != front[q]);
            } else if p < front.len() {
                assert(is_mark_of(front[p], list, rules, key, k));
            } else if q < front.len() {
                assert(is_mark_of(front[q], list, rules, key, k));
            }
        }
    }
}

/// Whether a mark is that of a call with a key among the first `n`.
pub open spec fn is_mark_of(
    m: Mark,
    list: Seq<Call>,
    rules: Seq<Seq<char>>,
    key: Key,
    n: nat,
) -> bool {
    &&& 0 <= m.at < n <= list.len()
    &&& key_of(list[m.at], rules) == key
    &&& m.number == calls::numeric_id(list[m.at].id)
}

/// A class holds the calls with its key, each once.
proof fn lemma_class(list: Seq<Call>, rules: Seq<Seq<char>>, key: Key)
    ensures
        forall|p: int|
            0 <= p < class_of(list, rules, key).len() ==> is_mark_of(
                #[trigger] class_of(list, rules, key)[p],
                list,
                rules,
                key,
                list.len(),
            ),
        forall|i: int|
            0 <= i < list.len() && key_of(#[trigger] list[i], rules) == key ==> class_of(
                list,
                rules,
                key,
            ).contains(Mark { number: calls::numeric_id(list[i].id), at: i }),
        class_of(list, rules, key).no_duplicates(),
{
    let raw = marks(list, rules, key, list.len());
    let class = class_of(list, rules, key);
    lemma_marks(list, rules, key, list.len());
    order::lemma_sorted_by(raw, mark_order());
    assert forall|p: int| 0 <= p < class.len() implies is_mark_of(
        #[trigger] class[p],
        list,
        rules,
        key,
        list.len(),
    ) by {
        assert(class.contains(class[p]));
        assert(raw.contains(class[p]));
        let q = choose|q: int| 0 <= q < raw.len() && raw[q] == class[p];
        assert(is_mark_of(raw[q], list, rules, key, list.len()));
    }
    assert forall|i: int|
        0 <= i < list.len() && key_of(#[trigger] list[i], rules) == key implies class.contains(
        Mark { number: calls::numeric_id(list[i].id), at: i },
    ) by {
        let m = Mark { number: calls::numeric_id(list[i].id), at: i };
        assert(raw.contains(m));
    }
}

/// The rank is the first place with the call.
proof fn lemma_rank_in(class: Seq<Mark>, at: int)
    ensures
        0 <= rank_in(class, at) <= class.len(),
        rank_in(class, at) < class.len() ==> class[rank_in(class, at)].at == at,
        forall|p: int|
            0 <= p < rank_in(class, at) && p < class.len() ==> (#[trigger] class[p]).at != at,
    decreases class.len(),
{
    if class.len() > 0 && class[0].at != at {
        let rest = class.drop_first();
        lemma_rank_in(rest, at);
        assert forall|p: int| 0 <= p < rank_in(class, at) && p < class.len() implies (
        #[trigger] class[p]).at != at by {
            if p > 0 {
                assert(class[p] == rest[p - 1]);
            }
        }
    }
}

/// Every call of a recording has a rank in its class, and the call at that rank is the call.
proof fn lemma_rank_of_call(list: Seq<Call>, rules: Seq<Seq<char>>, i: int)
    requires
        0 <= i < list.len(),
    ensures
        ({
            let class = class_of(list, rules, key_of(list[i], rules));
            &&& 0 <= rank_in(class, i) < class.len()
            &&& class[rank_in(class, i)].at == i
        }),
{
    let key = key_of(list[i], rules);
    let class = class_of(list, rules, key);
    lemma_class(list, rules, key);
    lemma_rank_in(class, i);
    let m = Mark { number: calls::numeric_id(list[i].id), at: i };
    assert(class.contains(m));
    let p = choose|p: int| 0 <= p < class.len() && class[p] == m;
    assert(class[p].at == i);
}

/// The call at a place of a class has that place as its rank.
proof fn lemma_rank_at(list: Seq<Call>, rules: Seq<Seq<char>>, key: Key, p: int)
    requires
        0 <= p < class_of(list, rules, key).len(),
    ensures
        rank_in(class_of(list, rules, key), class_of(list, rules, key)[p].at) == p,
{
    let class = class_of(list, rules, key);
    lemma_class(list, rules, key);
    let at = class[p].at;
    lemma_rank_in(class, at);
    let q = rank_in(class, at);
    assert(is_mark_of(class[p], list, rules, key, list.len()));
    if q < p {
        assert(is_mark_of(class[q], list, rules, key, list.len()));
        assert(class[q] == class[p]);
    }
}

// ---------------------------------------------------------------------------
// Pairing
// ---------------------------------------------------------------------------

/// Lists the fingerprints of calls.
fn fingerprints(list: &[CallRecord], rules: &IgnoreRules) -> (r: Vec<String>)
    ensures
        r@.len() == list@.len(),
        forall|i: int|
            0 <= i < r@.len() ==> (#[trigger] r@[i])@ == calls::fingerprint_of(
                list@[i]@,
                rules@,
            ),
{
    let n: usize = list.len();
    let mut out: Vec<String> = Vec::new();
    let mut i: usize = 0;
    while i < n
        invariant
            i <= n == list@.len(),
            out@.len() == i,
            forall|k: int|
                0 <= k < i ==> (#[trigger] out@[k])@ == calls::fingerprint_of(list@[k]@, rules@),
        decreases n - i,
    {
        out.push(list[i].fingerprint(rules));
        i += 1;
    }
    out
}

/// Lists the calls of a recording that can be paired with a call.
fn make_class(
    list: &[CallRecord],
    prints: &[String],
    call: &CallRecord,
    print: &str,
    rules: &IgnoreRules,
) -> (r: Vec<Spot>)
    requires
        prints@.len() == list@.len(),
        forall|i: int|
            0 <= i < prints@.len() ==> (#[trigger] prints@[i])@ == calls::fingerprint_of(
                list@[i]@,
                rules@,
            ),
        print@ == calls::fingerprint_of(call@, rules@),
    ensures
        mark_views(r@) == class_of(calls::call_views(list@), rules@, key_of(call@, rules@)),
{
    let ghost all = calls::call_views(list@);
    let ghost key = key_of(call@, rules@);
    let n: usize = list.len();
    let mut out: Vec<Spot> = Vec::new();
    let mut i: usize = 0;
    assert(mark_views(out@) =~= Seq::<Mark>::empty());
    while i < n
        invariant
            i <= n == list@.len(),
            prints@.len() == list@.len(),
            forall|i: int|
                0 <= i < prints@.len() ==> (#[trigger] prints@[i])@ == calls::fingerprint_of(
                    list@[i]@,
                    rules@,
                ),
            print@ == calls::fingerprint_of(call@, rules@),
            all == calls::call_views(list@),
            key == key_of(call@, rules@),
            mark_views(out@) == marks(all, rules@, key, i as nat),
        decreases n - i,
    {
        let other = &list[i];
        proof {
            assert(all[i as int] == other@);
            assert(prints@[i as int]@ == calls::fingerprint_of(other@, rules@));
            assert((i + 1) as nat - 1 == i);
        }
        if text::same(&other.method, &call.method) && text::same(&other.path, &call.path)
            && text::same(&prints[i], print) {
            let spot = Spot { number: calls::read_id(&other.id), at: i };
            let ghost before = out@;
            assert(key_of(other@, rules@) =~= key);
            out.push(spot);
            assert(mark_views(out@) =~= mark_views(before).push(spot@));
        }
        i += 1;
    }
    proof {
        let f = |s: Spot| s@;
        order::lemma_sorted_as(out@, f, mark_order());
        assert(mark_views(out@) =~= out@.map_values(f));
        assert(mark_views(order::sorted(out@)) =~= order::sorted(out@).map_values(f));
    }
    order::sort(out)
}

/// Finds the rank of a call among spots.
fn find_rank(class: &[Spot], at: usize) -> (r: usize)
    ensures
        r == rank_in(mark_views(class@), at as int),
        r <= class@.len(),
{
    let ghost all = mark_views(class@);
    let n: usize = class.len();
    let mut i: usize = 0;
    assert(all.skip(0) =~= all);
    while i < n
        invariant
            i <= n == class@.len(),
            all == mark_views(class@),
            rank_in(all, at as int) == i + rank_in(all.skip(i as int), at as int),
        decreases n - i,
    {
        assert(all.skip(i as int)[0] == class@[i as int]@);
        if class[i].at == at {
            return i;
        }
        assert(all.skip(i as int).drop_first() =~= all.skip(i + 1));
        i += 1;
    }
    n
}

/// How a call was paired.
#[derive(Debug, Clone, Copy, PartialEq, Eq, Structural)]
pub enum MatchKind {
    /// Only the baseline has it.
    Missing,
    /// Only the current recording has it.
    Added,
    /// Both have it.
    Matched,
}

/// A call, or two that are paired, and how they differ.
#[derive(Debug)]
pub struct CallComparison {
    pub method: String,
    pub path: String,
    pub kind: MatchKind,
    pub baseline: Option<CallRecord>,
    pub current: Option<CallRecord>,
    /// The statuses, where they differ.
    pub status_diff: Option<(u16, u16)>,
    /// How the bodies of the answers differ, field by field.
    pub response_diffs: Vec<FieldDiff>,
    /// How the requests differ, where they do.
    pub request_diff: Option<String>,
}

/// The model of a comparison.
#[verifier::ext_equal]
pub struct Comparison {
    /// The method.
    pub method: Seq<char>,
    /// The path.
    pub path: Seq<char>,
    /// How the call was paired.
    pub kind: MatchKind,
    /// The call of the baseline.
    pub baseline: Option<Call>,
    /// The call of the current recording.
    pub current: Option<Call>,
    /// The statuses, where they differ.
    pub status_diff: Option<(u16, u16)>,
    /// How the bodies of the answers differ.
    pub response_diffs: Seq<diff::Diff>,
    /// How the requests differ.
    pub request_diff: Option<Seq<char>>,
}

/// The model of a call that may be there.
pub open spec fn opt_call(o: Option<CallRecord>) -> Option<Call> {
    match o {
        Some(c) => Some(c@),
        None => None,
    }
}

impl View for CallComparison {
    type V = Comparison;

    open spec fn view(&self) -> Comparison {
        Comparison {
            method: self.method@,
            path: self.path@,
            kind: self.kind,
            baseline: opt_call(self.baseline),
            current: opt_call(self.current),
            status_diff: self.status_diff,
            response_diffs: diff::diff_views(self.response_diffs@),
            request_diff: text::opt_text(self.request_diff),
        }
    }
}

/// The models of comparisons.
pub open spec fn comparison_views(v: Seq<CallComparison>) -> Seq<Comparison> {
    v.map_values(|c: CallComparison| c@)
}

/// How the bodies of two answers differ; not at all, where one of them is no JSON.
pub open spec fn answer_diffs(b: Call, c: Call, rules: Seq<Seq<char>>) -> Seq<diff::Diff> {
    match (matrix::body_tree(b.response_body), matrix::body_tree(c.response_body)) {
        (Some(x), Some(y)) => diff::diffs(x, y, "$"@, rules),
        _ => seq![],
    }
}

/// Two calls that are paired.
pub open spec fn matched(b: Call, c: Call, rules: Seq<Seq<char>>) -> Comparison {
    Comparison {
        method: b.method,
        path: b.path,
        kind: MatchKind::Matched,
        baseline: Some(b),
        current: Some(c),
        status_diff: if b.status != c.status {
            Some((b.status, c.status))
        } else {
            None
        },
        response_diffs: answer_diffs(b, c, rules),
        request_diff: calls::request_difference(b, c),
    }
}

/// A call that only the baseline has.
pub open spec fn lost(b: Call) -> Comparison {
    Comparison {
        method: b.method,
        path: b.path,
        kind: MatchKind::Missing,
        baseline: Some(b),
        current: None,
        status_diff: None,
        response_diffs: seq![],
        request_diff: None,
    }
}

/// A call that only the current recording has.
pub open spec fn gained(c: Call) -> Comparison {
    Comparison {
        method: c.method,
        path: c.path,
        kind: MatchKind::Added,
        baseline: None,
        current: Some(c),
        status_diff: None,
        response_diffs: seq![],
        request_diff: None,
    }
}

/// The comparison of a call of the baseline.
pub open spec fn compared(
    b: Seq<Call>,
    c: Seq<Call>,
    rules: Seq<Seq<char>>,
    i: int,
) -> Comparison {
    match partner(b, c, rules, i) {
        Some(j) => matched(b[i], c[j], rules),
        None => lost(b[i]),
    }
}

/// The calls among the first `n` of the current recording that only it has.
pub open spec fn additions(
    b: Seq<Call>,
    c: Seq<Call>,
    rules: Seq<Seq<char>>,
    n: nat,
) -> Seq<Comparison>
    decreases n,
{
    if n == 0 || n > c.len() {
        seq![]
    } else {
        let j = n - 1;
        let front = additions(b, c, rules, j as nat);
        if is_added(b, c, rules, j) {
            front.push(gained(c[j]))
        } else {
            front
        }
    }
}

/// The comparison of two recordings: each call of the baseline, then the calls that only the
/// current recording has.
pub open spec fn comparisons(b: Seq<Call>, c: Seq<Call>, rules: Seq<Seq<char>>) -> Seq<Comparison> {
    Seq::new(b.len(), |i: int| compared(b, c, rules, i)) + additions(b, c, rules, c.len())
}

/// Reads a body as JSON.
fn read_json(body: &[u8]) -> (r: Option<json::Json>)
    ensures
        match r {
            Some(v) => matrix::body_tree(body@) == Some(json::tree_of(v)),
            None => matrix::body_tree(body@) is None,
        },
{
    match text::utf8(body) {
        Some(s) => match json::parse(s) {
            Ok(v) => Some(v),
            Err(_) => None,
        },
        None => None,
    }
}

/// Finds how the bodies of two answers differ.
fn compare_answers(b: &CallRecord, c: &CallRecord, rules: &IgnoreRules) -> (r: Vec<FieldDiff>)
    ensures
        diff::diff_views(r@) == answer_diffs(b@, c@, rules@),
{
    let x = snapshot::decode_body(&b.response_body, &b.response_body_encoding);
    let y = snapshot::decode_body(&c.response_body, &c.response_body_encoding);
    match (read_json(&x), read_json(&y)) {
        (Some(v), Some(w)) => diff::diff_json(&v, &w, "$", rules),
        _ => {
            let none: Vec<FieldDiff> = Vec::new();
            assert(diff::diff_views(none@) =~= Seq::<diff::Diff>::empty());
            none
        },
    }
}

/// Compares two calls that are paired.
fn compare_pair(b: &CallRecord, c: &CallRecord, rules: &IgnoreRules) -> (r: CallComparison)
    ensures
        r@ == matched(b@, c@, rules@),
{
    CallComparison {
        method: b.method.clone(),
        path: b.path.clone(),
        kind: MatchKind::Matched,
        baseline: Some(b.clone()),
        current: Some(c.clone()),
        status_diff: if b.status != c.status {
            Some((b.status, c.status))
        } else {
            None
        },
        response_diffs: compare_answers(b, c, rules),
        request_diff: calls::request_diff(b, c),
    }
}

/// Reports a call that only one recording has.
fn report_single(call: &CallRecord, in_baseline: bool) -> (r: CallComparison)
    ensures
        in_baseline ==> r@ == lost(call@),
        !in_baseline ==> r@ == gained(call@),
{
    let none: Vec<FieldDiff> = Vec::new();
    assert(diff::diff_views(none@) =~= Seq::<diff::Diff>::empty());
    let method = call.method.clone();
    let path = call.path.clone();
    if in_baseline {
        CallComparison {
            method,
            path,
            kind: MatchKind::Missing,
            baseline: Some(call.clone()),
            current: None,
            status_diff: None,
            response_diffs: none,
            request_diff: None,
        }
    } else {
        CallComparison {
            method,
            path,
            kind: MatchKind::Added,
            baseline: None,
            current: Some(call.clone()),
            status_diff: None,
            response_diffs: none,
            request_diff: None,
        }
    }
}

/// One more comparison has one more model.
proof fn lemma_comparison_push(v: Seq<CallComparison>, c: CallComparison)
    ensures
        comparison_views(v.push(c)) == comparison_views(v).push(c@),
{
    assert(comparison_views(v.push(c)) =~= comparison_views(v).push(c@));
}

/// Pairs the calls of two recordings, and compares them.
pub fn align_calls(baseline: &[CallRecord], current: &[CallRecord], rules: &IgnoreRules) -> (r: Vec<
    CallComparison,
>)
    ensures
        comparison_views(r@) == comparisons(
            calls::call_views(baseline@),
            calls::call_views(current@),
            rules@,
        ),
{
    let ghost b = calls::call_views(baseline@);
    let ghost c = calls::call_views(current@);
    let base_prints = fingerprints(baseline, rules);
    let current_prints = fingerprints(current, rules);
    let ghost first = Seq::new(b.len(), |i: int| compared(b, c, rules@, i));
    let n: usize = baseline.len();
    let m: usize = current.len();
    let mut out: Vec<CallComparison> = Vec::new();
    let mut i: usize = 0;
    assert(comparison_views(out@) =~= first.take(0));
    while i < n
        invariant
            i <= n == baseline@.len(),
            b == calls::call_views(baseline@),
            c == calls::call_views(current@),
            base_prints@.len() == baseline@.len(),
            current_prints@.len() == current@.len(),
            forall|k: int|
                0 <= k < base_prints@.len() ==> (#[trigger] base_prints@[k])@
                    == calls::fingerprint_of(baseline@[k]@, rules@),
            forall|k: int|
                0 <= k < current_prints@.len() ==> (#[trigger] current_prints@[k])@
                    == calls::fingerprint_of(current@[k]@, rules@),
            first == Seq::new(b.len(), |i: int| compared(b, c, rules@, i)),
            comparison_views(out@) == first.take(i as int),
        decreases n - i,
    {
        let call = &baseline[i];
        let ghost key = key_of(call@, rules@);
        proof {
            assert(b[i as int] == call@);
            lemma_class(c, rules@, key);
        }
        let own = make_class(baseline, &base_prints, call, &base_prints[i], rules);
        let others = make_class(current, &current_prints, call, &base_prints[i], rules);
        let p = find_rank(&own, i);
        let entry = if p < others.len() {
            let j: usize = others[p].at;
            proof {
                let class = class_of(c, rules@, key);
                assert(class[p as int] == others@[p as int]@);
                assert(is_mark_of(class[p as int], c, rules@, key, c.len()));
                assert(c[j as int] == current@[j as int]@);
            }
            compare_pair(call, &current[j], rules)
        } else {
            report_single(call, true)
        };
        proof {
            lemma_comparison_push(out@, entry);
            assert(entry@ == first[i as int]);
            assert(first.take(i + 1) =~= first.take(i as int).push(entry@));
        }
        out.push(entry);
        i += 1;
    }
    assert(first.take(n as int) =~= first);
    assert(first + Seq::<Comparison>::empty() =~= first);
    let mut j: usize = 0;
    while j < m
        invariant
            j <= m == current@.len(),
            b == calls::call_views(baseline@),
            c == calls::call_views(current@),
            base_prints@.len() == baseline@.len(),
            current_prints@.len() == current@.len(),
            forall|k: int|
                0 <= k < base_prints@.len() ==> (#[trigger] base_prints@[k])@
                    == calls::fingerprint_of(baseline@[k]@, rules@),
            forall|k: int|
                0 <= k < current_prints@.len() ==> (#[trigger] current_prints@[k])@
                    == calls::fingerprint_of(current@[k]@, rules@),
            comparison_views(out@) == first + additions(b, c, rules@, j as nat),
        decreases m - j,
    {
        let call = &current[j];
        proof {
            assert(c[j as int] == call@);
            assert((j + 1) as nat - 1 == j);
        }
        let own = make_class(current, &current_prints, call, &current_prints[j], rules);
        let others = make_class(baseline, &base_prints, call, &current_prints[j], rules);
        let p = find_rank(&own, j);
        assert(is_added(b, c, rules@, j as int) == (p >= others@.len()));
        if p >= others.len() {
            let entry = report_single(call, false);
            proof {
                lemma_comparison_push(out@, entry);
                let front = additions(b, c, rules@, j as nat);
                assert((first + front).push(entry@) =~= first + front.push(entry@));
            }
            out.push(entry);
        }
        j += 1;
    }
    out
}

/// Lists the calls of snapshots.
fn records_of(list: &[Snapshot]) -> (r: Vec<CallRecord>)
    ensures
        calls::call_views(r@) == calls::calls_of(list@),
{
    let ghost all = calls::calls_of(list@);
    let n: usize = list.len();
    let mut out: Vec<CallRecord> = Vec::new();
    let mut i: usize = 0;
    assert(calls::call_views(out@) =~= all.take(0));
    while i < n
        invariant
            i <= n == list@.len(),
            all == calls::calls_of(list@),
            calls::call_views(out@) == all.take(i as int),
        decreases n - i,
    {
        let call = CallRecord::from_snapshot(&list[i]);
        proof {
            assert(calls::call_views(out@.push(call)) =~= calls::call_views(out@).push(call@));
            assert(all.take(i + 1) =~= all.take(i as int).push(call@));
        }
        out.push(call);
        i += 1;
    }
    assert(all.take(n as int) =~= all);
    out
}

/// Compares the snapshots of two recordings.
pub fn compare_snapshots(baseline: &[Snapshot], current: &[Snapshot], rules: &IgnoreRules) -> (r:
    Vec<CallComparison>)
    ensures
        comparison_views(r@) == comparisons(
            calls::calls_of(baseline@),
            calls::calls_of(current@),
            rules@,
        ),
{
    let b = records_of(baseline);
    let c = records_of(current);
    align_calls(&b, &c, rules)
}

// ---------------------------------------------------------------------------
// The order of calls
// ---------------------------------------------------------------------------

/// How a call is named as a step.
pub open spec fn label(c: Comparison) -> Seq<char> {
    c.method + " "@ + c.path
}

/// The number of the call that one side made; `None` where it made none.
pub open spec fn number_on(c: Comparison, in_baseline: bool) -> Option<u64> {
    match if in_baseline {
        c.baseline
    } else {
        c.current
    } {
        Some(call) => Some(calls::numeric_id(call.id)),
        None => None,
    }
}

/// The calls of one side among the first `n` comparisons, with their numbers.
pub open spec fn made(cs: Seq<Comparison>, in_baseline: bool, n: nat) -> Seq<Mark>
    decreases n,
{
    if n == 0 || n > cs.len() {
        seq![]
    } else {
        let i = n - 1;
        let front = made(cs, in_baseline, i as nat);
        match number_on(cs[i], in_baseline) {
            Some(number) => front.push(Mark { number, at: i }),
            None => front,
        }
    }
}

/// The calls of one side as steps, in the order in which it made them.
pub open spec fn steps_on(cs: Seq<Comparison>, in_baseline: bool) -> Seq<Seq<char>> {
    order::sorted_by(made(cs, in_baseline, cs.len()), mark_order()).map_values(
        |m: Mark| label(cs[m.at]),
    )
}

/// Reads the number of the call that one side made.
fn read_number(c: &CallComparison, in_baseline: bool) -> (r: Option<u64>)
    ensures
        r == number_on(c@, in_baseline),
{
    let side = if in_baseline {
        &c.baseline
    } else {
        &c.current
    };
    match side {
        Some(call) => Some(calls::read_id(&call.id)),
        None => None,
    }
}

/// The calls of one side stand among the comparisons, where that side made one; and each is
/// among them.
proof fn lemma_made(cs: Seq<Comparison>, in_baseline: bool, n: nat)
    requires
        n <= cs.len(),
    ensures
        forall|p: int|
            0 <= p < made(cs, in_baseline, n).len() ==> 0 <= (#[trigger] made(
                cs,
                in_baseline,
                n,
            )[p]).at < n && number_on(cs[made(cs, in_baseline, n)[p].at], in_baseline) is Some,
        forall|i: int|
            0 <= i < n && number_on(#[trigger] cs[i], in_baseline) is Some ==> exists|p: int|
                0 <= p < made(cs, in_baseline, n).len() && (#[trigger] made(
                    cs,
                    in_baseline,
                    n,
                )[p]).at == i,
    decreases n,
{
    if n > 0 {
        let front = made(cs, in_baseline, (n - 1) as nat);
        lemma_made(cs, in_baseline, (n - 1) as nat);
        let all = made(cs, in_baseline, n);
        assert forall|p: int| 0 <= p < all.len() implies 0 <= (#[trigger] all[p]).at < n
            && number_on(cs[all[p].at], in_baseline) is Some by {
            if p < front.len() {
                assert(all[p] == front[p]);
            }
        }
        assert forall|i: int|
            0 <= i < n && number_on(#[trigger] cs[i], in_baseline) is Some implies exists|p: int|
            0 <= p < all.len() && (#[trigger] all[p]).at == i by {
            if i < n - 1 {
                let p = choose|p: int| 0 <= p < front.len() && (#[trigger] front[p]).at == i;
                assert(all[p] == front[p]);
            } else {
                assert(all[all.len() - 1].at == i);
            }
        }
    }
}

/// Lists the calls of one side as steps, in the order in which it made them.
fn list_steps(list: &[CallComparison], in_baseline: bool) -> (r: Vec<String>)
    ensures
        text::texts(r@) == steps_on(comparison_views(list@), in_baseline),
{
    let ghost cs = comparison_views(list@);
    let n: usize = list.len();
    let mut spots: Vec<Spot> = Vec::new();
    let mut i: usize = 0;
    assert(mark_views(spots@) =~= Seq::<Mark>::empty());
    while i < n
        invariant
            i <= n == list@.len(),
            cs == comparison_views(list@),
            mark_views(spots@) == made(cs, in_baseline, i as nat),
        decreases n - i,
    {
        proof {
            assert(cs[i as int] == list@[i as int]@);
            assert((i + 1) as nat - 1 == i);
        }
        if let Some(number) = read_number(&list[i], in_baseline) {
            let spot = Spot { number, at: i };
            let ghost before = spots@;
            spots.push(spot);
            assert(mark_views(spots@) =~= mark_views(before).push(spot@));
        }
        i += 1;
    }
    let ghost raw = made(cs, in_baseline, cs.len());
    let ghost ordered = order::sorted_by(raw, mark_order());
    proof {
        let f = |s: Spot| s@;
        order::lemma_sorted_as(spots@, f, mark_order());
        assert(mark_views(spots@) =~= spots@.map_values(f));
        assert(mark_views(order::sorted(spots@)) =~= order::sorted(spots@).map_values(f));
    }
    let sorted = order::sort(spots);
    proof {
        lemma_made(cs, in_baseline, cs.len());
        order::lemma_sorted_by(raw, mark_order());
        assert forall|p: int| 0 <= p < ordered.len() implies 0 <= (#[trigger] ordered[p]).at
            < cs.len() by {
            assert(ordered.contains(ordered[p]));
            assert(raw.contains(ordered[p]));
            let q = choose|q: int| 0 <= q < raw.len() && raw[q] == ordered[p];
            assert(0 <= raw[q].at < cs.len());
        }
    }
    let ghost steps = steps_on(cs, in_baseline);
    let m: usize = sorted.len();
    let mut out: Vec<String> = Vec::new();
    let mut k: usize = 0;
    assert(text::texts(out@) =~= steps.take(0));
    while k < m
        invariant
            k <= m == sorted@.len(),
            cs == comparison_views(list@),
            mark_views(sorted@) == ordered,
            steps == ordered.map_values(|m: Mark| label(cs[m.at])),
            forall|p: int|
                0 <= p < ordered.len() ==> 0 <= (#[trigger] ordered[p]).at < cs.len(),
            text::texts(out@) == steps.take(k as int),
        decreases m - k,
    {
        assert(ordered[k as int] == sorted@[k as int]@);
        let c = &list[sorted[k].at];
        assert(cs[ordered[k as int].at] == c@);
        let mut step = text::chars_of(&c.method);
        text::push_str(&mut step, " ");
        text::push_str(&mut step, &c.path);
        let step = text::string_of(&step);
        proof {
            text::lemma_texts_push(out@, step);
            assert(steps.take(k + 1) =~= steps.take(k as int).push(step@));
        }
        out.push(step);
        k += 1;
    }
    assert(steps.take(m as int) =~= steps);
    out
}

/// Compares the order in which the two sides made their calls: a step that one of them lacks is
/// named. Where neither made a call, there is nothing to compare.
pub fn build_sequence_diff(list: &[CallComparison]) -> (r: Option<SequenceDiff>)
    ensures
        ({
            let cs = comparison_views(list@);
            let b = steps_on(cs, true);
            let c = steps_on(cs, false);
            match r {
                Some(d) => {
                    &&& b.len() > 0 || c.len() > 0
                    &&& text::texts(d.missing@) == sequence::missing(b, c)
                    &&& text::texts(d.added@) == sequence::added(b, c)
                },
                None => b.len() == 0 && c.len() == 0,
            }
        }),
{
    let b = list_steps(list, true);
    let c = list_steps(list, false);
    assert(text::texts(b@).len() == b@.len());
    assert(text::texts(c@).len() == c@.len());
    if b.len() == 0 && c.len() == 0 {
        return None;
    }
    Some(sequence::compare_sequences(&b, &c))
}

// ---------------------------------------------------------------------------
// Assertions
// ---------------------------------------------------------------------------

/// The outcomes of the assertions of a feature.
#[derive(Debug)]
pub struct FeatureAssertions {
    pub entry_id: String,
    pub entry_name: String,
    /// Those on the answers of the baseline.
    pub baseline: Vec<AssertionResult>,
    /// Those on the answers of the current recording.
    pub current: Vec<AssertionResult>,
}

/// The model of the outcomes of a feature.
#[verifier::ext_equal]
pub struct Findings {
    /// The id of the feature.
    pub id: Seq<char>,
    /// Its name.
    pub name: Seq<char>,
    /// The outcomes on the answers of the baseline.
    pub baseline: Seq<matrix::Outcome>,
    /// Those on the answers of the current recording.
    pub current: Seq<matrix::Outcome>,
}

impl View for FeatureAssertions {
    type V = Findings;

    open spec fn view(&self) -> Findings {
        Findings {
            id: self.entry_id@,
            name: self.entry_name@,
            baseline: matrix::outcomes(self.baseline@),
            current: matrix::outcomes(self.current@),
        }
    }
}

/// The models of the outcomes of features.
pub open spec fn finding_views(v: Seq<FeatureAssertions>) -> Seq<Findings> {
    v.map_values(|f: FeatureAssertions| f@)
}

/// Whether a comparison is one of paired calls of a feature.
pub open spec fn is_pair_of(c: Comparison, entry: MatrixEntry) -> bool {
    c.kind == MatchKind::Matched && matrix::entry_calls(entry, c.method, c.path)
}

/// The outcomes of claims on the answer of a call that may be there.
pub open spec fn call_outcomes(call: Option<Call>, list: Seq<matrix::Claim>) -> Seq<
    matrix::Outcome,
> {
    match call {
        Some(c) => list.map_values(
            |claim: matrix::Claim| matrix::outcome(matrix::body_tree(c.response_body), claim),
        ),
        None => seq![],
    }
}

/// The outcomes of a feature's assertions on one side of the first `n` comparisons.
pub open spec fn side_outcomes(
    cs: Seq<Comparison>,
    entry: MatrixEntry,
    in_baseline: bool,
    n: nat,
) -> Seq<matrix::Outcome>
    decreases n,
{
    if n == 0 || n > cs.len() {
        seq![]
    } else {
        let c = cs[n - 1];
        let front = side_outcomes(cs, entry, in_baseline, (n - 1) as nat);
        if is_pair_of(c, entry) {
            front + call_outcomes(
                if in_baseline {
                    c.baseline
                } else {
                    c.current
                },
                matrix::claims(entry.expected@),
            )
        } else {
            front
        }
    }
}

/// Whether some paired calls are those of a feature.
pub open spec fn has_pair(cs: Seq<Comparison>, entry: MatrixEntry) -> bool {
    exists|i: int| 0 <= i < cs.len() && is_pair_of(#[trigger] cs[i], entry)
}

/// The outcomes of the assertions of the first `n` features: of those that have assertions, and
/// calls that are paired.
pub open spec fn findings(cs: Seq<Comparison>, entries: Seq<MatrixEntry>, n: nat) -> Seq<Findings>
    decreases n,
{
    if n == 0 || n > entries.len() {
        seq![]
    } else {
        let entry = entries[n - 1];
        let front = findings(cs, entries, (n - 1) as nat);
        if entry.expected@.len() > 0 && has_pair(cs, entry) {
            front.push(
                Findings {
                    id: entry.id@,
                    name: entry.name@,
                    baseline: side_outcomes(cs, entry, true, cs.len()),
                    current: side_outcomes(cs, entry, false, cs.len()),
                },
            )
        } else {
            front
        }
    }
}

/// Runs the assertions of a feature on one side.
fn run_side(list: &[CallComparison], entry: &MatrixEntry, in_baseline: bool) -> (r: Vec<
    AssertionResult,
>)
    ensures
        matrix::outcomes(r@) == side_outcomes(
            comparison_views(list@),
            *entry,
            in_baseline,
            list@.len(),
        ),
{
    let ghost cs = comparison_views(list@);
    let n: usize = list.len();
    let mut out: Vec<AssertionResult> = Vec::new();
    let mut i: usize = 0;
    assert(matrix::outcomes(out@) =~= Seq::<matrix::Outcome>::empty());
    while i < n
        invariant
            i <= n == list@.len(),
            cs == comparison_views(list@),
            matrix::outcomes(out@) == side_outcomes(cs, *entry, in_baseline, i as nat),
        decreases n - i,
    {
        let c = &list[i];
        proof {
            assert(cs[i as int] == c@);
            assert((i + 1) as nat - 1 == i);
        }
        if c.kind == MatchKind::Matched && matrix::is_entry_for(entry, &c.method, &c.path) {
            let side = if in_baseline {
                &c.baseline
            } else {
                &c.current
            };
            match side {
                Some(call) => {
                    let body = snapshot::decode_body(
                        &call.response_body,
                        &call.response_body_encoding,
                    );
                    let mut more = matrix::eval_assertions(&body, &entry.expected);
                    let ghost (x, y) = (out@, more@);
                    proof {
                        assert(matrix::outcomes(y) =~= call_outcomes(
                            Some(call@),
                            matrix::claims(entry.expected@),
                        ));
                        assert(matrix::outcomes(x + y) =~= matrix::outcomes(x) + matrix::outcomes(
                            y,
                        ));
                    }
                    out.append(&mut more);
                },
                None => {
                    assert(matrix::outcomes(out@) + Seq::<matrix::Outcome>::empty()
                        =~= matrix::outcomes(out@));
                },
            }
        }
        i += 1;
    }
    out
}

/// Whether some paired calls are those of a feature.
fn is_called(list: &[CallComparison], entry: &MatrixEntry) -> (r: bool)
    ensures
        r == has_pair(comparison_views(list@), *entry),
{
    let ghost cs = comparison_views(list@);
    let n: usize = list.len();
    let mut i: usize = 0;
    while i < n
        invariant
            i <= n == list@.len(),
            cs == comparison_views(list@),
            forall|k: int| 0 <= k < i ==> !is_pair_of(#[trigger] cs[k], *entry),
        decreases n - i,
    {
        let c = &list[i];
        assert(cs[i as int] == c@);
        if c.kind == MatchKind::Matched && matrix::is_entry_for(entry, &c.method, &c.path) {
            return true;
        }
        i += 1;
    }
    false
}

/// Runs the assertions of the features of a matrix.
pub fn run_feature_assertions(features: Option<&FeatureMatrix>, list: &[CallComparison]) -> (r: Vec<
    FeatureAssertions,
>)
    ensures
        finding_views(r@) == match features {
            Some(m) => findings(comparison_views(list@), m.entries@, m.entries@.len()),
            None => seq![],
        },
{
    let mut out: Vec<FeatureAssertions> = Vec::new();
    assert(finding_views(out@) =~= Seq::<Findings>::empty());
    if let Some(m) = features {
        let n: usize = m.entries.len();
        let mut i: usize = 0;
        while i < n
            invariant
                i <= n == m.entries@.len(),
                finding_views(out@) == findings(comparison_views(list@), m.entries@, i as nat),
            decreases n - i,
        {
            let entry = &m.entries[i];
            assert((i + 1) as nat - 1 == i);
            if entry.expected.len() > 0 && is_called(list, entry) {
                let found = FeatureAssertions {
                    entry_id: entry.id.clone(),
                    entry_name: entry.name.clone(),
                    baseline: run_side(list, entry, true),
                    current: run_side(list, entry, false),
                };
                let ghost before = out@;
                out.push(found);
                assert(finding_views(out@) =~= finding_views(before).push(found@));
            }
            i += 1;
        }
    }
    out
}

// ---------------------------------------------------------------------------
// The whole comparison
// ---------------------------------------------------------------------------

/// What a comparison comes to.
#[derive(Debug)]
pub struct Verdict {
    /// The counts in one line.
    pub summary: String,
    /// The report.
    pub text: String,
}

/// The steps that are missing and added, where there are any calls.
pub open spec fn flow_of(cs: Seq<Comparison>) -> Option<(Seq<Seq<char>>, Seq<Seq<char>>)> {
    let b = steps_on(cs, true);
    let c = steps_on(cs, false);
    if b.len() > 0 || c.len() > 0 {
        Some((sequence::missing(b, c), sequence::added(b, c)))
    } else {
        None
    }
}

/// Compares two recordings, and writes the report.
pub fn run(
    baseline_name: &str,
    baseline: &[Snapshot],
    current_name: &str,
    current: &[Snapshot],
    features: Option<&FeatureMatrix>,
    rules: &IgnoreRules,
) -> (r: Verdict)
    ensures
        ({
            let cs = comparisons(calls::calls_of(baseline@), calls::calls_of(current@), rules@);
            &&& r.summary@ == report::summary_line(report::tally(cs))
            &&& r.text@ == report::report(
                baseline_name@,
                current_name@,
                cs,
                report::entries_of(features),
                flow_of(cs),
                match features {
                    Some(m) => findings(cs, m.entries@, m.entries@.len()),
                    None => seq![],
                },
            )
        }),
{
    let list = compare_snapshots(baseline, current, rules);
    let flow = build_sequence_diff(&list);
    let assertions = run_feature_assertions(features, &list);
    let summary = report::write_summary_line(&report::count(&list));
    let text = report::render_report(
        baseline_name,
        current_name,
        &list,
        features,
        flow.as_ref(),
        &assertions,
    );
    Verdict { summary, text }
}

// ---------------------------------------------------------------------------
// Laws
// ---------------------------------------------------------------------------

/// Calls that are paired have the same method, path and fingerprint, and the one of the current
/// recording is not reported as added.
pub proof fn law_partners_are_alike(
    b: Seq<Call>,
    c: Seq<Call>,
    rules: Seq<Seq<char>>,
    i: int,
    j: int,
)
    requires
        0 <= i < b.len(),
        partner(b, c, rules, i) == Some(j),
    ensures
        0 <= j < c.len(),
        key_of(b[i], rules) == key_of(c[j], rules),
        !is_added(b, c, rules, j),
{
    let key = key_of(b[i], rules);
    let own = class_of(b, rules, key);
    let others = class_of(c, rules, key);
    let p = rank_in(own, i);
    lemma_rank_of_call(b, rules, i);
    lemma_class(c, rules, key);
    assert(is_mark_of(others[p], c, rules, key, c.len()));
    lemma_rank_at(c, rules, key, p);
}

/// No call of the current recording is paired with two calls of the baseline.
pub proof fn law_no_call_is_paired_twice(
    b: Seq<Call>,
    c: Seq<Call>,
    rules: Seq<Seq<char>>,
    i: int,
    k: int,
)
    requires
        0 <= i < b.len(),
        0 <= k < b.len(),
        partner(b, c, rules, i) is Some,
        partner(b, c, rules, i) == partner(b, c, rules, k),
    ensures
        i == k,
{
    let j = partner(b, c, rules, i)->0;
    law_partners_are_alike(b, c, rules, i, j);
    law_partners_are_alike(b, c, rules, k, j);
    let key = key_of(c[j], rules);
    let own = class_of(b, rules, key);
    lemma_rank_of_call(b, rules, i);
    lemma_rank_of_call(b, rules, k);
    lemma_rank_at(c, rules, key, rank_in(own, i));
    lemma_rank_at(c, rules, key, rank_in(own, k));
}

/// Every call of the current recording is paired with one of the baseline or reported as added.
pub proof fn law_every_call_is_accounted_for(
    b: Seq<Call>,
    c: Seq<Call>,
    rules: Seq<Seq<char>>,
    j: int,
)
    requires
        0 <= j < c.len(),
    ensures
        is_added(b, c, rules, j) || exists|i: int|
            0 <= i < b.len() && #[trigger] partner(b, c, rules, i) == Some(j),
{
    let key = key_of(c[j], rules);
    let own = class_of(c, rules, key);
    let others = class_of(b, rules, key);
    let p = rank_in(own, j);
    lemma_rank_of_call(c, rules, j);
    if p < others.len() {
        lemma_class(b, rules, key);
        let i = others[p].at;
        assert(is_mark_of(others[p], b, rules, key, b.len()));
        lemma_rank_at(b, rules, key, p);
        assert(partner(b, c, rules, i) == Some(j));
    }
}

/// Of calls with the same method, path and fingerprint, one is not missing while another is
/// added.
pub proof fn law_no_pair_is_left_apart(
    b: Seq<Call>,
    c: Seq<Call>,
    rules: Seq<Seq<char>>,
    i: int,
    j: int,
)
    requires
        0 <= i < b.len(),
        0 <= j < c.len(),
        key_of(b[i], rules) == key_of(c[j], rules),
        partner(b, c, rules, i) is None,
    ensures
        !is_added(b, c, rules, j),
{
    lemma_rank_of_call(b, rules, i);
    lemma_rank_of_call(c, rules, j);
}

/// A recording does not differ from itself: every call is paired with itself, nothing is added,
/// and no answer and no request differs.
pub proof fn law_recording_does_not_differ_from_itself(b: Seq<Call>, rules: Seq<Seq<char>>)
    ensures
        comparisons(b, b, rules).len() == b.len(),
        forall|i: int|
            0 <= i < b.len() ==> #[trigger] comparisons(b, b, rules)[i] == (Comparison {
                method: b[i].method,
                path: b[i].path,
                kind: MatchKind::Matched,
                baseline: Some(b[i]),
                current: Some(b[i]),
                status_diff: None,
                response_diffs: seq![],
                request_diff: None,
            }),
{
    lemma_nothing_is_added(b, rules, b.len());
    assert forall|i: int| 0 <= i < b.len() implies #[trigger] comparisons(b, b, rules)[i] == (
    Comparison {
        method: b[i].method,
        path: b[i].path,
        kind: MatchKind::Matched,
        baseline: Some(b[i]),
        current: Some(b[i]),
        status_diff: None,
        response_diffs: seq![],
        request_diff: None,
    }) by {
        lemma_rank_of_call(b, rules, i);
        assert(partner(b, b, rules, i) == Some(i));
        if let Some(t) = matrix::body_tree(b[i].response_body) {
            json::lemma_same_value_reflexive(t);
            diff::law_same_values_have_no_differences(t, t, "$"@, rules);
        }
        assert(calls::request_changes(b[i], b[i]) =~= Seq::<Seq<char>>::empty());
    }
}

/// The steps of a side are those of the calls that it made.
proof fn lemma_steps(cs: Seq<Comparison>, in_baseline: bool, s: Seq<char>)
    ensures
        steps_on(cs, in_baseline).contains(s) <==> exists|i: int|
            0 <= i < cs.len() && number_on(#[trigger] cs[i], in_baseline) is Some && label(cs[i])
                == s,
{
    let raw = made(cs, in_baseline, cs.len());
    let ordered = order::sorted_by(raw, mark_order());
    let steps = steps_on(cs, in_baseline);
    lemma_made(cs, in_baseline, cs.len());
    order::lemma_sorted_by(raw, mark_order());
    if steps.contains(s) {
        let p = choose|p: int| 0 <= p < steps.len() && steps[p] == s;
        assert(ordered.contains(ordered[p]));
        assert(raw.contains(ordered[p]));
        let q = choose|q: int| 0 <= q < raw.len() && raw[q] == ordered[p];
        assert(0 <= raw[q].at < cs.len());
        assert(number_on(cs[raw[q].at], in_baseline) is Some);
    }
    if exists|i: int|
        0 <= i < cs.len() && number_on(#[trigger] cs[i], in_baseline) is Some && label(cs[i])
            == s {
        let i = choose|i: int|
            0 <= i < cs.len() && number_on(#[trigger] cs[i], in_baseline) is Some && label(cs[i])
                == s;
        let q = choose|q: int| 0 <= q < raw.len() && (#[trigger] raw[q]).at == i;
        assert(raw.contains(raw[q]));
        assert(ordered.contains(raw[q]));
        let p = choose|p: int| 0 <= p < ordered.len() && ordered[p] == raw[q];
        assert(steps[p] == s);
    }
}

/// A step that only one side made is named: as missing, where the baseline made it, and as
/// added, where the current recording did.
pub proof fn law_lacking_step_is_named(cs: Seq<Comparison>, i: int, in_baseline: bool)
    requires
        0 <= i < cs.len(),
        number_on(cs[i], in_baseline) is Some,
        forall|j: int|
            0 <= j < cs.len() && label(#[trigger] cs[j]) == label(cs[i]) ==> number_on(
                cs[j],
                !in_baseline,
            ) is None,
    ensures
        flow_of(cs) matches Some((missing, added)) && if in_baseline {
            missing.contains(label(cs[i]))
        } else {
            added.contains(label(cs[i]))
        },
{
    let b = steps_on(cs, true);
    let c = steps_on(cs, false);
    let s = label(cs[i]);
    lemma_steps(cs, true, s);
    lemma_steps(cs, false, s);
    if in_baseline {
        assert(b.contains(s));
        sequence::law_lacking_step_is_missing(b, c, s);
    } else {
        assert(c.contains(s));
        sequence::law_new_step_is_added(b, c, s);
    }
}

/// A recording adds nothing to itself.
proof fn lemma_nothing_is_added(b: Seq<Call>, rules: Seq<Seq<char>>, n: nat)
    requires
        n <= b.len(),
    ensures
        additions(b, b, rules, n) == Seq::<Comparison>::empty(),
    decreases n,
{
    if n > 0 {
        lemma_nothing_is_added(b, rules, (n - 1) as nat);
        lemma_rank_of_call(b, rules, n - 1);
    }
}

/// Of two calls that are paired, everything that differs is told, and nothing else: the status
/// where it differs, what differs in the answers where both are JSON, and what differs in the
/// requests.
pub proof fn law_pairs_tell_their_differences(
    b: Call,
    c: Call,
    rules: Seq<Seq<char>>,
    x: json::Tree,
    y: json::Tree,
)
    ensures
        ({
            let m = matched(b, c, rules);
            &&& m.kind == MatchKind::Matched
            &&& m.baseline == Some(b) && m.current == Some(c)
            &&& m.method == b.method && m.path == b.path
            &&& b.status == c.status ==> m.status_diff is None
            &&& b.status != c.status ==> m.status_diff == Some((b.status, c.status))
            &&& matrix::body_tree(b.response_body) == Some(x) && matrix::body_tree(c.response_body)
                == Some(y) ==> m.response_diffs == diff::diffs(x, y, "$"@, rules)
            &&& matrix::body_tree(b.response_body) is None || matrix::body_tree(c.response_body)
                is None ==> m.response_diffs.len() == 0
            &&& m.request_diff is None <==> b.query == c.query && b.request_body == c.request_body
            &&& m.request_diff == calls::request_difference(b, c)
        }),
{
    calls::law_request_differences(b, c);
}

/// A call that only one recording has is told as that recording's, with nothing to differ from.
pub proof fn law_calls_alone(a: Call)
    ensures
        lost(a).kind == MatchKind::Missing,
        lost(a).baseline == Some(a),
        lost(a).current is None,
        gained(a).kind == MatchKind::Added,
        gained(a).baseline is None,
        gained(a).current == Some(a),
        lost(a).method == a.method && lost(a).path == a.path,
        gained(a).method == a.method && gained(a).path == a.path,
        lost(a).status_diff is None && lost(a).request_diff is None && lost(a).response_diffs.len()
            == 0,
        gained(a).status_diff is None && gained(a).request_diff is None
            && gained(a).response_diffs.len() == 0,
{
}

/// Calls can be paired where they have the same method, path, parameters and body; never where
/// method or path differ.
pub proof fn law_what_can_be_paired(a: Call, b: Call, rules: Seq<Seq<char>>)
    ensures
        a.method == b.method && a.path == b.path && a.query == b.query && a.request_body
            == b.request_body ==> key_of(a, rules) == key_of(b, rules),
        a.method != b.method || a.path != b.path ==> key_of(a, rules) != key_of(b, rules),
        a.method == b.method && a.path == b.path ==> (key_of(a, rules) == key_of(b, rules)
            <==> calls::fingerprint_of(a, rules) == calls::fingerprint_of(b, rules)),
{
}

/// The comparison of two recordings has each call of the baseline where it stands, with the call
/// that it is paired with or as missing.
pub proof fn law_baseline_is_gone_through(
    b: Seq<Call>,
    c: Seq<Call>,
    rules: Seq<Seq<char>>,
    i: int,
)
    requires
        0 <= i < b.len(),
    ensures
        comparisons(b, c, rules).len() >= b.len(),
        comparisons(b, c, rules)[i].baseline == Some(b[i]),
        partner(b, c, rules, i) is None ==> comparisons(b, c, rules)[i].kind == MatchKind::Missing,
        partner(b, c, rules, i) matches Some(j) ==> comparisons(b, c, rules)[i].kind
            == MatchKind::Matched && comparisons(b, c, rules)[i].current == Some(c[j]),
{
    assert(comparisons(b, c, rules)[i] == compared(b, c, rules, i));
}

/// The order of calls is a total order.
proof fn lemma_mark_order()
    ensures
        vstd::relations::total_ordering(mark_order()),
{
    let le = mark_order();
    assert forall|a: Mark, b: Mark| #[trigger] le(a, b) && #[trigger] le(b, a) implies a == b by {
    }
}

/// The calls with a key come in the order of their numbers, each once.
pub proof fn law_calls_come_in_the_order_of_numbers(
    list: Seq<Call>,
    rules: Seq<Seq<char>>,
    key: Key,
    i: int,
    j: int,
)
    requires
        0 <= i < j < class_of(list, rules, key).len(),
    ensures
        class_of(list, rules, key)[i].number <= class_of(list, rules, key)[j].number,
        class_of(list, rules, key).to_multiset() == marks(
            list,
            rules,
            key,
            list.len(),
        ).to_multiset(),
{
    let s = marks(list, rules, key, list.len());
    lemma_mark_order();
    order::law_sorted_by(s, s, mark_order());
    let c = class_of(list, rules, key);
    let le = mark_order();
    assert(le(c[i], c[j]));
}

/// The steps of one side are its calls, each named by method and path; where their numbers rise
/// they come as they stand.
pub proof fn law_steps_are_the_calls(cs: Seq<Comparison>, in_baseline: bool)
    requires
        forall|i: int| 0 <= i < cs.len() ==> number_on(#[trigger] cs[i], in_baseline) is Some,
        forall|i: int, j: int|
            0 <= i < j < cs.len() ==> number_on(#[trigger] cs[i], in_baseline)->0 <= number_on(
                #[trigger] cs[j],
                in_baseline,
            )->0,
    ensures
        steps_on(cs, in_baseline) == cs.map_values(|c: Comparison| c.method + " "@ + c.path),
{
    lemma_made_in_order(cs, in_baseline, cs.len());
    let m = made(cs, in_baseline, cs.len());
    lemma_sorted_stays(m);
    assert(steps_on(cs, in_baseline) =~= cs.map_values(
        |c: Comparison| c.method + " "@ + c.path,
    ));
}

/// Calls that all are there and rise are gathered as they stand.
proof fn lemma_made_in_order(cs: Seq<Comparison>, in_baseline: bool, n: nat)
    requires
        n <= cs.len(),
        forall|i: int| 0 <= i < cs.len() ==> number_on(#[trigger] cs[i], in_baseline) is Some,
    ensures
        made(cs, in_baseline, n).len() == n,
        forall|i: int|
            0 <= i < n ==> #[trigger] made(cs, in_baseline, n)[i] == (Mark {
                number: number_on(cs[i], in_baseline)->0,
                at: i,
            }),
    decreases n,
{
    if n > 0 {
        lemma_made_in_order(cs, in_baseline, (n - 1) as nat);
        assert(number_on(cs[n - 1], in_baseline) is Some);
    }
}

/// What stands in order stays as it is.
proof fn lemma_sorted_stays(s: Seq<Mark>)
    requires
        forall|i: int, j: int|
            0 <= i < j < s.len() ==> (mark_order())(#[trigger] s[i], #[trigger] s[j]),
    ensures
        order::sorted_by(s, mark_order()) == s,
    decreases s.len(),
{
    if s.len() > 0 {
        let front = s.drop_last();
        assert forall|i: int, j: int| 0 <= i < j < front.len() implies (mark_order())(
            #[trigger] front[i],
            #[trigger] front[j],
        ) by {
            assert((mark_order())(s[i], s[j]));
        }
        lemma_sorted_stays(front);
        if front.len() > 0 {
            assert((mark_order())(s[s.len() - 2], s[s.len() - 1]));
            assert(front.last() == s[s.len() - 2]);
        }
        assert(s =~= front.push(s.last()));
    } else {
        assert(order::sorted_by(s, mark_order()) =~= s);
    }
}

/// The outcomes of a feature are those of its assertions on the answers of the calls of either
/// side that are paired and that the feature makes; on no other call.
pub proof fn law_outcomes_of_a_feature(
    cs: Seq<Comparison>,
    entry: MatrixEntry,
    in_baseline: bool,
    n: nat,
    call: Call,
)
    requires
        n < cs.len(),
    ensures
        ({
            let c = cs[n as int];
            let before = side_outcomes(cs, entry, in_baseline, n);
            let after = side_outcomes(cs, entry, in_baseline, n + 1);
            let side = if in_baseline {
                c.baseline
            } else {
                c.current
            };
            let own = c.kind == MatchKind::Matched && matrix::entry_calls(entry, c.method, c.path);
            &&& side_outcomes(cs, entry, in_baseline, 0).len() == 0
            &&& !own ==> after == before
            &&& own && side == Some(call) ==> after == before + matrix::claims(
                entry.expected@,
            ).map_values(
                |claim: matrix::Claim|
                    matrix::outcome(matrix::body_tree(call.response_body), claim),
            )
        }),
{
    let c = cs[n as int];
    let before = side_outcomes(cs, entry, in_baseline, n);
    assert(before + Seq::<matrix::Outcome>::empty() =~= before);
}

/// A feature is told of exactly where it has assertions and some of its calls are paired.
pub proof fn law_features_are_told(cs: Seq<Comparison>, entries: Seq<MatrixEntry>, n: nat)
    requires
        n < entries.len(),
    ensures
        ({
            let e = entries[n as int];
            let told = e.expected@.len() > 0 && exists|i: int|
                0 <= i < cs.len() && (#[trigger] cs[i]).kind == MatchKind::Matched
                    && matrix::entry_calls(e, cs[i].method, cs[i].path);
            &&& findings(cs, entries, 0).len() == 0
            &&& !told ==> findings(cs, entries, n + 1) == findings(cs, entries, n)
            &&& told ==> findings(cs, entries, n + 1) == findings(cs, entries, n).push(
                Findings {
                    id: e.id@,
                    name: e.name@,
                    baseline: side_outcomes(cs, e, true, cs.len()),
                    current: side_outcomes(cs, e, false, cs.len()),
                },
            )
        }),
{
    let e = entries[n as int];
    if exists|i: int|
        0 <= i < cs.len() && (#[trigger] cs[i]).kind == MatchKind::Matched && matrix::entry_calls(
            e,
            cs[i].method,
            cs[i].path,
        ) {
        let i = choose|i: int|
            0 <= i < cs.len() && (#[trigger] cs[i]).kind == MatchKind::Matched
                && matrix::entry_calls(e, cs[i].method, cs[i].path);
        assert(is_pair_of(cs[i], e));
    }
    if has_pair(cs, e) {
        let i = choose|i: int| 0 <= i < cs.len() && is_pair_of(#[trigger] cs[i], e);
        assert(cs[i].kind == MatchKind::Matched);
    }
}

/// The flow of two recordings tells the steps that one has and the other lacks; of recordings
/// without calls there is none.
pub proof fn law_flow(cs: Seq<Comparison>)
    ensures
        steps_on(cs, true).len() == 0 && steps_on(cs, false).len() == 0 ==> flow_of(cs) is None,
        steps_on(cs, true).len() > 0 || steps_on(cs, false).len() > 0 ==> flow_of(cs) == Some(
            (
                sequence::missing(steps_on(cs, true), steps_on(cs, false)),
                sequence::added(steps_on(cs, true), steps_on(cs, false)),
            ),
        ),
{
}

/// The calls that only the current recording has come behind those of the baseline, in their order,
/// and each of them is one with fewer like it in the baseline than stand before it.
pub proof fn law_additions_come_last(
    b: Seq<Call>,
    c: Seq<Call>,
    rules: Seq<Seq<char>>,
    n: nat,
)
    requires
        n < c.len(),
    ensures
        comparisons(b, c, rules).skip(b.len() as int) == additions(b, c, rules, c.len()),
        additions(b, c, rules, 0).len() == 0,
        is_added(b, c, rules, n as int) ==> additions(b, c, rules, n + 1) == additions(
            b,
            c,
            rules,
            n,
        ).push(gained(c[n as int])),
        !is_added(b, c, rules, n as int) ==> additions(b, c, rules, n + 1) == additions(
            b,
            c,
            rules,
            n,
        ),
{
    let front = Seq::new(b.len(), |i: int| compared(b, c, rules, i));
    let back = additions(b, c, rules, c.len());
    assert((front + back).skip(b.len() as int) =~= back);
}

} // verus!
