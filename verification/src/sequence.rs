//! Differences between two sequences of steps.
//!
//! The steps that the two have in common, in the same order, are a longest common subsequence;
//! the others are missing from the one or added by the other.
use crate::text;
use vstd::prelude::*;

verus! {

/// Steps.
pub type Steps = Seq<Seq<char>>;

/// The larger of two numbers.
pub open spec fn larger(a: nat, b: nat) -> nat {
    if a >= b {
        a
    } else {
        b
    }
}

/// How many steps two sequences have in common, in the same order.
pub open spec fn common(a: Steps, b: Steps) -> nat
    decreases a.len() + b.len(),
{
    if a.len() == 0 || b.len() == 0 {
        0
    } else if a[0] == b[0] {
        1 + common(a.drop_first(), b.drop_first())
    } else {
        larger(common(a.drop_first(), b), common(a, b.drop_first()))
    }
}

/// The steps that two sequences have in common, in the same order.
pub open spec fn kept(a: Steps, b: Steps) -> Steps
    decreases a.len() + b.len(),
{
    if a.len() == 0 || b.len() == 0 {
        seq![]
    } else if a[0] == b[0] {
        seq![a[0]] + kept(a.drop_first(), b.drop_first())
    } else if common(a.drop_first(), b) >= common(a, b.drop_first()) {
        kept(a.drop_first(), b)
    } else {
        kept(a, b.drop_first())
    }
}

/// The steps of `a` that `b` does not have.
pub open spec fn missing(a: Steps, b: Steps) -> Steps
    decreases a.len() + b.len(),
{
    if a.len() == 0 || b.len() == 0 {
        a
    } else if a[0] == b[0] {
        missing(a.drop_first(), b.drop_first())
    } else if common(a.drop_first(), b) >= common(a, b.drop_first()) {
        seq![a[0]] + missing(a.drop_first(), b)
    } else {
        missing(a, b.drop_first())
    }
}

/// The steps of `b` that `a` does not have.
pub open spec fn added(a: Steps, b: Steps) -> Steps
    decreases a.len() + b.len(),
{
    if a.len() == 0 || b.len() == 0 {
        b
    } else if a[0] == b[0] {
        added(a.drop_first(), b.drop_first())
    } else if common(a.drop_first(), b) >= common(a, b.drop_first()) {
        added(a.drop_first(), b)
    } else {
        seq![b[0]] + added(a, b.drop_first())
    }
}

/// No more steps are common than either sequence has.
proof fn lemma_common_bound(a: Steps, b: Steps)
    ensures
        common(a, b) <= a.len(),
        common(a, b) <= b.len(),
    decreases a.len() + b.len(),
{
    if a.len() > 0 && b.len() > 0 {
        if a[0] == b[0] {
            lemma_common_bound(a.drop_first(), b.drop_first());
        } else {
            lemma_common_bound(a.drop_first(), b);
            lemma_common_bound(a, b.drop_first());
        }
    }
}

/// Whether a row holds how many steps the ends of `b` have in common with `a`: at `k`, that of
/// the last `k + 1` steps.
spec fn is_row(row: Seq<usize>, a: Steps, b: Steps) -> bool {
    forall|k: int|
        0 <= k < row.len() ==> #[trigger] row[k] == common(a, b.skip(b.len() - (k + 1)))
}

/// The entry of a row for the last `q` steps.
fn entry(row: &[usize], q: usize, Ghost(a): Ghost<Steps>, Ghost(b): Ghost<Steps>) -> (r: usize)
    requires
        q <= row@.len() == b.len(),
        is_row(row@, a, b),
    ensures
        r == common(a, b.skip(b.len() - q)),
{
    if q == 0 {
        0
    } else {
        row[q - 1]
    }
}

/// Makes a row from the one for the sequence without its first step.
fn next_row(below: &[usize], first: &str, current: &[String], Ghost(a): Ghost<Steps>) -> (r: Vec<
    usize,
>)
    requires
        a.len() > 0,
        a[0] == first@,
        below@.len() == current@.len(),
        is_row(below@, a.drop_first(), text::texts(current@)),
    ensures
        r@.len() == below@.len(),
        is_row(r@, a, text::texts(current@)),
{
    let ghost b = text::texts(current@);
    let m: usize = current.len();
    let mut out: Vec<usize> = Vec::new();
    // The entry for the last `k` steps.
    let mut left: usize = 0;
    let mut k: usize = 0;
    assert(b.skip(b.len() - 0).len() == 0);
    while k < m
        invariant
            k <= m,
            m == current@.len() == b.len(),
            m == below@.len(),
            b == text::texts(current@),
            a.len() > 0,
            a[0] == first@,
            is_row(below@, a.drop_first(), b),
            out@.len() == k,
            left == common(a, b.skip(m - k)),
            is_row(out@, a, b),
        decreases m - k,
    {
        let ghost tail = b.skip(m - (k + 1));
        proof {
            assert(tail[0] == current@[m - (k + 1)]@);
            assert(tail.drop_first() =~= b.skip(m - k));
            assert(below@[k as int] == common(a.drop_first(), b.skip(b.len() - (k + 1))));
            lemma_common_bound(a.drop_first(), tail.drop_first());
        }
        let x: usize = if text::same(first, &current[m - 1 - k]) {
            entry(below, k, Ghost(a.drop_first()), Ghost(b)) + 1
        } else if below[k] >= left {
            below[k]
        } else {
            left
        };
        proof {
            assert(x == common(a, tail));
            assert forall|i: int| 0 <= i < out@.push(x).len() implies #[trigger] out@.push(x)[i]
                == common(a, b.skip(b.len() - (i + 1))) by {
                if i < k {
                    assert(out@[i] == common(a, b.skip(b.len() - (i + 1))));
                }
            }
        }
        out.push(x);
        left = x;
        k += 1;
    }
    out
}

/// How the steps of two sequences differ.
#[derive(Debug)]
pub struct SequenceDiff {
    /// The steps that only the baseline has.
    pub missing: Vec<String>,
    /// The steps that only the current recording has.
    pub added: Vec<String>,
}

impl SequenceDiff {
    /// Whether there is no difference.
    pub fn is_identical(&self) -> (r: bool)
        ensures
            r == (self.missing@.len() == 0 && self.added@.len() == 0),
    {
        self.missing.len() == 0 && self.added.len() == 0
    }
}

/// Whether a table holds the rows for the ends of `a`: at `p`, that of the last `p + 1` steps.
spec fn is_table(rows: Seq<Vec<usize>>, a: Steps, b: Steps) -> bool {
    forall|p: int|
        0 <= p < rows.len() ==> (#[trigger] rows[p])@.len() == b.len() && is_row(
            rows[p]@,
            a.skip(a.len() - (p + 1)),
            b,
        )
}

/// The entry of a table for the last `p` steps of `a` and the last `q` steps of `b`.
fn table_entry(
    rows: &[Vec<usize>],
    p: usize,
    q: usize,
    Ghost(a): Ghost<Steps>,
    Ghost(b): Ghost<Steps>,
) -> (r: usize)
    requires
        p <= rows@.len() == a.len(),
        q <= b.len(),
        is_table(rows@, a, b),
    ensures
        r == common(a.skip(a.len() - p), b.skip(b.len() - q)),
{
    if p == 0 {
        0
    } else {
        assert(rows@[p - 1]@.len() == b.len());
        entry(&rows[p - 1], q, Ghost(a.skip(a.len() - p)), Ghost(b))
    }
}

/// Makes the table of two sequences.
fn make_table(baseline: &[String], current: &[String]) -> (r: Vec<Vec<usize>>)
    ensures
        r@.len() == baseline@.len(),
        is_table(r@, text::texts(baseline@), text::texts(current@)),
{
    let ghost a = text::texts(baseline@);
    let ghost b = text::texts(current@);
    let n: usize = baseline.len();
    let m: usize = current.len();
    let mut zeros: Vec<usize> = Vec::new();
    while zeros.len() < m
        invariant
            m == b.len(),
            zeros@.len() <= m,
            forall|q: int| 0 <= q < zeros@.len() ==> #[trigger] zeros@[q] == 0,
        decreases m - zeros@.len(),
    {
        zeros.push(0);
    }
    let mut rows: Vec<Vec<usize>> = Vec::new();
    let mut p: usize = 0;
    assert(a.skip(a.len() as int).len() == 0);
    while p < n
        invariant
            p <= n == baseline@.len() == a.len(),
            m == current@.len() == b.len(),
            a == text::texts(baseline@),
            b == text::texts(current@),
            zeros@.len() == m,
            is_row(zeros@, a.skip(a.len() as int), b),
            rows@.len() == p,
            is_table(rows@, a, b),
        decreases n - p,
    {
        let ghost end = a.skip(n - (p + 1));
        proof {
            assert(end[0] == baseline@[n - (p + 1)]@);
            assert(end.drop_first() =~= a.skip(n - p));
            if p > 0 {
                assert(rows@[p - 1]@.len() == b.len());
            }
        }
        let row = if p == 0 {
            next_row(&zeros, &baseline[n - 1 - p], current, Ghost(end))
        } else {
            next_row(&rows[p - 1], &baseline[n - 1 - p], current, Ghost(end))
        };
        proof {
            assert forall|k: int| 0 <= k < rows@.push(row).len() implies (
            #[trigger] rows@.push(row)[k])@.len() == b.len() && is_row(
                rows@.push(row)[k]@,
                a.skip(a.len() - (k + 1)),
                b,
            ) by {
                if k < p {
                    assert(rows@[k]@.len() == b.len());
                }
            }
        }
        rows.push(row);
        p += 1;
    }
    rows
}

/// Adds the end of a list of strings to another.
fn append_rest(out: &mut Vec<String>, list: &[String], from: usize)
    requires
        from <= list@.len(),
    ensures
        text::texts(final(out)@) == text::texts(old(out)@) + text::texts(list@).skip(from as int),
{
    let ghost start = text::texts(out@);
    let ghost all = text::texts(list@);
    let mut i: usize = from;
    assert(start =~= start + all.subrange(from as int, from as int));
    while i < list.len()
        invariant
            from <= i <= list@.len(),
            all == text::texts(list@),
            text::texts(out@) == start + all.subrange(from as int, i as int),
        decreases list@.len() - i,
    {
        let x = list[i].clone();
        proof {
            text::lemma_texts_push(out@, x);
            assert((start + all.subrange(from as int, i as int)).push(x@) =~= start + all.subrange(
                from as int,
                i + 1,
            ));
        }
        out.push(x);
        i += 1;
    }
    assert(all.subrange(from as int, all.len() as int) =~= all.skip(from as int));
}

/// Compares two sequences of steps.
pub fn compare_sequences(baseline: &[String], current: &[String]) -> (r: SequenceDiff)
    ensures
        text::texts(r.missing@) == missing(text::texts(baseline@), text::texts(current@)),
        text::texts(r.added@) == added(text::texts(baseline@), text::texts(current@)),
{
    let ghost a = text::texts(baseline@);
    let ghost b = text::texts(current@);
    let table = make_table(baseline, current);
    let n: usize = baseline.len();
    let m: usize = current.len();
    let mut lost: Vec<String> = Vec::new();
    let mut more: Vec<String> = Vec::new();
    let mut i: usize = 0;
    let mut j: usize = 0;
    proof {
        assert(a.skip(0) =~= a);
        assert(b.skip(0) =~= b);
        assert(text::texts(lost@) + missing(a, b) =~= missing(a, b));
        assert(text::texts(more@) + added(a, b) =~= added(a, b));
    }
    while i < n && j < m
        invariant
            i <= n == baseline@.len() == a.len(),
            j <= m == current@.len() == b.len(),
            a == text::texts(baseline@),
            b == text::texts(current@),
            table@.len() == n,
            is_table(table@, a, b),
            missing(a, b) == text::texts(lost@) + missing(a.skip(i as int), b.skip(j as int)),
            added(a, b) == text::texts(more@) + added(a.skip(i as int), b.skip(j as int)),
        decreases n - i + m - j,
    {
        let ghost x = a.skip(i as int);
        let ghost y = b.skip(j as int);
        proof {
            assert(x[0] == baseline@[i as int]@);
            assert(y[0] == current@[j as int]@);
            assert(x.drop_first() =~= a.skip(i + 1));
            assert(y.drop_first() =~= b.skip(j + 1));
        }
        if text::same(&baseline[i], &current[j]) {
            i += 1;
            j += 1;
        } else if table_entry(&table, n - i - 1, m - j, Ghost(a), Ghost(b)) >= table_entry(
            &table,
            n - i,
            m - j - 1,
            Ghost(a),
            Ghost(b),
        ) {
            let s = baseline[i].clone();
            proof {
                text::lemma_texts_push(lost@, s);
                assert(text::texts(lost@) + (seq![s@] + missing(x.drop_first(), y))
                    =~= text::texts(lost@).push(s@) + missing(x.drop_first(), y));
            }
            lost.push(s);
            i += 1;
        } else {
            let s = current[j].clone();
            proof {
                text::lemma_texts_push(more@, s);
                assert(text::texts(more@) + (seq![s@] + added(x, y.drop_first()))
                    =~= text::texts(more@).push(s@) + added(x, y.drop_first()));
            }
            more.push(s);
            j += 1;
        }
    }
    append_rest(&mut lost, baseline, i);
    append_rest(&mut more, current, j);
    SequenceDiff { missing: lost, added: more }
}

// ---------------------------------------------------------------------------
// Laws
// ---------------------------------------------------------------------------

/// Whether all steps of `s` are steps of `a`, in the same order.
pub open spec fn is_within(s: Steps, a: Steps) -> bool
    decreases a.len(),
{
    if s.len() == 0 {
        true
    } else if a.len() == 0 {
        false
    } else {
        (s[0] == a[0] && is_within(s.drop_first(), a.drop_first())) || is_within(s, a.drop_first())
    }
}

/// Without its first step, a sequence stays within another.
proof fn lemma_rest_is_within(s: Steps, a: Steps)
    requires
        s.len() > 0,
        is_within(s, a),
    ensures
        is_within(s.drop_first(), a),
    decreases a.len(),
{
    if !(s[0] == a[0] && is_within(s.drop_first(), a.drop_first())) {
        lemma_rest_is_within(s, a.drop_first());
    }
}

/// The common steps are within both sequences.
pub proof fn law_kept_steps_are_common(a: Steps, b: Steps)
    ensures
        is_within(kept(a, b), a),
        is_within(kept(a, b), b),
        kept(a, b).len() == common(a, b),
    decreases a.len() + b.len(),
{
    if a.len() > 0 && b.len() > 0 {
        let k = kept(a, b);
        if a[0] == b[0] {
            law_kept_steps_are_common(a.drop_first(), b.drop_first());
            assert(k.drop_first() =~= kept(a.drop_first(), b.drop_first()));
        } else if common(a.drop_first(), b) >= common(a, b.drop_first()) {
            law_kept_steps_are_common(a.drop_first(), b);
        } else {
            law_kept_steps_are_common(a, b.drop_first());
        }
    }
}

/// No steps that two sequences have in common, in the same order, are more than those that are
/// counted.
pub proof fn law_no_more_steps_are_common(s: Steps, a: Steps, b: Steps)
    requires
        is_within(s, a),
        is_within(s, b),
    ensures
        s.len() <= common(a, b),
    decreases a.len() + b.len(),
{
    if s.len() > 0 && a.len() > 0 && b.len() > 0 {
        if a[0] == b[0] {
            if !(s[0] == a[0] && is_within(s.drop_first(), a.drop_first())) {
                lemma_rest_is_within(s, a.drop_first());
            }
            if !(s[0] == b[0] && is_within(s.drop_first(), b.drop_first())) {
                lemma_rest_is_within(s, b.drop_first());
            }
            law_no_more_steps_are_common(s.drop_first(), a.drop_first(), b.drop_first());
        } else if s[0] != a[0] {
            law_no_more_steps_are_common(s, a.drop_first(), b);
        } else {
            law_no_more_steps_are_common(s, a, b.drop_first());
        }
    }
}

/// Every step is common or reported, and none is both.
pub proof fn law_every_step_is_accounted_for(a: Steps, b: Steps)
    ensures
        missing(a, b).len() + common(a, b) == a.len(),
        added(a, b).len() + common(a, b) == b.len(),
    decreases a.len() + b.len(),
{
    if a.len() > 0 && b.len() > 0 {
        if a[0] == b[0] {
            law_every_step_is_accounted_for(a.drop_first(), b.drop_first());
        } else if common(a.drop_first(), b) >= common(a, b.drop_first()) {
            law_every_step_is_accounted_for(a.drop_first(), b);
        } else {
            law_every_step_is_accounted_for(a, b.drop_first());
        }
    }
}

/// A step that only the baseline has is reported as missing.
pub proof fn law_lacking_step_is_missing(a: Steps, b: Steps, s: Seq<char>)
    requires
        a.contains(s),
        !b.contains(s),
    ensures
        missing(a, b).contains(s),
    decreases a.len() + b.len(),
{
    let k = choose|k: int| 0 <= k < a.len() && a[k] == s;
    let m = missing(a, b);
    if b.len() == 0 {
        assert(m[k] == s);
    } else if a[0] == b[0] {
        assert(b.contains(b[0]));
        assert(a.drop_first()[k - 1] == s);
        lemma_lacks_rest(b, s);
        law_lacking_step_is_missing(a.drop_first(), b.drop_first(), s);
    } else if common(a.drop_first(), b) >= common(a, b.drop_first()) {
        if k == 0 {
            assert(m[0] == s);
        } else {
            assert(a.drop_first()[k - 1] == s);
            law_lacking_step_is_missing(a.drop_first(), b, s);
            let rest = missing(a.drop_first(), b);
            let p = choose|p: int| 0 <= p < rest.len() && rest[p] == s;
            assert(m[p + 1] == s);
        }
    } else {
        lemma_lacks_rest(b, s);
        law_lacking_step_is_missing(a, b.drop_first(), s);
    }
}

/// A sequence without a step has none of it behind its first.
proof fn lemma_lacks_rest(a: Steps, s: Seq<char>)
    requires
        a.len() > 0,
        !a.contains(s),
    ensures
        !a.drop_first().contains(s),
{
    if a.drop_first().contains(s) {
        let p = choose|p: int| 0 <= p < a.drop_first().len() && a.drop_first()[p] == s;
        assert(a[p + 1] == s);
    }
}

/// A step that only the current sequence has is reported as added.
pub proof fn law_new_step_is_added(a: Steps, b: Steps, s: Seq<char>)
    requires
        b.contains(s),
        !a.contains(s),
    ensures
        added(a, b).contains(s),
    decreases a.len() + b.len(),
{
    let k = choose|k: int| 0 <= k < b.len() && b[k] == s;
    let m = added(a, b);
    if a.len() == 0 {
        assert(m[k] == s);
    } else if a[0] == b[0] {
        assert(a.contains(a[0]));
        assert(b.drop_first()[k - 1] == s);
        lemma_lacks_rest(a, s);
        law_new_step_is_added(a.drop_first(), b.drop_first(), s);
    } else if common(a.drop_first(), b) >= common(a, b.drop_first()) {
        lemma_lacks_rest(a, s);
        law_new_step_is_added(a.drop_first(), b, s);
    } else {
        if k == 0 {
            assert(m[0] == s);
        } else {
            assert(b.drop_first()[k - 1] == s);
            law_new_step_is_added(a, b.drop_first(), s);
            let rest = added(a, b.drop_first());
            let p = choose|p: int| 0 <= p < rest.len() && rest[p] == s;
            assert(m[p + 1] == s);
        }
    }
}

/// Nothing is reported exactly where the two sequences are the same.
pub proof fn law_nothing_is_reported_of_equal_sequences(a: Steps, b: Steps)
    ensures
        missing(a, b).len() == 0 && added(a, b).len() == 0 <==> a == b,
    decreases a.len() + b.len(),
{
    if a.len() > 0 && b.len() > 0 {
        if a[0] == b[0] {
            law_nothing_is_reported_of_equal_sequences(a.drop_first(), b.drop_first());
            assert(a =~= seq![a[0]] + a.drop_first());
            assert(b =~= seq![b[0]] + b.drop_first());
        }
    } else {
        assert(a.len() == 0 && b.len() == 0 ==> a =~= b);
    }
}

} // verus!
