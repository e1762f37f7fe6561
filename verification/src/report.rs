//! The report on the comparison of two recordings, in Markdown.
use crate::compare;
use crate::compare::CallComparison;
use crate::compare::Comparison;
use crate::compare::FeatureAssertions;
use crate::compare::MatchKind;
use crate::diff;
use crate::diff::DiffKind;
use crate::diff::FieldDiff;
use crate::matrix;
use crate::matrix::AssertionResult;
use crate::matrix::FeatureMatrix;
use crate::matrix::MatrixEntry;
use crate::number;
use crate::sequence::SequenceDiff;
use crate::text;
use vstd::prelude::*;

verus! {

/// The texts that are made of the values of a sequence, one after the other.
pub open spec fn each<T>(s: Seq<T>, f: spec_fn(T) -> Seq<char>) -> Seq<char>
    decreases s.len(),
{
    if s.len() == 0 {
        seq![]
    } else {
        each(s.drop_last(), f) + f(s.last())
    }
}

/// One more value has one more text.
proof fn lemma_each_step<T>(s: Seq<T>, f: spec_fn(T) -> Seq<char>, i: int)
    requires
        0 <= i < s.len(),
    ensures
        each(s.take(i + 1), f) == each(s.take(i), f) + f(s[i]),
{
    assert(s.take(i + 1).drop_last() =~= s.take(i));
}

/// A number in digits.
pub open spec fn digits(n: nat) -> Seq<char> {
    number::decimal(n)
}

/// Writes a number.
fn push_number(out: &mut Vec<char>, n: usize)
    ensures
        final(out)@ == old(out)@ + digits(n as nat),
{
    text::push_all(out, &number::to_decimal(n as u64));
}

// ---------------------------------------------------------------------------
// Counting
// ---------------------------------------------------------------------------

/// Whether the answers of paired calls differ.
pub open spec fn is_changed(c: Comparison) -> bool {
    c.kind == MatchKind::Matched && (c.status_diff is Some || c.response_diffs.len() > 0)
}

/// Whether a comparison reports anything but that the answers agree.
pub open spec fn is_issue(c: Comparison) -> bool {
    c.kind == MatchKind::Missing || c.kind == MatchKind::Added || c.status_diff is Some
        || c.response_diffs.len() > 0
}

/// How many comparisons are of each sort.
#[verifier::ext_equal]
pub struct Tally {
    /// Paired calls whose answers agree.
    pub identical: nat,
    /// Paired calls whose answers differ.
    pub changed: nat,
    /// Calls that only the baseline has.
    pub missing: nat,
    /// Calls that only the current recording has.
    pub added: nat,
}

/// The counts with one more comparison.
pub open spec fn tallied(t: Tally, c: Comparison) -> Tally {
    match c.kind {
        MatchKind::Missing => Tally { missing: t.missing + 1, ..t },
        MatchKind::Added => Tally { added: t.added + 1, ..t },
        MatchKind::Matched => if is_changed(c) {
            Tally { changed: t.changed + 1, ..t }
        } else {
            Tally { identical: t.identical + 1, ..t }
        },
    }
}

/// How many comparisons are of each sort.
pub open spec fn tally(cs: Seq<Comparison>) -> Tally
    decreases cs.len(),
{
    if cs.len() == 0 {
        Tally { identical: 0, changed: 0, missing: 0, added: 0 }
    } else {
        tallied(tally(cs.drop_last()), cs.last())
    }
}

/// How many comparisons are of each sort.
#[derive(Debug)]
pub struct Counts {
    pub identical: usize,
    pub changed: usize,
    pub missing: usize,
    pub added: usize,
}

impl View for Counts {
    type V = Tally;

    open spec fn view(&self) -> Tally {
        Tally {
            identical: self.identical as nat,
            changed: self.changed as nat,
            missing: self.missing as nat,
            added: self.added as nat,
        }
    }
}

/// Counts comparisons.
pub fn count(list: &[CallComparison]) -> (r: Counts)
    ensures
        r@ == tally(compare::comparison_views(list@)),
{
    let ghost cs = compare::comparison_views(list@);
    let mut r = Counts { identical: 0, changed: 0, missing: 0, added: 0 };
    let n: usize = list.len();
    let mut i: usize = 0;
    assert(r@ =~= tally(cs.take(0)));
    while i < n
        invariant
            i <= n == list@.len(),
            cs == compare::comparison_views(list@),
            r@ == tally(cs.take(i as int)),
            r.identical + r.changed + r.missing + r.added == i,
        decreases n - i,
    {
        let c = &list[i];
        proof {
            assert(cs.take(i + 1).drop_last() =~= cs.take(i as int));
            assert(cs.take(i + 1).last() == c@);
            assert(c@.response_diffs.len() == c.response_diffs@.len());
        }
        match c.kind {
            MatchKind::Missing => {
                r.missing = r.missing + 1;
            },
            MatchKind::Added => {
                r.added = r.added + 1;
            },
            MatchKind::Matched => {
                if c.status_diff.is_some() || c.response_diffs.len() > 0 {
                    r.changed = r.changed + 1;
                } else {
                    r.identical = r.identical + 1;
                }
            },
        }
        i += 1;
        assert(r@ =~= tally(cs.take(i as int)));
    }
    assert(cs.take(n as int) =~= cs);
    r
}

/// The counts in one line.
pub open spec fn summary_line(t: Tally) -> Seq<char> {
    "对比完成：一致 "@ + digits(t.identical) + "，变更 "@ + digits(t.changed) + "，缺失 "@ + digits(
        t.missing,
    ) + "，新增 "@ + digits(t.added)
}

/// Writes the counts in one line.
pub fn write_summary_line(c: &Counts) -> (r: String)
    ensures
        r@ == summary_line(c@),
{
    let mut out = text::chars_of("对比完成：一致 ");
    push_number(&mut out, c.identical);
    text::push_str(&mut out, "，变更 ");
    push_number(&mut out, c.changed);
    text::push_str(&mut out, "，缺失 ");
    push_number(&mut out, c.missing);
    text::push_str(&mut out, "，新增 ");
    push_number(&mut out, c.added);
    text::string_of(&out)
}

// ---------------------------------------------------------------------------
// Calls
// ---------------------------------------------------------------------------

/// How a value that may be there is written.
pub open spec fn option_text(o: Option<Seq<char>>) -> Seq<char> {
    match o {
        Some(s) => "Some("@ + text::debug_text(s) + ")"@,
        None => "None"@,
    }
}

/// The line on a field that differs.
pub open spec fn diff_line(d: diff::Diff) -> Seq<char> {
    "  - 响应 "@ + (if d.kind == DiffKind::Structure {
        "结构"@
    } else {
        "值"@
    }) + " `"@ + d.path + "`："@ + option_text(d.baseline) + " → "@ + option_text(d.current)
        + "\n"@
}

/// The line on statuses that differ.
pub open spec fn status_line(d: Option<(u16, u16)>) -> Seq<char> {
    match d {
        Some((x, y)) => "  - 状态码："@ + digits(x as nat) + " → "@ + digits(y as nat) + "\n"@,
        None => seq![],
    }
}

/// The lines on the fields that differ.
pub open spec fn diff_lines(list: Seq<diff::Diff>) -> Seq<char> {
    each(list, |d: diff::Diff| diff_line(d))
}

/// The line on requests that differ.
pub open spec fn request_line(d: Option<Seq<char>>) -> Seq<char> {
    match d {
        Some(s) => "  - 请求差异："@ + s + "\n"@,
        None => seq![],
    }
}

/// The lines on how paired calls differ.
pub open spec fn detail_lines(c: Comparison) -> Seq<char> {
    status_line(c.status_diff) + diff_lines(c.response_diffs) + request_line(c.request_diff)
}

/// A call in quotation marks, and the end of the line.
pub open spec fn call_name(c: Comparison) -> Seq<char> {
    "`"@ + c.method + " "@ + c.path + "`\n"@
}

/// The lines on a call of a feature.
pub open spec fn call_lines(c: Comparison) -> Seq<char> {
    "- "@ + call_name(c) + (if c.kind == MatchKind::Missing {
        "  - **缺失**：新版未调用该接口\n"@
    } else if c.kind == MatchKind::Added {
        "  - **新增**：新版多出该调用\n"@
    } else {
        seq![]
    }) + detail_lines(c)
}

/// The lines on a call in a report without features: none where the answers agree.
pub open spec fn plain_lines(c: Comparison) -> Seq<char> {
    if c.kind == MatchKind::Missing {
        "- ❌ 缺失 "@ + call_name(c)
    } else if c.kind == MatchKind::Added {
        "- ➕ 新增 "@ + call_name(c)
    } else if is_changed(c) {
        "- 🔄 变更 "@ + call_name(c) + detail_lines(c)
    } else {
        seq![]
    }
}

/// Writes a value that may be there.
fn push_option(out: &mut Vec<char>, o: &Option<String>)
    ensures
        final(out)@ == old(out)@ + option_text(text::opt_text(*o)),
{
    let ghost start = out@;
    match o {
        Some(s) => {
            text::push_str(out, "Some(");
            text::push_str(out, &text::quoted(s));
            text::push_str(out, ")");
        },
        None => {
            text::push_str(out, "None");
        },
    }
    assert(out@ =~= start + option_text(text::opt_text(*o)));
}

/// Writes the line on a field that differs.
fn write_diff(d: &FieldDiff) -> (out: Vec<char>)
    ensures
        out@ == diff_line(d@),
{
    let mut out = text::chars_of("  - 响应 ");
    if d.kind == DiffKind::Structure {
        text::push_str(&mut out, "结构");
    } else {
        text::push_str(&mut out, "值");
    }
    text::push_str(&mut out, " `");
    text::push_str(&mut out, &d.path);
    text::push_str(&mut out, "`：");
    push_option(&mut out, &d.baseline);
    text::push_str(&mut out, " → ");
    push_option(&mut out, &d.current);
    text::push_str(&mut out, "\n");
    out
}

/// Writes the line on statuses that differ.
fn write_status(d: &Option<(u16, u16)>) -> (out: Vec<char>)
    ensures
        out@ == status_line(*d),
{
    match d {
        Some((x, y)) => {
            let mut out = text::chars_of("  - 状态码：");
            push_number(&mut out, *x as usize);
            text::push_str(&mut out, " → ");
            push_number(&mut out, *y as usize);
            text::push_str(&mut out, "\n");
            out
        },
        None => Vec::new(),
    }
}

/// Writes the lines on the fields that differ.
fn write_diffs(list: &[FieldDiff]) -> (out: Vec<char>)
    ensures
        out@ == diff_lines(diff::diff_views(list@)),
{
    let ghost all = diff::diff_views(list@);
    let ghost f = |d: diff::Diff| diff_line(d);
    let n: usize = list.len();
    let mut out: Vec<char> = Vec::new();
    let mut i: usize = 0;
    assert(out@ =~= each(all.take(0), f));
    while i < n
        invariant
            i <= n == list@.len(),
            all == diff::diff_views(list@),
            out@ == each(all.take(i as int), f),
            f == (|d: diff::Diff| diff_line(d)),
        decreases n - i,
    {
        assert(all[i as int] == list@[i as int]@);
        text::push_all(&mut out, &write_diff(&list[i]));
        proof {
            lemma_each_step(all, f, i as int);
        }
        i += 1;
    }
    assert(all.take(n as int) =~= all);
    out
}

/// Writes the line on requests that differ.
fn write_request(d: &Option<String>) -> (out: Vec<char>)
    ensures
        out@ == request_line(text::opt_text(*d)),
{
    match d {
        Some(s) => {
            let mut out = text::chars_of("  - 请求差异：");
            text::push_str(&mut out, s);
            text::push_str(&mut out, "\n");
            out
        },
        None => Vec::new(),
    }
}

/// Writes the lines on how paired calls differ.
fn push_details(out: &mut Vec<char>, c: &CallComparison)
    ensures
        final(out)@ == old(out)@ + detail_lines(c@),
{
    let ghost start = out@;
    let status = write_status(&c.status_diff);
    let diffs = write_diffs(&c.response_diffs);
    let request = write_request(&c.request_diff);
    text::push_all(out, &status);
    text::push_all(out, &diffs);
    text::push_all(out, &request);
    assert(start + status@ + diffs@ + request@ =~= start + (status@ + diffs@ + request@));
}

/// Writes a call in quotation marks, and the end of the line.
fn write_name(c: &CallComparison) -> (out: Vec<char>)
    ensures
        out@ == call_name(c@),
{
    let mut out = text::chars_of("`");
    text::push_str(&mut out, &c.method);
    text::push_str(&mut out, " ");
    text::push_str(&mut out, &c.path);
    text::push_str(&mut out, "`\n");
    out
}

/// Writes the lines on a call of a feature.
fn push_call(out: &mut Vec<char>, c: &CallComparison)
    ensures
        final(out)@ == old(out)@ + call_lines(c@),
{
    let ghost start = out@;
    text::push_str(out, "- ");
    text::push_all(out, &write_name(c));
    if c.kind == MatchKind::Missing {
        text::push_str(out, "  - **缺失**：新版未调用该接口\n");
    } else if c.kind == MatchKind::Added {
        text::push_str(out, "  - **新增**：新版多出该调用\n");
    }
    push_details(out, c);
    assert(out@ =~= start + call_lines(c@));
}

/// Writes the lines on a call in a report without features.
fn push_plain(out: &mut Vec<char>, c: &CallComparison)
    ensures
        final(out)@ == old(out)@ + plain_lines(c@),
{
    let ghost start = out@;
    assert(c@.response_diffs.len() == c.response_diffs@.len());
    if c.kind == MatchKind::Missing {
        text::push_str(out, "- ❌ 缺失 ");
        text::push_all(out, &write_name(c));
    } else if c.kind == MatchKind::Added {
        text::push_str(out, "- ➕ 新增 ");
        text::push_all(out, &write_name(c));
    } else if c.status_diff.is_some() || c.response_diffs.len() > 0 {
        text::push_str(out, "- 🔄 变更 ");
        text::push_all(out, &write_name(c));
        push_details(out, c);
    }
    assert(out@ =~= start + plain_lines(c@));
}

// ---------------------------------------------------------------------------
// Features
// ---------------------------------------------------------------------------

/// The comparisons of a feature's calls.
pub open spec fn relevant(cs: Seq<Comparison>, entry: MatrixEntry) -> Seq<Comparison>
    decreases cs.len(),
{
    if cs.len() == 0 {
        seq![]
    } else {
        let front = relevant(cs.drop_last(), entry);
        let c = cs.last();
        if matrix::entry_calls(entry, c.method, c.path) {
            front.push(c)
        } else {
            front
        }
    }
}

/// Whether one of the comparisons reports anything.
pub open spec fn has_issue(cs: Seq<Comparison>) -> bool {
    exists|i: int| 0 <= i < cs.len() && is_issue(#[trigger] cs[i])
}

/// The title of the section on a feature.
pub open spec fn entry_title(own: Seq<Comparison>, entry: MatrixEntry) -> Seq<char> {
    "### "@ + (if own.len() == 0 {
        "⚠️"@
    } else if has_issue(own) {
        "❌"@
    } else {
        "✅"@
    }) + " "@ + entry.name@ + "（"@ + entry.id@ + "）\n\n"@
}

/// The section on a feature.
pub open spec fn entry_section(cs: Seq<Comparison>, entry: MatrixEntry) -> Seq<char> {
    let own = relevant(cs, entry);
    entry_title(own, entry) + (if own.len() == 0 {
        "- 未捕获到该功能的接口调用\n"@
    } else {
        seq![]
    }) + each(own, |c: Comparison| call_lines(c)) + "\n"@
}

/// Lists the comparisons of a feature's calls.
fn list_relevant(list: &[CallComparison], entry: &MatrixEntry) -> (r: Vec<usize>)
    ensures
        forall|k: int| 0 <= k < r@.len() ==> (#[trigger] r@[k]) < list@.len(),
        r@.map_values(|i: usize| list@[i as int]@) == relevant(
            compare::comparison_views(list@),
            *entry,
        ),
{
    let ghost cs = compare::comparison_views(list@);
    let ghost f = |i: usize| list@[i as int]@;
    let n: usize = list.len();
    let mut out: Vec<usize> = Vec::new();
    let mut i: usize = 0;
    assert(out@.map_values(f) =~= relevant(cs.take(0), *entry));
    while i < n
        invariant
            i <= n == list@.len(),
            cs == compare::comparison_views(list@),
            f == (|i: usize| list@[i as int]@),
            forall|k: int| 0 <= k < out@.len() ==> (#[trigger] out@[k]) < list@.len(),
            out@.map_values(f) == relevant(cs.take(i as int), *entry),
        decreases n - i,
    {
        let c = &list[i];
        proof {
            assert(cs.take(i + 1).drop_last() =~= cs.take(i as int));
            assert(cs.take(i + 1).last() == c@);
        }
        if matrix::is_entry_for(entry, &c.method, &c.path) {
            let ghost before = out@;
            out.push(i);
            assert(out@.map_values(f) =~= before.map_values(f).push(c@));
        }
        i += 1;
    }
    assert(cs.take(n as int) =~= cs);
    out
}

/// Whether one of the given comparisons reports anything.
fn reports_issue(list: &[CallComparison], own: &[usize]) -> (r: bool)
    requires
        forall|k: int| 0 <= k < own@.len() ==> (#[trigger] own@[k]) < list@.len(),
    ensures
        r == has_issue(own@.map_values(|i: usize| list@[i as int]@)),
{
    let ghost cs = own@.map_values(|i: usize| list@[i as int]@);
    let n: usize = own.len();
    let mut k: usize = 0;
    while k < n
        invariant
            k <= n == own@.len(),
            cs == own@.map_values(|i: usize| list@[i as int]@),
            forall|k: int| 0 <= k < own@.len() ==> (#[trigger] own@[k]) < list@.len(),
            forall|i: int| 0 <= i < k ==> !is_issue(#[trigger] cs[i]),
        decreases n - k,
    {
        let at: usize = own[k];
        assert(at == own@[k as int]);
        let c = &list[at];
        proof {
            assert(cs[k as int] == c@);
            assert(c@.response_diffs.len() == c.response_diffs@.len());
        }
        if c.kind == MatchKind::Missing || c.kind == MatchKind::Added || c.status_diff.is_some()
            || c.response_diffs.len() > 0 {
            assert(is_issue(cs[k as int]));
            return true;
        }
        k += 1;
    }
    false
}

/// Writes the title of the section on a feature.
fn write_title(list: &[CallComparison], own: &[usize], entry: &MatrixEntry) -> (out: Vec<char>)
    requires
        forall|k: int| 0 <= k < own@.len() ==> (#[trigger] own@[k]) < list@.len(),
    ensures
        out@ == entry_title(own@.map_values(|i: usize| list@[i as int]@), *entry),
{
    let mut out = text::chars_of("### ");
    if own.len() == 0 {
        text::push_str(&mut out, "⚠️");
    } else if reports_issue(list, own) {
        text::push_str(&mut out, "❌");
    } else {
        text::push_str(&mut out, "✅");
    }
    text::push_str(&mut out, " ");
    text::push_str(&mut out, &entry.name);
    text::push_str(&mut out, "（");
    text::push_str(&mut out, &entry.id);
    text::push_str(&mut out, "）\n\n");
    out
}

/// Writes the section on a feature.
fn push_entry(out: &mut Vec<char>, list: &[CallComparison], entry: &MatrixEntry)
    ensures
        final(out)@ == old(out)@ + entry_section(compare::comparison_views(list@), *entry),
{
    let ghost start = out@;
    let ghost cs = compare::comparison_views(list@);
    let ghost own_cs = relevant(cs, *entry);
    let ghost f = |c: Comparison| call_lines(c);
    let own = list_relevant(list, entry);
    let n: usize = own.len();
    assert(own_cs.len() == own@.len());
    text::push_all(out, &write_title(list, &own, entry));
    if n == 0 {
        text::push_str(out, "- 未捕获到该功能的接口调用\n");
    }
    let ghost front = out@;
    let mut k: usize = 0;
    assert(front =~= front + each(own_cs.take(0), f));
    while k < n
        invariant
            k <= n == own@.len(),
            own_cs == own@.map_values(|i: usize| list@[i as int]@),
            forall|k: int| 0 <= k < own@.len() ==> (#[trigger] own@[k]) < list@.len(),
            f == (|c: Comparison| call_lines(c)),
            out@ == front + each(own_cs.take(k as int), f),
        decreases n - k,
    {
        let at: usize = own[k];
        assert(at == own@[k as int]);
        push_call(out, &list[at]);
        proof {
            assert(own_cs[k as int] == list@[at as int]@);
            lemma_each_step(own_cs, f, k as int);
            assert(front + each(own_cs.take(k as int), f) + f(own_cs[k as int]) =~= front + each(
                own_cs.take(k + 1),
                f,
            ));
        }
        k += 1;
    }
    assert(own_cs.take(n as int) =~= own_cs);
    text::push_str(out, "\n");
    assert(out@ =~= start + entry_section(cs, *entry));
}

// ---------------------------------------------------------------------------
// The flow
// ---------------------------------------------------------------------------

/// The line on a step.
pub open spec fn step_line(s: Seq<char>) -> Seq<char> {
    "  - "@ + s + "\n"@
}

/// The lines on the order of the calls.
pub open spec fn sequence_lines(missing: Seq<Seq<char>>, added: Seq<Seq<char>>) -> Seq<char> {
    if missing.len() == 0 && added.len() == 0 {
        "- ✅ 调用序列一致\n\n"@
    } else {
        (if missing.len() > 0 {
            "- ❌ 缺失步骤：\n"@ + each(missing, |s: Seq<char>| step_line(s))
        } else {
            seq![]
        }) + (if added.len() > 0 {
            "- ➕ 新增步骤：\n"@ + each(added, |s: Seq<char>| step_line(s))
        } else {
            seq![]
        }) + "\n"@
    }
}

/// How many outcomes are that an assertion holds.
pub open spec fn passed(list: Seq<matrix::Outcome>) -> nat
    decreases list.len(),
{
    if list.len() == 0 {
        0
    } else {
        passed(list.drop_last()) + if list.last().passed {
            1nat
        } else {
            0nat
        }
    }
}

/// The line on an assertion that does not hold; none where it does.
pub open spec fn failure_line(o: matrix::Outcome) -> Seq<char> {
    if o.passed {
        seq![]
    } else {
        "  - ❌ `"@ + o.path + "` "@ + (match o.desc {
            Some(s) => s,
            None => seq![],
        }) + "："@ + o.detail + "\n"@
    }
}

/// The line on how many assertions of a feature hold.
pub open spec fn findings_line(f: compare::Findings) -> Seq<char> {
    "- "@ + (if passed(f.current) == f.current.len() {
        "✅"@
    } else {
        "❌"@
    }) + " "@ + f.name + "：基线 "@ + digits(passed(f.baseline)) + "/"@ + digits(f.baseline.len())
        + " 通过，新版 "@ + digits(passed(f.current)) + "/"@ + digits(f.current.len()) + " 通过\n"@
}

/// The lines on the assertions of a feature.
pub open spec fn findings_lines(f: compare::Findings) -> Seq<char> {
    findings_line(f) + each(f.current, |o: matrix::Outcome| failure_line(o))
}

/// The section on the flow.
pub open spec fn flow_section(
    missing: Seq<Seq<char>>,
    added: Seq<Seq<char>>,
    list: Seq<compare::Findings>,
) -> Seq<char> {
    "## 业务流验证\n\n### 调用序列\n\n"@ + sequence_lines(missing, added) + (if list.len() > 0 {
        "### 业务结果断言\n\n"@ + each(list, |f: compare::Findings| findings_lines(f)) + "\n"@
    } else {
        seq![]
    })
}

/// Writes the lines on steps.
fn push_steps(out: &mut Vec<char>, list: &[String])
    ensures
        final(out)@ == old(out)@ + each(text::texts(list@), |s: Seq<char>| step_line(s)),
{
    let ghost start = out@;
    let ghost all = text::texts(list@);
    let ghost f = |s: Seq<char>| step_line(s);
    let n: usize = list.len();
    let mut i: usize = 0;
    assert(start =~= start + each(all.take(0), f));
    while i < n
        invariant
            i <= n == list@.len(),
            all == text::texts(list@),
            f == (|s: Seq<char>| step_line(s)),
            out@ == start + each(all.take(i as int), f),
        decreases n - i,
    {
        text::push_str(out, "  - ");
        text::push_str(out, &list[i]);
        text::push_str(out, "\n");
        proof {
            lemma_each_step(all, f, i as int);
            assert(out@ =~= start + each(all.take(i as int), f) + f(all[i as int]));
            assert(out@ =~= start + each(all.take(i + 1), f));
        }
        i += 1;
    }
    assert(all.take(n as int) =~= all);
}

/// Writes the lines on the order of the calls.
fn push_sequence(out: &mut Vec<char>, d: &SequenceDiff)
    ensures
        final(out)@ == old(out)@ + sequence_lines(
            text::texts(d.missing@),
            text::texts(d.added@),
        ),
{
    let ghost start = out@;
    if d.is_identical() {
        text::push_str(out, "- ✅ 调用序列一致\n\n");
    } else {
        if d.missing.len() > 0 {
            text::push_str(out, "- ❌ 缺失步骤：\n");
            push_steps(out, &d.missing);
        }
        if d.added.len() > 0 {
            text::push_str(out, "- ➕ 新增步骤：\n");
            push_steps(out, &d.added);
        }
        text::push_str(out, "\n");
    }
    assert(out@ =~= start + sequence_lines(text::texts(d.missing@), text::texts(d.added@)));
}

/// Counts the assertions that hold.
fn count_passed(list: &[AssertionResult]) -> (r: usize)
    ensures
        r == passed(matrix::outcomes(list@)),
        r <= list@.len(),
{
    let ghost all = matrix::outcomes(list@);
    let n: usize = list.len();
    let mut r: usize = 0;
    let mut i: usize = 0;
    assert(passed(all.take(0)) == 0);
    while i < n
        invariant
            i <= n == list@.len(),
            all == matrix::outcomes(list@),
            r <= i,
            r == passed(all.take(i as int)),
        decreases n - i,
    {
        proof {
            assert(all.take(i + 1).drop_last() =~= all.take(i as int));
            assert(all.take(i + 1).last() == list@[i as int]@);
        }
        if list[i].passed {
            r = r + 1;
        }
        i += 1;
    }
    assert(all.take(n as int) =~= all);
    r
}

/// Writes the line on an assertion that does not hold.
fn write_failure(o: &AssertionResult) -> (out: Vec<char>)
    ensures
        out@ == failure_line(o@),
{
    if o.passed {
        let none: Vec<char> = Vec::new();
        assert(none@ =~= Seq::<char>::empty());
        return none;
    }
    let mut out = text::chars_of("  - ❌ `");
    text::push_str(&mut out, &o.path);
    text::push_str(&mut out, "` ");
    let desc = match &o.desc {
        Some(s) => text::chars_of(s),
        None => Vec::new(),
    };
    proof {
        assert(desc@ =~= match o@.desc {
            Some(s) => s,
            None => seq![],
        });
    }
    text::push_all(&mut out, &desc);
    text::push_str(&mut out, "：");
    text::push_str(&mut out, &o.detail);
    text::push_str(&mut out, "\n");
    out
}

/// Writes the line on how many assertions of a feature hold.
fn write_findings_line(f: &FeatureAssertions) -> (out: Vec<char>)
    ensures
        out@ == findings_line(f@),
{
    let in_baseline = count_passed(&f.baseline);
    let in_current = count_passed(&f.current);
    proof {
        assert(f@.current.len() == f.current@.len());
        assert(f@.baseline.len() == f.baseline@.len());
    }
    let mut out = text::chars_of("- ");
    if in_current == f.current.len() {
        text::push_str(&mut out, "✅");
    } else {
        text::push_str(&mut out, "❌");
    }
    text::push_str(&mut out, " ");
    text::push_str(&mut out, &f.entry_name);
    text::push_str(&mut out, "：基线 ");
    push_number(&mut out, in_baseline);
    text::push_str(&mut out, "/");
    push_number(&mut out, f.baseline.len());
    text::push_str(&mut out, " 通过，新版 ");
    push_number(&mut out, in_current);
    text::push_str(&mut out, "/");
    push_number(&mut out, f.current.len());
    text::push_str(&mut out, " 通过\n");
    out
}

/// Writes the lines on the assertions of a feature.
fn push_findings(out: &mut Vec<char>, f: &FeatureAssertions)
    ensures
        final(out)@ == old(out)@ + findings_lines(f@),
{
    let ghost start = out@;
    let ghost all = matrix::outcomes(f.current@);
    let ghost g = |o: matrix::Outcome| failure_line(o);
    text::push_all(out, &write_findings_line(f));
    let ghost front = out@;
    let n: usize = f.current.len();
    let mut i: usize = 0;
    assert(front =~= front + each(all.take(0), g));
    while i < n
        invariant
            i <= n == f.current@.len(),
            all == matrix::outcomes(f.current@),
            g == (|o: matrix::Outcome| failure_line(o)),
            out@ == front + each(all.take(i as int), g),
        decreases n - i,
    {
        assert(all[i as int] == f.current@[i as int]@);
        text::push_all(out, &write_failure(&f.current[i]));
        proof {
            lemma_each_step(all, g, i as int);
            assert(front + each(all.take(i as int), g) + g(all[i as int]) =~= front + each(
                all.take(i + 1),
                g,
            ));
        }
        i += 1;
    }
    assert(all.take(n as int) =~= all);
    assert(out@ =~= start + findings_lines(f@));
}

/// Writes the section on the flow.
fn push_flow(out: &mut Vec<char>, d: &SequenceDiff, list: &[FeatureAssertions])
    ensures
        final(out)@ == old(out)@ + flow_section(
            text::texts(d.missing@),
            text::texts(d.added@),
            compare::finding_views(list@),
        ),
{
    let ghost start = out@;
    let ghost all = compare::finding_views(list@);
    let ghost g = |f: compare::Findings| findings_lines(f);
    text::push_str(out, "## 业务流验证\n\n### 调用序列\n\n");
    push_sequence(out, d);
    let n: usize = list.len();
    if n > 0 {
        text::push_str(out, "### 业务结果断言\n\n");
        let ghost front = out@;
        let mut i: usize = 0;
        assert(front =~= front + each(all.take(0), g));
        while i < n
            invariant
                i <= n == list@.len(),
                all == compare::finding_views(list@),
                g == (|f: compare::Findings| findings_lines(f)),
                out@ == front + each(all.take(i as int), g),
            decreases n - i,
        {
            assert(all[i as int] == list@[i as int]@);
            push_findings(out, &list[i]);
            proof {
                lemma_each_step(all, g, i as int);
                assert(front + each(all.take(i as int), g) + g(all[i as int]) =~= front + each(
                    all.take(i + 1),
                    g,
                ));
            }
            i += 1;
        }
        assert(all.take(n as int) =~= all);
        text::push_str(out, "\n");
    }
    assert(out@ =~= start + flow_section(text::texts(d.missing@), text::texts(d.added@), all));
}

// ---------------------------------------------------------------------------
// The report
// ---------------------------------------------------------------------------

/// The head of the report, with the counts.
pub open spec fn head(baseline: Seq<char>, current: Seq<char>, t: Tally) -> Seq<char> {
    "# 接口复刻对比报告\n\n基线："@ + baseline + "　新版："@ + current + "\n\n"@
        + "## 汇总\n\n- 一致："@ + digits(t.identical) + "\n- 变更："@ + digits(t.changed)
        + "\n- 缺失："@ + digits(t.missing) + "\n- 新增："@ + digits(t.added) + "\n\n"@
}

/// The report: its head, the flow where it was compared, and the calls, feature by feature where
/// there is a matrix.
pub open spec fn report(
    baseline: Seq<char>,
    current: Seq<char>,
    cs: Seq<Comparison>,
    entries: Option<Seq<MatrixEntry>>,
    flow: Option<(Seq<Seq<char>>, Seq<Seq<char>>)>,
    list: Seq<compare::Findings>,
) -> Seq<char> {
    head(baseline, current, tally(cs)) + (match flow {
        Some((missing, added)) => flow_section(missing, added, list),
        None => seq![],
    }) + (match entries {
        Some(es) => "## 按功能条目\n\n"@ + each(es, |e: MatrixEntry| entry_section(cs, e)),
        None => "## 差异详情\n\n"@ + each(cs, |c: Comparison| plain_lines(c)),
    })
}

/// Writes the head of the report.
fn write_head(baseline: &str, current: &str, c: &Counts) -> (out: Vec<char>)
    ensures
        out@ == head(baseline@, current@, c@),
{
    let mut out = text::chars_of("# 接口复刻对比报告\n\n基线：");
    text::push_str(&mut out, baseline);
    text::push_str(&mut out, "　新版：");
    text::push_str(&mut out, current);
    text::push_str(&mut out, "\n\n");
    text::push_str(&mut out, "## 汇总\n\n- 一致：");
    push_number(&mut out, c.identical);
    text::push_str(&mut out, "\n- 变更：");
    push_number(&mut out, c.changed);
    text::push_str(&mut out, "\n- 缺失：");
    push_number(&mut out, c.missing);
    text::push_str(&mut out, "\n- 新增：");
    push_number(&mut out, c.added);
    text::push_str(&mut out, "\n\n");
    out
}

/// The model of the order of the calls, where it was compared.
pub open spec fn flow_view(d: Option<&SequenceDiff>) -> Option<(Seq<Seq<char>>, Seq<Seq<char>>)> {
    match d {
        Some(d) => Some((text::texts(d.missing@), text::texts(d.added@))),
        None => None,
    }
}

/// The features of a matrix, where there is one.
pub open spec fn entries_of(m: Option<&FeatureMatrix>) -> Option<Seq<MatrixEntry>> {
    match m {
        Some(m) => Some(m.entries@),
        None => None,
    }
}

/// Writes the report.
pub fn render_report(
    baseline_name: &str,
    current_name: &str,
    comparisons: &[CallComparison],
    features: Option<&FeatureMatrix>,
    flow: Option<&SequenceDiff>,
    assertions: &[FeatureAssertions],
) -> (r: String)
    ensures
        r@ == report(
            baseline_name@,
            current_name@,
            compare::comparison_views(comparisons@),
            entries_of(features),
            flow_view(flow),
            compare::finding_views(assertions@),
        ),
{
    let ghost cs = compare::comparison_views(comparisons@);
    let mut out = write_head(baseline_name, current_name, &count(comparisons));
    if let Some(d) = flow {
        push_flow(&mut out, d, assertions);
    }
    match features {
        Some(m) => {
            let ghost all = m.entries@;
            let ghost g = |e: MatrixEntry| entry_section(cs, e);
            text::push_str(&mut out, "## 按功能条目\n\n");
            let ghost front = out@;
            let n: usize = m.entries.len();
            let mut i: usize = 0;
            assert(front =~= front + each(all.take(0), g));
            while i < n
                invariant
                    i <= n == m.entries@.len(),
                    all == m.entries@,
                    cs == compare::comparison_views(comparisons@),
                    g == (|e: MatrixEntry| entry_section(cs, e)),
                    out@ == front + each(all.take(i as int), g),
                decreases n - i,
            {
                push_entry(&mut out, comparisons, &m.entries[i]);
                proof {
                    lemma_each_step(all, g, i as int);
                    assert(front + each(all.take(i as int), g) + g(all[i as int]) =~= front + each(
                        all.take(i + 1),
                        g,
                    ));
                }
                i += 1;
            }
            assert(all.take(n as int) =~= all);
        },
        None => {
            let ghost g = |c: Comparison| plain_lines(c);
            text::push_str(&mut out, "## 差异详情\n\n");
            let ghost front = out@;
            let n: usize = comparisons.len();
            let mut i: usize = 0;
            assert(front =~= front + each(cs.take(0), g));
            while i < n
                invariant
                    i <= n == comparisons@.len(),
                    cs == compare::comparison_views(comparisons@),
                    g == (|c: Comparison| plain_lines(c)),
                    out@ == front + each(cs.take(i as int), g),
                decreases n - i,
            {
                assert(cs[i as int] == comparisons@[i as int]@);
                push_plain(&mut out, &comparisons[i]);
                proof {
                    lemma_each_step(cs, g, i as int);
                    assert(front + each(cs.take(i as int), g) + g(cs[i as int]) =~= front + each(
                        cs.take(i + 1),
                        g,
                    ));
                }
                i += 1;
            }
            assert(cs.take(n as int) =~= cs);
        },
    }
    assert(out@ =~= report(
        baseline_name@,
        current_name@,
        cs,
        entries_of(features),
        flow_view(flow),
        compare::finding_views(assertions@),
    ));
    text::string_of(&out)
}

// ---------------------------------------------------------------------------
// Laws
// ---------------------------------------------------------------------------

/// Every comparison is counted once.
pub proof fn law_every_comparison_is_counted(cs: Seq<Comparison>)
    ensures
        ({
            let t = tally(cs);
            t.identical + t.changed + t.missing + t.added == cs.len()
        }),
    decreases cs.len(),
{
    if cs.len() > 0 {
        law_every_comparison_is_counted(cs.drop_last());
    }
}

/// The comparisons are counted by their sort: calls that only one recording has, paired calls whose
/// answers differ in status or body, and paired calls whose answers agree.
pub proof fn law_sorts_are_counted(cs: Seq<Comparison>)
    ensures
        tally(cs).missing == cs.filter(|c: Comparison| c.kind == MatchKind::Missing).len(),
        tally(cs).added == cs.filter(|c: Comparison| c.kind == MatchKind::Added).len(),
        tally(cs).changed == cs.filter(
            |c: Comparison|
                c.kind == MatchKind::Matched && (c.status_diff is Some || c.response_diffs.len()
                    > 0),
        ).len(),
        tally(cs).identical == cs.filter(
            |c: Comparison|
                c.kind == MatchKind::Matched && c.status_diff is None && c.response_diffs.len()
                    == 0,
        ).len(),
    decreases cs.len(),
{
    reveal(Seq::filter);
    if cs.len() > 0 {
        law_sorts_are_counted(cs.drop_last());
    }
}

/// The counts in one line, and in the head of the report.
pub proof fn law_counts_are_told(t: Tally, baseline: Seq<char>, current: Seq<char>)
    ensures
        summary_line(t) == "对比完成：一致 "@ + number::decimal(t.identical) + "，变更 "@
            + number::decimal(t.changed) + "，缺失 "@ + number::decimal(t.missing) + "，新增 "@
            + number::decimal(t.added),
        head(baseline, current, t) == "# 接口复刻对比报告\n\n基线："@ + baseline + "　新版："@
            + current + "\n\n"@ + "## 汇总\n\n- 一致："@ + number::decimal(t.identical)
            + "\n- 变更："@ + number::decimal(t.changed) + "\n- 缺失："@ + number::decimal(
            t.missing,
        ) + "\n- 新增："@ + number::decimal(t.added) + "\n\n"@,
{
}

/// What is written of each value of a sequence stands in the whole.
pub proof fn law_each_is_written<T>(s: Seq<T>, f: spec_fn(T) -> Seq<char>, i: int)
    requires
        0 <= i < s.len(),
    ensures
        text::has(each(s, f), f(s[i])),
        each(s.take(i + 1), f) == each(s.take(i), f) + f(s[i]),
{
    assert(s.take(i + 1).drop_last() =~= s.take(i));
    assert(s.take(i + 1).last() == s[i]);
    lemma_each_splits(s, f, i);
    let a = each(s.take(i), f);
    let b = each(s.skip(i + 1), f);
    text::law_has(a, f(s[i]), b, a);
}

/// What is written of a sequence is what is written up to a value, of it, and behind it.
proof fn lemma_each_splits<T>(s: Seq<T>, f: spec_fn(T) -> Seq<char>, i: int)
    requires
        0 <= i < s.len(),
    ensures
        each(s, f) == each(s.take(i), f) + f(s[i]) + each(s.skip(i + 1), f),
    decreases s.len(),
{
    let front = s.drop_last();
    if i < front.len() {
        lemma_each_splits(front, f, i);
        assert(front.take(i) =~= s.take(i));
        let back = s.skip(i + 1);
        assert(back.drop_last() =~= front.skip(i + 1));
        assert(back.last() == s.last());
        assert(each(s, f) =~= each(s.take(i), f) + f(s[i]) + each(back, f));
    } else {
        assert(front =~= s.take(i));
        assert(s.skip(i + 1).len() == 0);
        assert(each(s, f) =~= each(s.take(i), f) + f(s[i]) + each(s.skip(i + 1), f));
    }
}

/// A part of a part is a part of the whole.
proof fn lemma_has_within(a: Seq<char>, s: Seq<char>, b: Seq<char>, part: Seq<char>)
    requires
        text::has(s, part),
    ensures
        text::has(a + s + b, part),
{
    text::law_has(a, part, b, s);
    let (x, y) = choose|x: Seq<char>, y: Seq<char>| s == #[trigger] (x + part + y);
    assert(a + s + b =~= (a + x) + part + (y + b));
    text::law_has(a + x, part, y + b, s);
}

/// A report without features tells of every call that only one recording has, and of every paired
/// call whose answers differ, with all that differs.
pub proof fn law_every_difference_is_reported(
    baseline: Seq<char>,
    current: Seq<char>,
    cs: Seq<Comparison>,
    flow: Option<(Seq<Seq<char>>, Seq<Seq<char>>)>,
    list: Seq<compare::Findings>,
    i: int,
)
    requires
        0 <= i < cs.len(),
    ensures
        ({
            let r = report(baseline, current, cs, None, flow, list);
            let c = cs[i];
            let name = "`"@ + c.method + " "@ + c.path + "`\n"@;
            &&& c.kind == MatchKind::Missing ==> text::has(r, "- ❌ 缺失 "@ + name)
            &&& c.kind == MatchKind::Added ==> text::has(r, "- ➕ 新增 "@ + name)
            &&& c.kind == MatchKind::Matched && (c.status_diff is Some || c.response_diffs.len()
                > 0) ==> text::has(r, "- 🔄 变更 "@ + name + detail_lines(c))
        }),
{
    let f = |c: Comparison| plain_lines(c);
    let c = cs[i];
    law_each_is_written(cs, f, i);
    assert(f(c) == plain_lines(c));
    let front = head(baseline, current, tally(cs)) + (match flow {
        Some((missing, added)) => flow_section(missing, added, list),
        None => seq![],
    });
    let none = Seq::<char>::empty();
    let body = each(cs, f);
    let r = report(baseline, current, cs, None, flow, list);
    assert(r =~= (front + "## 差异详情\n\n"@) + body + none);
    lemma_has_within(front + "## 差异详情\n\n"@, body, none, f(c));
}

/// What differs between paired calls is written line by line: the statuses, every field with both
/// of its values, and the requests.
pub proof fn law_details_are_written(c: Comparison, i: int)
    ensures
        c.status_diff matches Some(d) ==> text::has(
            detail_lines(c),
            "  - 状态码："@ + number::decimal(d.0 as nat) + " → "@ + number::decimal(d.1 as nat)
                + "\n"@,
        ),
        0 <= i < c.response_diffs.len() ==> text::has(
            detail_lines(c),
            diff_line(c.response_diffs[i]),
        ),
        c.request_diff matches Some(s) ==> text::has(
            detail_lines(c),
            "  - 请求差异："@ + s + "\n"@,
        ),
        c.status_diff is None && c.response_diffs.len() == 0 && c.request_diff is None
            ==> detail_lines(c).len() == 0,
{
    let a = status_line(c.status_diff);
    let b = diff_lines(c.response_diffs);
    let d = request_line(c.request_diff);
    let none = Seq::<char>::empty();
    text::law_has(none, a, b + d, a);
    assert(none + a + (b + d) =~= detail_lines(c));
    text::law_has(a + b, d, none, d);
    assert((a + b) + d + none =~= detail_lines(c));
    if 0 <= i < c.response_diffs.len() {
        let f = |d: diff::Diff| diff_line(d);
        law_each_is_written(c.response_diffs, f, i);
        assert(f(c.response_diffs[i]) == diff_line(c.response_diffs[i]));
        lemma_has_within(a, b, d, diff_line(c.response_diffs[i]));
    }
}

/// The line on a field tells where it is, how it differs, and its value on either side.
pub proof fn law_field_is_written(path: Seq<char>, b: Seq<char>, c: Seq<char>)
    ensures
        diff_line(
            (diff::Diff { path, kind: DiffKind::Value, baseline: Some(b), current: Some(c) }),
        ) == "  - 响应 "@ + "值"@ + " `"@ + path + "`："@ + ("Some("@ + text::debug_text(b) + ")"@)
            + " → "@ + ("Some("@ + text::debug_text(c) + ")"@) + "\n"@,
        diff_line(
            (diff::Diff { path, kind: DiffKind::Structure, baseline: Some(b), current: None }),
        ) == "  - 响应 "@ + "结构"@ + " `"@ + path + "`："@ + ("Some("@ + text::debug_text(b)
            + ")"@) + " → "@ + "None"@ + "\n"@,
        diff_line(
            (diff::Diff { path, kind: DiffKind::Structure, baseline: None, current: Some(c) }),
        ) == "  - 响应 "@ + "结构"@ + " `"@ + path + "`："@ + "None"@ + " → "@ + ("Some("@
            + text::debug_text(c) + ")"@) + "\n"@,
{
}

/// The calls of a feature are those comparisons whose method and path it has, in their order.
pub proof fn law_calls_of_a_feature(cs: Seq<Comparison>, entry: MatrixEntry)
    ensures
        relevant(cs, entry) == cs.filter(
            |c: Comparison| matrix::entry_calls(entry, c.method, c.path),
        ),
    decreases cs.len(),
{
    reveal(Seq::filter);
    if cs.len() > 0 {
        law_calls_of_a_feature(cs.drop_last(), entry);
    } else {
        assert(relevant(cs, entry) =~= cs.filter(
            |c: Comparison| matrix::entry_calls(entry, c.method, c.path),
        ));
    }
}

/// A report with features has a section for each, and the section tells of every call of the
/// feature, with all that differs.
pub proof fn law_every_feature_is_reported(
    baseline: Seq<char>,
    current: Seq<char>,
    cs: Seq<Comparison>,
    entries: Seq<MatrixEntry>,
    flow: Option<(Seq<Seq<char>>, Seq<Seq<char>>)>,
    list: Seq<compare::Findings>,
    k: int,
    i: int,
)
    requires
        0 <= k < entries.len(),
    ensures
        ({
            let r = report(baseline, current, cs, Some(entries), flow, list);
            let own = relevant(cs, entries[k]);
            &&& text::has(r, entry_section(cs, entries[k]))
            &&& 0 <= i < own.len() ==> text::has(
                entry_section(cs, entries[k]),
                "- "@ + ("`"@ + own[i].method + " "@ + own[i].path + "`\n"@) + (
                if own[i].kind == MatchKind::Missing {
                    "  - **缺失**：新版未调用该接口\n"@
                } else if own[i].kind == MatchKind::Added {
                    "  - **新增**：新版多出该调用\n"@
                } else {
                    seq![]
                }) + detail_lines(own[i]),
            )
        }),
{
    let f = |e: MatrixEntry| entry_section(cs, e);
    law_each_is_written(entries, f, k);
    assert(f(entries[k]) == entry_section(cs, entries[k]));
    let front = head(baseline, current, tally(cs)) + (match flow {
        Some((missing, added)) => flow_section(missing, added, list),
        None => seq![],
    });
    let none = Seq::<char>::empty();
    let body = each(entries, f);
    let r = report(baseline, current, cs, Some(entries), flow, list);
    assert(r =~= (front + "## 按功能条目\n\n"@) + body + none);
    lemma_has_within(front + "## 按功能条目\n\n"@, body, none, f(entries[k]));
    let own = relevant(cs, entries[k]);
    if 0 <= i < own.len() {
        let g = |c: Comparison| call_lines(c);
        law_each_is_written(own, g, i);
        assert(g(own[i]) == call_lines(own[i]));
        let a = entry_title(own, entries[k]);
        assert(entry_section(cs, entries[k]) =~= (a + none) + each(own, g) + "\n"@);
        lemma_has_within(a + none, each(own, g), "\n"@, call_lines(own[i]));
    }
}

/// A feature is marked by what became of its calls: none was seen, some differ, or all agree.
pub proof fn law_features_are_marked(own: Seq<Comparison>, entry: MatrixEntry)
    ensures
        ({
            let rest = " "@ + entry.name@ + "（"@ + entry.id@ + "）\n\n"@;
            let issue = exists|i: int|
                0 <= i < own.len() && ((#[trigger] own[i]).kind != MatchKind::Matched
                    || own[i].status_diff is Some || own[i].response_diffs.len() > 0);
            &&& own.len() == 0 ==> entry_title(own, entry) == "### "@ + "⚠️"@ + rest
            &&& own.len() > 0 && issue ==> entry_title(own, entry) == "### "@ + "❌"@ + rest
            &&& own.len() > 0 && !issue ==> entry_title(own, entry) == "### "@ + "✅"@ + rest
        }),
{
    let issue = exists|i: int|
        0 <= i < own.len() && ((#[trigger] own[i]).kind != MatchKind::Matched
            || own[i].status_diff is Some || own[i].response_diffs.len() > 0);
    if issue {
        let i = choose|i: int|
            0 <= i < own.len() && ((#[trigger] own[i]).kind != MatchKind::Matched
                || own[i].status_diff is Some || own[i].response_diffs.len() > 0);
        assert(is_issue(own[i]));
    }
    if has_issue(own) {
        let i = choose|i: int| 0 <= i < own.len() && is_issue(#[trigger] own[i]);
        assert(own[i].kind != MatchKind::Matched || own[i].status_diff is Some
            || own[i].response_diffs.len() > 0);
    }
    let rest = " "@ + entry.name@ + "（"@ + entry.id@ + "）\n\n"@;
    let mark = if own.len() == 0 {
        "⚠️"@
    } else if has_issue(own) {
        "❌"@
    } else {
        "✅"@
    };
    assert(entry_title(own, entry) =~= "### "@ + mark + rest);
}

/// The lines on the flow tell every step that is missing and every step that is added; where there
/// are none of either, that the flows agree.
pub proof fn law_steps_are_reported(missing: Seq<Seq<char>>, added: Seq<Seq<char>>, i: int)
    ensures
        missing.len() == 0 && added.len() == 0 ==> sequence_lines(missing, added)
            == "- ✅ 调用序列一致\n\n"@,
        0 <= i < missing.len() ==> text::has(
            sequence_lines(missing, added),
            "  - "@ + missing[i] + "\n"@,
        ) && text::has(sequence_lines(missing, added), "- ❌ 缺失步骤：\n"@),
        0 <= i < added.len() ==> text::has(
            sequence_lines(missing, added),
            "  - "@ + added[i] + "\n"@,
        ) && text::has(sequence_lines(missing, added), "- ➕ 新增步骤：\n"@),
{
    let f = |s: Seq<char>| step_line(s);
    let m = each(missing, f);
    let a = each(added, f);
    let none = Seq::<char>::empty();
    let all = sequence_lines(missing, added);
    let x = if missing.len() > 0 {
        "- ❌ 缺失步骤：\n"@ + m
    } else {
        none
    };
    let y = if added.len() > 0 {
        "- ➕ 新增步骤：\n"@ + a
    } else {
        none
    };
    if 0 <= i < missing.len() {
        law_each_is_written(missing, f, i);
        assert(f(missing[i]) == "  - "@ + missing[i] + "\n"@);
        assert(all =~= "- ❌ 缺失步骤：\n"@ + m + (y + "\n"@));
        lemma_has_within("- ❌ 缺失步骤：\n"@, m, y + "\n"@, f(missing[i]));
        assert(all =~= none + "- ❌ 缺失步骤：\n"@ + (m + (y + "\n"@)));
        text::law_has(none, "- ❌ 缺失步骤：\n"@, m + (y + "\n"@), none);
    }
    if 0 <= i < added.len() {
        law_each_is_written(added, f, i);
        assert(f(added[i]) == "  - "@ + added[i] + "\n"@);
        assert(all =~= (x + "- ➕ 新增步骤：\n"@) + a + "\n"@);
        lemma_has_within(x + "- ➕ 新增步骤：\n"@, a, "\n"@, f(added[i]));
        assert(all =~= x + "- ➕ 新增步骤：\n"@ + (a + "\n"@));
        text::law_has(x, "- ➕ 新增步骤：\n"@, a + "\n"@, none);
    }
}

/// Of a feature's assertions it is told how many hold on either side, and it is marked by those on
/// the current one; every one that fails there has a line with what was found.
pub proof fn law_assertions_are_reported(f: compare::Findings, i: int)
    ensures
        passed(f.current) == f.current.filter(|o: matrix::Outcome| o.passed).len(),
        passed(f.baseline) == f.baseline.filter(|o: matrix::Outcome| o.passed).len(),
        ({
            let rest = " "@ + f.name + "：基线 "@ + number::decimal(passed(f.baseline)) + "/"@
                + number::decimal(f.baseline.len()) + " 通过，新版 "@ + number::decimal(
                passed(f.current),
            ) + "/"@ + number::decimal(f.current.len()) + " 通过\n"@;
            &&& passed(f.current) == f.current.len() ==> findings_line(f) == "- "@ + "✅"@ + rest
            &&& passed(f.current) != f.current.len() ==> findings_line(f) == "- "@ + "❌"@ + rest
        }),
        0 <= i < f.current.len() && !f.current[i].passed ==> text::has(
            findings_lines(f),
            "  - ❌ `"@ + f.current[i].path + "` "@ + (match f.current[i].desc {
                Some(s) => s,
                None => seq![],
            }) + "："@ + f.current[i].detail + "\n"@,
        ),
{
    lemma_passed(f.current);
    lemma_passed(f.baseline);
    let rest = " "@ + f.name + "：基线 "@ + number::decimal(passed(f.baseline)) + "/"@
        + number::decimal(f.baseline.len()) + " 通过，新版 "@ + number::decimal(passed(f.current))
        + "/"@ + number::decimal(f.current.len()) + " 通过\n"@;
    let mark = if passed(f.current) == f.current.len() {
        "✅"@
    } else {
        "❌"@
    };
    assert(findings_line(f) =~= "- "@ + mark + rest);
    if 0 <= i < f.current.len() {
        let g = |o: matrix::Outcome| failure_line(o);
        law_each_is_written(f.current, g, i);
        assert(g(f.current[i]) == failure_line(f.current[i]));
        let none = Seq::<char>::empty();
        assert(findings_lines(f) =~= findings_line(f) + each(f.current, g) + none);
        lemma_has_within(findings_line(f), each(f.current, g), none, g(f.current[i]));
    }
}

/// The outcomes that are counted are those that hold.
proof fn lemma_passed(list: Seq<matrix::Outcome>)
    ensures
        passed(list) == list.filter(|o: matrix::Outcome| o.passed).len(),
    decreases list.len(),
{
    reveal(Seq::filter);
    if list.len() > 0 {
        lemma_passed(list.drop_last());
    }
}

/// The section on the flow tells the steps, and the assertions of every feature that has some; it
/// stands in the report where the flow was compared, and nowhere else.
pub proof fn law_flow_is_reported(
    baseline: Seq<char>,
    current: Seq<char>,
    cs: Seq<Comparison>,
    entries: Option<Seq<MatrixEntry>>,
    missing: Seq<Seq<char>>,
    added: Seq<Seq<char>>,
    list: Seq<compare::Findings>,
    i: int,
)
    ensures
        ({
            let section = flow_section(missing, added, list);
            let with = report(baseline, current, cs, entries, Some((missing, added)), list);
            let without = report(baseline, current, cs, entries, None, list);
            let front = head(baseline, current, tally(cs));
            &&& front.is_prefix_of(with) && front.is_prefix_of(without)
            &&& with == front + section + without.skip(front.len() as int)
            &&& text::has(section, sequence_lines(missing, added))
            &&& 0 <= i < list.len() ==> text::has(section, findings_lines(list[i]))
            &&& list.len() == 0 ==> section == "## 业务流验证\n\n### 调用序列\n\n"@
                + sequence_lines(missing, added)
        }),
{
    let section = flow_section(missing, added, list);
    let with = report(baseline, current, cs, entries, Some((missing, added)), list);
    let without = report(baseline, current, cs, entries, None, list);
    let front = head(baseline, current, tally(cs));
    let rest = match entries {
        Some(es) => "## 按功能条目\n\n"@ + each(es, |e: MatrixEntry| entry_section(cs, e)),
        None => "## 差异详情\n\n"@ + each(cs, |c: Comparison| plain_lines(c)),
    };
    let none = Seq::<char>::empty();
    assert(with =~= front + section + rest);
    assert(without =~= front + rest);
    assert(without.skip(front.len() as int) =~= rest);
    let title = "## 业务流验证\n\n### 调用序列\n\n"@;
    let lines = sequence_lines(missing, added);
    let f = |f: compare::Findings| findings_lines(f);
    let all = each(list, f);
    let tail = if list.len() > 0 {
        "### 业务结果断言\n\n"@ + all + "\n"@
    } else {
        none
    };
    assert(section =~= title + lines + tail);
    text::law_has(title, lines, tail, none);
    if 0 <= i < list.len() {
        law_each_is_written(list, f, i);
        assert(f(list[i]) == findings_lines(list[i]));
        assert(section =~= (title + lines + "### 业务结果断言\n\n"@) + all + "\n"@);
        lemma_has_within(
            title + lines + "### 业务结果断言\n\n"@,
            all,
            "\n"@,
            findings_lines(list[i]),
        );
    }
}

} // verus!
