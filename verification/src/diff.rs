//! Differences between JSON values, field by field.
//!
//! A field has a path: `$` is the whole value, `$.a` a member of it, `$.a[0]` an item of that.
//! Rules name the paths of fields that change from one recording to the next; what they cover is
//! not compared.
use crate::json;
use crate::json::Json;
use crate::number;
use crate::order;
use crate::text;
use vstd::prelude::*;

verus! {

// ---------------------------------------------------------------------------
// Rules
// ---------------------------------------------------------------------------

/// How many digits a text begins with.
pub open spec fn digits_in_front(s: Seq<char>) -> int
    decreases s.len(),
{
    if s.len() == 0 || !text::is_digit(s[0]) {
        0
    } else {
        1 + digits_in_front(s.drop_first())
    }
}

/// Whether a path has the form of a rule. `[*]` in a rule stands for any number in brackets;
/// every other character stands for itself.
pub open spec fn covers(rule: Seq<char>, path: Seq<char>) -> bool
    decreases rule.len(),
{
    if rule.len() == 0 {
        path.len() == 0
    } else if rule.len() >= 3 && rule[0] == '[' && rule[1] == '*' && rule[2] == ']' {
        path.len() > 0 && path[0] == '[' && {
            let n = digits_in_front(path.skip(1));
            n > 0 && n + 1 < path.len() && path[n + 1] == ']' && covers(
                rule.skip(3),
                path.skip(n + 2),
            )
        }
    } else {
        path.len() > 0 && path[0] == rule[0] && covers(rule.skip(1), path.skip(1))
    }
}

/// Whether one of the rules is a path, or covers it.
pub open spec fn is_ignored(rules: Seq<Seq<char>>, path: Seq<char>) -> bool {
    exists|i: int| 0 <= i < rules.len() && ((#[trigger] rules[i]) == path || covers(rules[i], path))
}

/// Counts the digits that stand at a place of a text.
fn count_digits(s: &[char], from: usize) -> (r: usize)
    requires
        from <= s@.len(),
    ensures
        r == digits_in_front(s@.skip(from as int)),
        from + r <= s@.len(),
{
    let ghost tail = s@.skip(from as int);
    let mut i: usize = from;
    assert(s@.skip(i as int) =~= tail);
    while i < s.len() && s[i] >= '0' && s[i] <= '9'
        invariant
            from <= i <= s@.len(),
            tail == s@.skip(from as int),
            digits_in_front(tail) == i - from + digits_in_front(s@.skip(i as int)),
        decreases s@.len() - i,
    {
        assert(s@.skip(i as int)[0] == s@[i as int]);
        assert(s@.skip(i as int).drop_first() =~= s@.skip(i + 1));
        i += 1;
    }
    assert(i < s@.len() ==> s@.skip(i as int)[0] == s@[i as int]);
    i - from
}

/// Whether a path has the form of a rule.
fn is_covered(rule: &[char], path: &[char]) -> (r: bool)
    ensures
        r == covers(rule@, path@),
{
    let mut i: usize = 0;
    let mut k: usize = 0;
    assert(rule@.skip(0) =~= rule@);
    assert(path@.skip(0) =~= path@);
    while i < rule.len()
        invariant
            i <= rule@.len(),
            k <= path@.len(),
            covers(rule@, path@) == covers(rule@.skip(i as int), path@.skip(k as int)),
        decreases rule@.len() - i,
    {
        let ghost a = rule@.skip(i as int);
        let ghost b = path@.skip(k as int);
        proof {
            assert(forall|n: int| 0 <= n < a.len() ==> a[n] == rule@[i + n]);
            assert(forall|n: int| 0 <= n < b.len() ==> b[n] == path@[k + n]);
        }
        if k >= path.len() {
            return false;
        }
        if rule.len() - i >= 3 && rule[i] == '[' && rule[i + 1] == '*' && rule[i + 2] == ']' {
            if path[k] != '[' {
                return false;
            }
            let n = count_digits(path, k + 1);
            assert(b.skip(1) =~= path@.skip(k + 1));
            if n == 0 || k + 1 + n >= path.len() || path[k + 1 + n] != ']' {
                return false;
            }
            assert(a.skip(3) =~= rule@.skip(i + 3));
            assert(b.skip(n + 2) =~= path@.skip(k + n + 2));
            i += 3;
            k += n + 2;
        } else {
            if path[k] != rule[i] {
                return false;
            }
            assert(a.skip(1) =~= rule@.skip(i + 1));
            assert(b.skip(1) =~= path@.skip(k + 1));
            i += 1;
            k += 1;
        }
    }
    k == path.len()
}

/// The rules that say which fields are not compared.
#[derive(Debug)]
pub struct IgnoreRules {
    paths: Vec<String>,
}

impl View for IgnoreRules {
    type V = Seq<Seq<char>>;

    closed spec fn view(&self) -> Seq<Seq<char>> {
        text::texts(self.paths@)
    }
}

impl Default for IgnoreRules {
    /// No rules.
    fn default() -> (r: Self)
        ensures
            r@ == Seq::<Seq<char>>::empty(),
    {
        let r = IgnoreRules { paths: Vec::new() };
        assert(r@ =~= Seq::<Seq<char>>::empty());
        r
    }
}

impl IgnoreRules {
    /// The rules of a list.
    pub fn from_paths(paths: Vec<String>) -> (r: Self)
        ensures
            r@ == text::texts(paths@),
    {
        IgnoreRules { paths }
    }

    /// Whether a field is not compared.
    pub fn matches(&self, path: &str) -> (r: bool)
        ensures
            r == is_ignored(self@, path@),
    {
        let cs = text::chars_of(path);
        let n: usize = self.paths.len();
        let mut i: usize = 0;
        while i < n
            invariant
                i <= n == self.paths@.len(),
                cs@ == path@,
                forall|k: int|
                    0 <= k < i ==> (#[trigger] self@[k]) != path@ && !covers(self@[k], path@),
            decreases n - i,
        {
            assert(self@[i as int] == self.paths@[i as int]@);
            if text::same(&self.paths[i], path) || is_covered(
                &text::chars_of(&self.paths[i]),
                &cs,
            ) {
                return true;
            }
            i += 1;
        }
        false
    }
}

// ---------------------------------------------------------------------------
// Differences
// ---------------------------------------------------------------------------

/// In what a field differs.
#[derive(Debug, Clone, Copy, PartialEq, Eq, Structural)]
pub enum DiffKind {
    /// It is there on one side only.
    Structure,
    /// Its values differ.
    Value,
}

/// A difference in a field.
#[derive(Debug)]
pub struct FieldDiff {
    pub path: String,
    pub kind: DiffKind,
    /// What the field holds in the baseline.
    pub baseline: Option<String>,
    /// What it holds in the current recording.
    pub current: Option<String>,
}

/// The model of a difference.
#[verifier::ext_equal]
pub struct Diff {
    /// The path of the field.
    pub path: Seq<char>,
    /// In what it differs.
    pub kind: DiffKind,
    /// What the field holds in the baseline.
    pub baseline: Option<Seq<char>>,
    /// What it holds in the current recording.
    pub current: Option<Seq<char>>,
}

impl View for FieldDiff {
    type V = Diff;

    open spec fn view(&self) -> Diff {
        Diff {
            path: self.path@,
            kind: self.kind,
            baseline: text::opt_text(self.baseline),
            current: text::opt_text(self.current),
        }
    }
}

/// The models of differences.
pub open spec fn diff_views(v: Seq<FieldDiff>) -> Seq<Diff> {
    v.map_values(|d: FieldDiff| d@)
}

/// A value in short: a list and an object are told by how much they hold.
pub open spec fn summary(t: json::Tree) -> Seq<char> {
    match t {
        json::Tree::Null => "null"@,
        json::Tree::Bool(b) => if b {
            "true"@
        } else {
            "false"@
        },
        json::Tree::Number(n) => n.text,
        json::Tree::Text(s) => s,
        json::Tree::List(items) => "["@ + number::decimal(items.len()) + " 项]"@,
        json::Tree::Object(members) => "{"@ + number::decimal(members.len()) + "}"@,
    }
}

/// The path of a member.
pub open spec fn member_path(prefix: Seq<char>, name: Seq<char>) -> Seq<char> {
    prefix + "."@ + name
}

/// The path of an item.
pub open spec fn item_path(prefix: Seq<char>, i: nat) -> Seq<char> {
    prefix + "["@ + number::decimal(i) + "]"@
}

/// The names of the members of an object.
pub open spec fn names(members: Seq<(Seq<char>, json::Tree)>) -> Seq<Seq<char>> {
    members.map_values(|m: (Seq<char>, json::Tree)| m.0)
}

/// The names of the members of two objects in their order, each once.
pub open spec fn all_names(
    x: Seq<(Seq<char>, json::Tree)>,
    y: Seq<(Seq<char>, json::Tree)>,
) -> Seq<Seq<char>> {
    text::unique(order::sorted_texts(names(x) + names(y)))
}

/// A field that is there in the baseline only.
pub open spec fn lost(path: Seq<char>, t: json::Tree) -> Diff {
    Diff { path, kind: DiffKind::Structure, baseline: Some(summary(t)), current: None }
}

/// A field that is there in the current recording only.
pub open spec fn gained(path: Seq<char>, t: json::Tree) -> Diff {
    Diff { path, kind: DiffKind::Structure, baseline: None, current: Some(summary(t)) }
}

/// The differences between two values at a path: those of the members of two objects and of the
/// items of two lists, and otherwise that they are not the same. A path that a rule covers has
/// none.
pub open spec fn diffs(
    b: json::Tree,
    c: json::Tree,
    path: Seq<char>,
    rules: Seq<Seq<char>>,
) -> Seq<Diff>
    decreases b, 0int,
{
    if is_ignored(rules, path) {
        seq![]
    } else {
        match (b, c) {
            (json::Tree::Object(x), json::Tree::Object(y)) => member_diffs(
                x,
                y,
                all_names(x, y),
                path,
                rules,
            ),
            (json::Tree::List(x), json::Tree::List(y)) => item_diffs(
                x,
                y,
                if x.len() >= y.len() {
                    x.len()
                } else {
                    y.len()
                },
                path,
                rules,
            ),
            _ => if json::same_value(b, c) {
                seq![]
            } else {
                seq![
                    Diff {
                        path,
                        kind: DiffKind::Value,
                        baseline: Some(summary(b)),
                        current: Some(summary(c)),
                    },
                ]
            },
        }
    }
}

/// The differences between the members of two objects with the given names.
pub open spec fn member_diffs(
    x: Seq<(Seq<char>, json::Tree)>,
    y: Seq<(Seq<char>, json::Tree)>,
    list: Seq<Seq<char>>,
    path: Seq<char>,
    rules: Seq<Seq<char>>,
) -> Seq<Diff>
    decreases x, list.len(),
{
    if list.len() == 0 {
        seq![]
    } else {
        let name = list.last();
        let at = member_path(path, name);
        let i = json::position(x, name);
        let j = json::position(y, name);
        member_diffs(x, y, list.drop_last(), path, rules) + if 0 <= i < x.len() {
            if 0 <= j < y.len() {
                diffs(x[i].1, y[j].1, at, rules)
            } else {
                seq![lost(at, x[i].1)]
            }
        } else if 0 <= j < y.len() {
            seq![gained(at, y[j].1)]
        } else {
            seq![]
        }
    }
}

/// The differences between the first `n` items of two lists.
pub open spec fn item_diffs(
    x: Seq<json::Tree>,
    y: Seq<json::Tree>,
    n: nat,
    path: Seq<char>,
    rules: Seq<Seq<char>>,
) -> Seq<Diff>
    decreases x, n,
{
    if n == 0 {
        seq![]
    } else {
        let k = (n - 1) as nat;
        let at = item_path(path, k);
        item_diffs(x, y, k, path, rules) + if k < x.len() {
            if k < y.len() {
                diffs(x[k as int], y[k as int], at, rules)
            } else {
                seq![lost(at, x[k as int])]
            }
        } else if k < y.len() {
            seq![gained(at, y[k as int])]
        } else {
            seq![]
        }
    }
}

/// Writes a value in short.
pub fn value_summary(v: &Json) -> (r: String)
    ensures
        r@ == summary(json::tree_of(*v)),
{
    match v {
        Json::Null => text::owned("null"),
        Json::Bool(b) => if *b {
            text::owned("true")
        } else {
            text::owned("false")
        },
        Json::Number(n) => n.text.clone(),
        Json::Text(s) => s.clone(),
        Json::List(items) => {
            let mut out = text::chars_of("[");
            text::push_all(&mut out, &number::to_decimal(items.len() as u64));
            text::push_str(&mut out, " 项]");
            text::string_of(&out)
        },
        Json::Object(members) => {
            let mut out = text::chars_of("{");
            text::push_all(&mut out, &number::to_decimal(members.len() as u64));
            text::push_str(&mut out, "}");
            text::string_of(&out)
        },
    }
}

/// Writes the path of a member.
pub fn write_member_path(prefix: &str, name: &str) -> (r: String)
    ensures
        r@ == member_path(prefix@, name@),
{
    let mut out = text::chars_of(prefix);
    text::push_str(&mut out, ".");
    text::push_str(&mut out, name);
    text::string_of(&out)
}

/// Writes the path of an item.
pub fn write_item_path(prefix: &str, i: usize) -> (r: String)
    ensures
        r@ == item_path(prefix@, i as nat),
{
    let mut out = text::chars_of(prefix);
    text::push_str(&mut out, "[");
    text::push_all(&mut out, &number::to_decimal(i as u64));
    text::push_str(&mut out, "]");
    text::string_of(&out)
}

/// Lists the names of the members of two objects.
fn list_names(x: &[(String, Json)], y: &[(String, Json)]) -> (r: Vec<String>)
    ensures
        text::texts(r@) == all_names(json::member_trees(x@), json::member_trees(y@)),
{
    let ghost xs = names(json::member_trees(x@));
    let ghost ys = names(json::member_trees(y@));
    let mut list: Vec<String> = Vec::new();
    let n: usize = x.len();
    let mut i: usize = 0;
    assert(text::texts(list@) =~= xs.take(0));
    while i < n
        invariant
            i <= n == x@.len(),
            xs == names(json::member_trees(x@)),
            text::texts(list@) == xs.take(i as int),
        decreases n - i,
    {
        let name = x[i].0.clone();
        proof {
            text::lemma_texts_push(list@, name);
            assert(xs.take(i + 1) =~= xs.take(i as int).push(name@));
        }
        list.push(name);
        i += 1;
    }
    assert(xs.take(n as int) =~= xs);
    let m: usize = y.len();
    let mut j: usize = 0;
    assert(xs + ys.take(0) =~= xs);
    while j < m
        invariant
            j <= m == y@.len(),
            ys == names(json::member_trees(y@)),
            text::texts(list@) == xs + ys.take(j as int),
        decreases m - j,
    {
        let name = y[j].0.clone();
        proof {
            text::lemma_texts_push(list@, name);
            assert(xs + ys.take(j + 1) =~= (xs + ys.take(j as int)).push(name@));
        }
        list.push(name);
        j += 1;
    }
    assert(ys.take(m as int) =~= ys);
    let sorted = order::sort_strings(list);
    let ghost all = text::texts(sorted@);
    let count: usize = sorted.len();
    let mut out: Vec<String> = Vec::new();
    let mut k: usize = 0;
    assert(text::texts(out@) =~= text::unique(all.take(0)));
    while k < count
        invariant
            k <= count == sorted@.len(),
            all == text::texts(sorted@),
            text::texts(out@) == text::unique(all.take(k as int)),
        decreases count - k,
    {
        proof {
            assert(all.take(k + 1).drop_last() =~= all.take(k as int));
            assert(all.take(k + 1).last() == sorted@[k as int]@);
        }
        if !text::listed(&out, &sorted[k]) {
            let name = sorted[k].clone();
            proof {
                text::lemma_texts_push(out@, name);
            }
            out.push(name);
        }
        k += 1;
    }
    assert(all.take(count as int) =~= all);
    out
}

/// One more difference has one more model.
proof fn lemma_diff_push(v: Seq<FieldDiff>, d: FieldDiff)
    ensures
        diff_views(v.push(d)) == diff_views(v).push(d@),
{
    assert(diff_views(v.push(d)) =~= diff_views(v).push(d@));
}

/// Adds differences to a list.
fn append_diffs(out: &mut Vec<FieldDiff>, more: Vec<FieldDiff>)
    ensures
        diff_views(final(out)@) == diff_views(old(out)@) + diff_views(more@),
{
    let mut more = more;
    let ghost (a, b) = (out@, more@);
    out.append(&mut more);
    assert(diff_views(a + b) =~= diff_views(a) + diff_views(b));
}

/// Makes the difference of a field that is there on one side only.
fn one_sided(path: String, v: &Json, in_baseline: bool) -> (r: FieldDiff)
    ensures
        in_baseline ==> r@ == lost(path@, json::tree_of(*v)),
        !in_baseline ==> r@ == gained(path@, json::tree_of(*v)),
{
    let s = value_summary(v);
    if in_baseline {
        FieldDiff { path, kind: DiffKind::Structure, baseline: Some(s), current: None }
    } else {
        FieldDiff { path, kind: DiffKind::Structure, baseline: None, current: Some(s) }
    }
}

/// Finds the differences between two values at a path.
pub fn diff_json(base: &Json, current: &Json, path: &str, rules: &IgnoreRules) -> (r: Vec<
    FieldDiff,
>)
    ensures
        diff_views(r@) == diffs(json::tree_of(*base), json::tree_of(*current), path@, rules@),
    decreases base,
{
    let mut out: Vec<FieldDiff> = Vec::new();
    assert(diff_views(out@) =~= Seq::<Diff>::empty());
    if rules.matches(path) {
        return out;
    }
    match (base, current) {
        (Json::Object(x), Json::Object(y)) => {
            let ghost xs = json::member_trees(x@);
            let ghost ys = json::member_trees(y@);
            proof {
                json::lemma_object(*x);
                json::lemma_object(*y);
            }
            let list = list_names(x, y);
            let ghost all = text::texts(list@);
            let n: usize = list.len();
            let mut i: usize = 0;
            assert(diff_views(out@) =~= member_diffs(xs, ys, all.take(0), path@, rules@));
            while i < n
                invariant
                    i <= n == list@.len(),
                    all == text::texts(list@),
                    xs == json::member_trees(x@),
                    ys == json::member_trees(y@),
                    *base == Json::Object(*x),
                    diff_views(out@) == member_diffs(xs, ys, all.take(i as int), path@, rules@),
                decreases n - i,
            {
                let name = &list[i];
                let at = write_member_path(path, name);
                proof {
                    assert(all.take(i + 1).drop_last() =~= all.take(i as int));
                    assert(all.take(i + 1).last() == name@);
                    json::lemma_position(xs, name@);
                    json::lemma_position(ys, name@);
                }
                match (json::find_member(x, name), json::find_member(y, name)) {
                    (Some(j), Some(k)) => {
                        proof {
                            assert(decreases_to!(*base => base->Object_0));
                            assert(decreases_to!(*x => x@));
                            assert(decreases_to!(x@ => x@[j as int]));
                            assert(decreases_to!(x@[j as int] => x@[j as int].1));
                        }
                        let more = diff_json(&x[j].1, &y[k].1, &at, rules);
                        append_diffs(&mut out, more);
                    },
                    (Some(j), None) => {
                        let d = one_sided(at, &x[j].1, true);
                        proof {
                            lemma_diff_push(out@, d);
                            assert(diff_views(out@).push(d@) =~= diff_views(out@) + seq![d@]);
                        }
                        out.push(d);
                    },
                    (None, Some(k)) => {
                        let d = one_sided(at, &y[k].1, false);
                        proof {
                            lemma_diff_push(out@, d);
                            assert(diff_views(out@).push(d@) =~= diff_views(out@) + seq![d@]);
                        }
                        out.push(d);
                    },
                    (None, None) => {
                        assert(diff_views(out@) + Seq::<Diff>::empty() =~= diff_views(out@));
                    },
                }
                i += 1;
            }
            assert(all.take(n as int) =~= all);
            out
        },
        (Json::List(x), Json::List(y)) => {
            let ghost xs = json::item_trees(x@);
            let ghost ys = json::item_trees(y@);
            proof {
                json::lemma_list(*x);
                json::lemma_list(*y);
            }
            let n: usize = if x.len() >= y.len() {
                x.len()
            } else {
                y.len()
            };
            let mut i: usize = 0;
            while i < n
                invariant
                    i <= n,
                    n >= x@.len(),
                    n >= y@.len(),
                    n == x@.len() || n == y@.len(),
                    xs == json::item_trees(x@),
                    ys == json::item_trees(y@),
                    *base == Json::List(*x),
                    diff_views(out@) == item_diffs(xs, ys, i as nat, path@, rules@),
                decreases n - i,
            {
                let at = write_item_path(path, i);
                proof {
                    assert((i + 1 - 1) as nat == i as nat);
                }
                if i < x.len() && i < y.len() {
                    proof {
                        assert(decreases_to!(*base => base->List_0));
                        assert(decreases_to!(*x => x@));
                        assert(decreases_to!(x@ => x@[i as int]));
                    }
                    let more = diff_json(&x[i], &y[i], &at, rules);
                    append_diffs(&mut out, more);
                } else if i < x.len() {
                    let d = one_sided(at, &x[i], true);
                    proof {
                        lemma_diff_push(out@, d);
                        assert(diff_views(out@).push(d@) =~= diff_views(out@) + seq![d@]);
                    }
                    out.push(d);
                } else {
                    let d = one_sided(at, &y[i], false);
                    proof {
                        lemma_diff_push(out@, d);
                        assert(diff_views(out@).push(d@) =~= diff_views(out@) + seq![d@]);
                    }
                    out.push(d);
                }
                i += 1;
            }
            out
        },
        _ => {
            if !json::is_same(base, current) {
                let d = FieldDiff {
                    path: text::owned(path),
                    kind: DiffKind::Value,
                    baseline: Some(value_summary(base)),
                    current: Some(value_summary(current)),
                };
                proof {
                    lemma_diff_push(out@, d);
                    assert(diff_views(out@).push(d@) =~= seq![d@]);
                }
                out.push(d);
            }
            out
        },
    }
}

// ---------------------------------------------------------------------------
// Laws
// ---------------------------------------------------------------------------

/// A text without brackets in front of a rule and of a path changes nothing.
proof fn lemma_covers_behind(front: Seq<char>, rule: Seq<char>, path: Seq<char>)
    requires
        !front.contains('['),
    ensures
        covers(front + rule, front + path) == covers(rule, path),
    decreases front.len(),
{
    if front.len() == 0 {
        assert(front + rule =~= rule);
        assert(front + path =~= path);
    } else {
        let rest = front.drop_first();
        assert(front[0] != '[') by {
            assert(front.contains(front[0]));
        }
        assert(!rest.contains('[')) by {
            if rest.contains('[') {
                let i = choose|i: int| 0 <= i < rest.len() && rest[i] == '[';
                assert(front[i + 1] == '[');
            }
        }
        lemma_covers_behind(rest, rule, path);
        assert((front + rule).skip(1) =~= rest + rule);
        assert((front + path).skip(1) =~= rest + path);
    }
}

/// The digits in front of a text that begins with another character are those before it.
proof fn lemma_digits_before(digits: Seq<char>, rest: Seq<char>)
    requires
        number::all_digits(digits),
        rest.len() > 0,
        !text::is_digit(rest[0]),
    ensures
        digits_in_front(digits + rest) == digits.len(),
    decreases digits.len(),
{
    if digits.len() == 0 {
        assert(digits + rest =~= rest);
    } else {
        assert(text::is_digit(digits[0]));
        assert forall|i: int| 0 <= i < digits.drop_first().len() implies text::is_digit(
            #[trigger] digits.drop_first()[i],
        ) by {
            assert(text::is_digit(digits[i + 1]));
        }
        lemma_digits_before(digits.drop_first(), rest);
        assert((digits + rest).drop_first() =~= digits.drop_first() + rest);
    }
}

/// A rule without brackets covers the path that it is, and no other.
pub proof fn law_plain_rule_covers_one_path(rule: Seq<char>, path: Seq<char>)
    requires
        !rule.contains('['),
    ensures
        covers(rule, path) <==> rule == path,
    decreases rule.len(),
{
    if rule.len() == 0 {
        assert(path.len() == 0 ==> rule =~= path);
    } else {
        let rest = rule.skip(1);
        assert(rule[0] != '[') by {
            assert(rule.contains(rule[0]));
        }
        assert(!rest.contains('[')) by {
            if rest.contains('[') {
                let i = choose|i: int| 0 <= i < rest.len() && rest[i] == '[';
                assert(rule[i + 1] == '[');
            }
        }
        if path.len() > 0 {
            law_plain_rule_covers_one_path(rest, path.skip(1));
            assert(rule =~= seq![rule[0]] + rest);
            assert(path =~= seq![path[0]] + path.skip(1));
        }
    }
}

/// `[*]` in a rule covers every item of a list.
pub proof fn law_star_covers_every_item(
    front: Seq<char>,
    i: nat,
    rule: Seq<char>,
    path: Seq<char>,
)
    requires
        !front.contains('['),
    ensures
        covers(front + "[*]"@ + rule, item_path(front, i) + path) == covers(rule, path),
{
    reveal_strlit("[*]");
    reveal_strlit("[");
    reveal_strlit("]");
    let digits = number::decimal(i);
    let tail = "]"@ + path;
    number::lemma_decimal_digits(i);
    lemma_digits_before(digits, tail);
    let a = "[*]"@ + rule;
    let b = "["@ + digits + tail;
    lemma_covers_behind(front, a, b);
    assert(front + "[*]"@ + rule =~= front + a);
    assert(item_path(front, i) + path =~= front + b);
    assert(a.skip(3) =~= rule);
    assert(b.skip(1) =~= digits + tail);
    let n = digits.len() as int;
    assert(b.skip(n + 2) =~= path);
    assert(b[n + 1] == ']');
}

/// The names of two objects are those of the one and those of the other.
proof fn lemma_all_names(
    x: Seq<(Seq<char>, json::Tree)>,
    y: Seq<(Seq<char>, json::Tree)>,
    name: Seq<char>,
)
    ensures
        all_names(x, y).contains(name) <==> json::position(x, name) < x.len() || json::position(
            y,
            name,
        ) < y.len(),
{
    let all = names(x) + names(y);
    text::lemma_unique(order::sorted_texts(all));
    order::lemma_sorted_by(all, order::text_order());
    assert(order::sorted_texts(all).contains(name) <==> all.contains(name));
    json::lemma_position(x, name);
    json::lemma_position(y, name);
    let i = json::position(x, name);
    let j = json::position(y, name);
    if i < x.len() {
        assert(all[i] == name);
    } else if j < y.len() {
        assert(all[x.len() + j] == name);
    } else if all.contains(name) {
        let k = choose|k: int| 0 <= k < all.len() && all[k] == name;
        if k < x.len() {
            assert(x[k].0 == name);
        } else {
            assert(y[k - x.len()].0 == name);
        }
    }
}

/// Values that are the same have no differences.
pub proof fn law_same_values_have_no_differences(
    b: json::Tree,
    c: json::Tree,
    path: Seq<char>,
    rules: Seq<Seq<char>>,
)
    requires
        json::same_value(b, c),
    ensures
        diffs(b, c, path, rules) == Seq::<Diff>::empty(),
    decreases b, 0int,
{
    match (b, c) {
        (json::Tree::Object(x), json::Tree::Object(y)) => {
            assert forall|name: Seq<char>| #[trigger] all_names(x, y).contains(name) implies {
                &&& json::position(x, name) < x.len()
                &&& json::position(y, name) < y.len()
            } by {
                lemma_all_names(x, y, name);
                json::lemma_position(x, name);
                json::lemma_position(y, name);
                if json::position(x, name) < x.len() {
                    assert(x[json::position(x, name)].0 == name);
                } else {
                    assert(y[json::position(y, name)].0 == name);
                }
            }
            lemma_same_members(x, y, all_names(x, y), path, rules);
        },
        (json::Tree::List(x), json::Tree::List(y)) => {
            lemma_same_items(x, y, x.len(), path, rules);
        },
        _ => {},
    }
}

/// Members that are the same have no differences.
proof fn lemma_same_members(
    x: Seq<(Seq<char>, json::Tree)>,
    y: Seq<(Seq<char>, json::Tree)>,
    list: Seq<Seq<char>>,
    path: Seq<char>,
    rules: Seq<Seq<char>>,
)
    requires
        json::same_value(json::Tree::Object(x), json::Tree::Object(y)),
        forall|name: Seq<char>| #[trigger] list.contains(name) ==> {
            &&& json::position(x, name) < x.len()
            &&& json::position(y, name) < y.len()
        },
    ensures
        member_diffs(x, y, list, path, rules) == Seq::<Diff>::empty(),
    decreases x, list.len(),
{
    if list.len() > 0 {
        let name = list.last();
        let front = list.drop_last();
        assert forall|t: Seq<char>| #[trigger] front.contains(t) implies list.contains(t) by {
            let i = choose|i: int| 0 <= i < front.len() && front[i] == t;
            assert(list[i] == t);
        }
        lemma_same_members(x, y, front, path, rules);
        assert(list.contains(name));
        json::lemma_position(x, name);
        json::lemma_position(y, name);
        let i = json::position(x, name);
        let j = json::position(y, name);
        assert(json::same_value(x[i].1, y[j].1));
        law_same_values_have_no_differences(x[i].1, y[j].1, member_path(path, name), rules);
    }
}

/// Items that are the same have no differences.
proof fn lemma_same_items(
    x: Seq<json::Tree>,
    y: Seq<json::Tree>,
    n: nat,
    path: Seq<char>,
    rules: Seq<Seq<char>>,
)
    requires
        json::same_value(json::Tree::List(x), json::Tree::List(y)),
        n <= x.len(),
    ensures
        item_diffs(x, y, n, path, rules) == Seq::<Diff>::empty(),
    decreases x, n,
{
    if n > 0 {
        let k = (n - 1) as nat;
        lemma_same_items(x, y, k, path, rules);
        assert(json::same_value(x[k as int], y[k as int]));
        law_same_values_have_no_differences(x[k as int], y[k as int], item_path(path, k), rules);
    }
}

/// Where no field is left out, values without differences are the same.
pub proof fn law_no_differences_means_same_values(b: json::Tree, c: json::Tree, path: Seq<char>)
    requires
        diffs(b, c, path, seq![]) == Seq::<Diff>::empty(),
    ensures
        json::same_value(b, c),
    decreases b, 0int,
{
    match (b, c) {
        (json::Tree::Object(x), json::Tree::Object(y)) => {
            let list = all_names(x, y);
            assert forall|i: int| 0 <= i < x.len() implies json::position(y, (#[trigger] x[i]).0)
                < y.len() by {
                json::lemma_position(x, x[i].0);
                lemma_all_names(x, y, x[i].0);
                lemma_undiffering_member(x, y, list, path, x[i].0);
            }
            assert forall|j: int| 0 <= j < y.len() implies json::position(x, (#[trigger] y[j]).0)
                < x.len() by {
                json::lemma_position(y, y[j].0);
                lemma_all_names(x, y, y[j].0);
                lemma_undiffering_member(x, y, list, path, y[j].0);
            }
            assert forall|i: int, j: int|
                0 <= i < x.len() && 0 <= j < y.len() && i == json::position(x, x[i].0) && j
                    == json::position(y, x[i].0) implies json::same_value(
                (#[trigger] x[i]).1,
                (#[trigger] y[j]).1,
            ) by {
                lemma_all_names(x, y, x[i].0);
                lemma_undiffering_member(x, y, list, path, x[i].0);
            }
        },
        (json::Tree::List(x), json::Tree::List(y)) => {
            let n = if x.len() >= y.len() {
                x.len()
            } else {
                y.len()
            };
            lemma_undiffering_items(x, y, n, path);
        },
        _ => {
            if !json::same_value(b, c) {
                assert(diffs(b, c, path, seq![]).len() == 1);
            }
        },
    }
}

/// A member without differences is there on both sides, and the same.
proof fn lemma_undiffering_member(
    x: Seq<(Seq<char>, json::Tree)>,
    y: Seq<(Seq<char>, json::Tree)>,
    list: Seq<Seq<char>>,
    path: Seq<char>,
    name: Seq<char>,
)
    requires
        member_diffs(x, y, list, path, seq![]) == Seq::<Diff>::empty(),
        list.contains(name),
        json::position(x, name) < x.len() || json::position(y, name) < y.len(),
    ensures
        json::position(x, name) < x.len(),
        json::position(y, name) < y.len(),
        json::same_value(x[json::position(x, name)].1, y[json::position(y, name)].1),
    decreases x, list.len(),
{
    json::lemma_position(x, name);
    json::lemma_position(y, name);
    let last = list.last();
    let i = json::position(x, last);
    let j = json::position(y, last);
    let at = member_path(path, last);
    let front = member_diffs(x, y, list.drop_last(), path, seq![]);
    let own = if 0 <= i < x.len() {
        if 0 <= j < y.len() {
            diffs(x[i].1, y[j].1, at, seq![])
        } else {
            seq![lost(at, x[i].1)]
        }
    } else if 0 <= j < y.len() {
        seq![gained(at, y[j].1)]
    } else {
        seq![]
    };
    assert(member_diffs(x, y, list, path, seq![]) == front + own);
    assert((front + own).len() == 0);
    assert(front =~= Seq::<Diff>::empty());
    assert(own =~= Seq::<Diff>::empty());
    if name == last {
        if i < x.len() && j < y.len() {
            law_no_differences_means_same_values(x[i].1, y[j].1, at);
        } else {
            assert(own.len() == 1);
        }
    } else {
        let k = choose|k: int| 0 <= k < list.len() && list[k] == name;
        assert(list.drop_last()[k] == name);
        lemma_undiffering_member(x, y, list.drop_last(), path, name);
    }
}

/// Items without differences are there on both sides, and the same.
proof fn lemma_undiffering_items(
    x: Seq<json::Tree>,
    y: Seq<json::Tree>,
    n: nat,
    path: Seq<char>,
)
    requires
        item_diffs(x, y, n, path, seq![]) == Seq::<Diff>::empty(),
        n <= x.len() || n <= y.len(),
    ensures
        n <= x.len(),
        n <= y.len(),
        forall|i: int| 0 <= i < n ==> json::same_value(#[trigger] x[i], y[i]),
    decreases x, n,
{
    if n > 0 {
        let k = (n - 1) as nat;
        let at = item_path(path, k);
        let front = item_diffs(x, y, k, path, seq![]);
        let own = if k < x.len() {
            if k < y.len() {
                diffs(x[k as int], y[k as int], at, seq![])
            } else {
                seq![lost(at, x[k as int])]
            }
        } else if k < y.len() {
            seq![gained(at, y[k as int])]
        } else {
            seq![]
        };
        assert(item_diffs(x, y, n, path, seq![]) == front + own);
        assert((front + own).len() == 0);
        assert(front =~= Seq::<Diff>::empty());
        assert(own =~= Seq::<Diff>::empty());
        lemma_undiffering_items(x, y, k, path);
        if k < x.len() && k < y.len() {
            law_no_differences_means_same_values(x[k as int], y[k as int], at);
        } else {
            assert(own.len() == 1);
        }
    }
}

/// Two values that are no two objects and no two lists differ exactly where they are not the same,
/// and the difference tells both; a path that is ignored has no differences at all.
pub proof fn law_values_differ_once(
    b: json::Tree,
    c: json::Tree,
    path: Seq<char>,
    rules: Seq<Seq<char>>,
)
    ensures
        rules.contains(path) ==> diffs(b, c, path, rules).len() == 0,
        !(b is Object && c is Object) && !(b is List && c is List) && !is_ignored(rules, path) ==> {
            &&& json::same_value(b, c) ==> diffs(b, c, path, rules).len() == 0
            &&& !json::same_value(b, c) ==> diffs(b, c, path, rules) == seq![
                Diff {
                    path,
                    kind: DiffKind::Value,
                    baseline: Some(summary(b)),
                    current: Some(summary(c)),
                },
            ]
        },
{
    if rules.contains(path) {
        let i = choose|i: int| 0 <= i < rules.len() && rules[i] == path;
        assert(rules[i] == path);
    }
}

/// What is said of a value in short.
pub proof fn law_summaries(
    n: json::Numeral,
    s: Seq<char>,
    items: Seq<json::Tree>,
    members: Seq<(Seq<char>, json::Tree)>,
)
    ensures
        summary(json::Tree::Null) == "null"@,
        summary(json::Tree::Bool(true)) == "true"@,
        summary(json::Tree::Bool(false)) == "false"@,
        summary(json::Tree::Number(n)) == n.text,
        summary(json::Tree::Text(s)) == s,
        summary(json::Tree::List(items)) == "["@ + number::decimal(items.len()) + " 项]"@,
        summary(json::Tree::Object(members)) == "{"@ + number::decimal(members.len()) + "}"@,
{
}

/// A part of a whole holds what the part before it holds.
proof fn lemma_held(a: Seq<Diff>, b: Seq<Diff>, d: Diff)
    ensures
        (a + b).contains(d) <==> a.contains(d) || b.contains(d),
{
    if a.contains(d) {
        let i = choose|i: int| 0 <= i < a.len() && a[i] == d;
        assert((a + b)[i] == d);
    }
    if b.contains(d) {
        let i = choose|i: int| 0 <= i < b.len() && b[i] == d;
        assert((a + b)[a.len() + i] == d);
    }
    if (a + b).contains(d) {
        let i = choose|i: int| 0 <= i < (a + b).len() && (a + b)[i] == d;
        if i < a.len() {
            assert(a[i] == d);
        } else {
            assert(b[i - a.len()] == d);
        }
    }
}

/// Whether a difference is one at the member of two objects with a name: that only one of them has
/// it, or one within what both have.
pub open spec fn is_at_member(
    x: Seq<(Seq<char>, json::Tree)>,
    y: Seq<(Seq<char>, json::Tree)>,
    name: Seq<char>,
    path: Seq<char>,
    rules: Seq<Seq<char>>,
    d: Diff,
) -> bool {
    let at = path + "."@ + name;
    match (json::member(x, name), json::member(y, name)) {
        (Some(v), None) => d == (Diff {
            path: at,
            kind: DiffKind::Structure,
            baseline: Some(summary(v)),
            current: None,
        }),
        (None, Some(w)) => d == (Diff {
            path: at,
            kind: DiffKind::Structure,
            baseline: None,
            current: Some(summary(w)),
        }),
        (Some(v), Some(w)) => diffs(v, w, at, rules).contains(d),
        (None, None) => false,
    }
}

/// The differences of two objects are those at the names that either has, and no others.
pub proof fn law_differences_of_objects(
    x: Seq<(Seq<char>, json::Tree)>,
    y: Seq<(Seq<char>, json::Tree)>,
    path: Seq<char>,
    rules: Seq<Seq<char>>,
    d: Diff,
)
    requires
        !is_ignored(rules, path),
    ensures
        diffs(json::Tree::Object(x), json::Tree::Object(y), path, rules).contains(d)
            <==> exists|name: Seq<char>| is_at_member(x, y, name, path, rules, d),
{
    let list = all_names(x, y);
    lemma_member_diffs(x, y, list, path, rules, d);
    assert(diffs(json::Tree::Object(x), json::Tree::Object(y), path, rules) == member_diffs(
        x,
        y,
        list,
        path,
        rules,
    ));
    if exists|name: Seq<char>| is_at_member(x, y, name, path, rules, d) {
        let name = choose|name: Seq<char>| is_at_member(x, y, name, path, rules, d);
        json::lemma_position(x, name);
        json::lemma_position(y, name);
        lemma_all_names(x, y, name);
        let k = choose|k: int| 0 <= k < list.len() && list[k] == name;
        assert(is_at_member(x, y, list[k], path, rules, d));
    }
}

/// The differences at some names are those at each of them.
proof fn lemma_member_diffs(
    x: Seq<(Seq<char>, json::Tree)>,
    y: Seq<(Seq<char>, json::Tree)>,
    list: Seq<Seq<char>>,
    path: Seq<char>,
    rules: Seq<Seq<char>>,
    d: Diff,
)
    ensures
        member_diffs(x, y, list, path, rules).contains(d) <==> exists|k: int|
            0 <= k < list.len() && is_at_member(x, y, #[trigger] list[k], path, rules, d),
    decreases list.len(),
{
    let all = member_diffs(x, y, list, path, rules);
    if list.len() > 0 {
        let front = list.drop_last();
        let name = list.last();
        let at = member_path(path, name);
        let i = json::position(x, name);
        let j = json::position(y, name);
        json::lemma_position(x, name);
        json::lemma_position(y, name);
        lemma_member_diffs(x, y, front, path, rules, d);
        let some = member_diffs(x, y, front, path, rules);
        let last = if 0 <= i < x.len() {
            if 0 <= j < y.len() {
                diffs(x[i].1, y[j].1, at, rules)
            } else {
                seq![lost(at, x[i].1)]
            }
        } else if 0 <= j < y.len() {
            seq![gained(at, y[j].1)]
        } else {
            seq![]
        };
        assert(all == some + last);
        lemma_held(some, last, d);
        assert(last.contains(d) <==> is_at_member(x, y, name, path, rules, d)) by {
            if is_at_member(x, y, name, path, rules, d) && !(0 <= i < x.len() && 0 <= j < y.len()) {
                assert(last[0] == d);
            }
        }
        if some.contains(d) {
            let k = choose|k: int|
                0 <= k < front.len() && is_at_member(x, y, #[trigger] front[k], path, rules, d);
            assert(list[k] == front[k]);
        }
        if last.contains(d) {
            assert(is_at_member(x, y, list[list.len() - 1], path, rules, d));
        }
        if exists|k: int|
            0 <= k < list.len() && is_at_member(x, y, #[trigger] list[k], path, rules, d) {
            let k = choose|k: int|
                0 <= k < list.len() && is_at_member(x, y, #[trigger] list[k], path, rules, d);
            if k < front.len() {
                assert(is_at_member(x, y, front[k], path, rules, d));
            }
        }
    }
}

/// Whether a difference is one at the item of two lists with a number: that only one of them has
/// it, or one within what both have.
pub open spec fn is_at_item(
    x: Seq<json::Tree>,
    y: Seq<json::Tree>,
    i: nat,
    path: Seq<char>,
    rules: Seq<Seq<char>>,
    d: Diff,
) -> bool {
    let at = path + "["@ + number::decimal(i) + "]"@;
    if i < x.len() && i < y.len() {
        diffs(x[i as int], y[i as int], at, rules).contains(d)
    } else if i < x.len() {
        d == (Diff {
            path: at,
            kind: DiffKind::Structure,
            baseline: Some(summary(x[i as int])),
            current: None,
        })
    } else if i < y.len() {
        d == (Diff {
            path: at,
            kind: DiffKind::Structure,
            baseline: None,
            current: Some(summary(y[i as int])),
        })
    } else {
        false
    }
}

/// The differences of two lists are those at the numbers that either has, and no others.
pub proof fn law_differences_of_lists(
    x: Seq<json::Tree>,
    y: Seq<json::Tree>,
    path: Seq<char>,
    rules: Seq<Seq<char>>,
    d: Diff,
)
    requires
        !is_ignored(rules, path),
    ensures
        diffs(json::Tree::List(x), json::Tree::List(y), path, rules).contains(d) <==> exists|i: nat|
            is_at_item(x, y, i, path, rules, d),
{
    let n = if x.len() >= y.len() {
        x.len()
    } else {
        y.len()
    };
    lemma_item_diffs(x, y, n, path, rules, d);
    assert(diffs(json::Tree::List(x), json::Tree::List(y), path, rules) == item_diffs(
        x,
        y,
        n,
        path,
        rules,
    ));
}

/// The differences at some numbers are those at each of them.
proof fn lemma_item_diffs(
    x: Seq<json::Tree>,
    y: Seq<json::Tree>,
    n: nat,
    path: Seq<char>,
    rules: Seq<Seq<char>>,
    d: Diff,
)
    ensures
        item_diffs(x, y, n, path, rules).contains(d) <==> exists|i: nat|
            i < n && is_at_item(x, y, i, path, rules, d),
    decreases n,
{
    let all = item_diffs(x, y, n, path, rules);
    if n > 0 {
        let k = (n - 1) as nat;
        let at = item_path(path, k);
        lemma_item_diffs(x, y, k, path, rules, d);
        let some = item_diffs(x, y, k, path, rules);
        let last = if k < x.len() {
            if k < y.len() {
                diffs(x[k as int], y[k as int], at, rules)
            } else {
                seq![lost(at, x[k as int])]
            }
        } else if k < y.len() {
            seq![gained(at, y[k as int])]
        } else {
            seq![]
        };
        assert(all == some + last);
        lemma_held(some, last, d);
        assert(last.contains(d) <==> is_at_item(x, y, k, path, rules, d)) by {
            if is_at_item(x, y, k, path, rules, d) && !(k < x.len() && k < y.len()) {
                assert(last[0] == d);
            }
        }
    }
}

/// The names at which two objects are compared come in order, each once, and are those of either.
pub proof fn law_names_are_compared_in_order(
    x: Seq<(Seq<char>, json::Tree)>,
    y: Seq<(Seq<char>, json::Tree)>,
    name: Seq<char>,
)
    ensures
        all_names(x, y).no_duplicates(),
        all_names(x, y).contains(name) <==> json::member(x, name) is Some || json::member(y, name)
            is Some,
{
    json::lemma_position(x, name);
    json::lemma_position(y, name);
    lemma_all_names(x, y, name);
    text::lemma_unique(order::sorted_texts(names(x) + names(y)));
}

/// A rule is held against a path from the left: a star in brackets takes the brackets with a number
/// in them, and with nothing else; any other character takes itself; and where the rule ends, the
/// path has to end.
pub proof fn law_rules_are_held_against_paths(
    rule: Seq<char>,
    path: Seq<char>,
    c: char,
    d: char,
    inner: Seq<char>,
)
    requires
        c != '[',
        !inner.contains(']'),
    ensures
        covers(seq![], path) <==> path.len() == 0,
        covers(seq![c] + rule, seq![d] + path) <==> c == d && covers(rule, path),
        !covers(seq![c] + rule, seq![]),
        covers(seq!['[', '*', ']'] + rule, seq!['['] + inner + seq![']'] + path) <==> inner.len() > 0
            && (forall|i: int| 0 <= i < inner.len() ==> '0' <= #[trigger] inner[i] <= '9')
            && covers(rule, path),
        d != '[' ==> !covers(seq!['[', '*', ']'] + rule, seq![d] + path),
{
    let r = seq![c] + rule;
    let p = seq![d] + path;
    assert(r.skip(1) =~= rule && p.skip(1) =~= path);
    assert(r[0] == c && p[0] == d);
    let star = seq!['[', '*', ']'] + rule;
    assert(star.skip(3) =~= rule);
    assert(star[0] == '[' && star[1] == '*' && star[2] == ']');
    let q = seq!['['] + inner + seq![']'] + path;
    let rest = inner + seq![']'] + path;
    assert(q.skip(1) =~= rest);
    assert(q[0] == '[');
    let n = digits_in_front(rest);
    lemma_digits_in_front(rest);
    let k = inner.len() as int;
    assert(rest[k] == ']');
    if n < k {
        assert(rest[n] == inner[n]);
        assert(!text::is_digit(inner[n]));
        assert(q[n + 1] == inner[n]);
        assert(inner.contains(inner[n]));
    } else {
        if n > k {
            assert(text::is_digit(rest[k]));
        }
        assert forall|i: int| 0 <= i < k implies '0' <= #[trigger] inner[i] <= '9' by {
            assert(rest[i] == inner[i]);
        }
        assert(q.skip(n + 2) =~= path);
        assert(q[n + 1] == ']');
    }
}

/// The digits in front are digits, and what follows them is none.
proof fn lemma_digits_in_front(s: Seq<char>)
    ensures
        0 <= digits_in_front(s) <= s.len(),
        forall|i: int| 0 <= i < digits_in_front(s) ==> text::is_digit(#[trigger] s[i]),
        digits_in_front(s) < s.len() ==> !text::is_digit(s[digits_in_front(s)]),
    decreases s.len(),
{
    if s.len() > 0 && text::is_digit(s[0]) {
        let t = s.drop_first();
        lemma_digits_in_front(t);
        assert forall|i: int| 0 <= i < digits_in_front(s) implies text::is_digit(
            #[trigger] s[i],
        ) by {
            if i > 0 {
                assert(s[i] == t[i - 1]);
            }
        }
    }
}

} // verus!
