//! Paths into JSON values: `$.a.b[0].c`.
use crate::diff;
use crate::json;
use crate::json::Json;
use crate::number;
use crate::text;
use vstd::prelude::*;

verus! {

/// A step of a path.
#[derive(Debug)]
pub enum Step {
    /// To the member of an object with a name.
    Member(String),
    /// To the item of a list at an index.
    Item(usize),
}

/// The model of a step.
pub enum Move {
    /// To the member of an object with a name.
    Member(Seq<char>),
    /// To the item of a list at an index.
    Item(nat),
}

impl View for Step {
    type V = Move;

    open spec fn view(&self) -> Move {
        match self {
            Step::Member(name) => Move::Member(name@),
            Step::Item(i) => Move::Item(*i as nat),
        }
    }
}

/// The models of steps.
pub open spec fn moves(steps: Seq<Step>) -> Seq<Move> {
    steps.map_values(|s: Step| s@)
}

/// A text without a dot in front.
pub open spec fn without_dot(s: Seq<char>) -> Seq<char> {
    if s.len() > 0 && s[0] == '.' {
        s.skip(1)
    } else {
        s
    }
}

/// The steps with one in front of them.
pub open spec fn preceded(first: Move, rest: Option<Seq<Move>>) -> Option<Seq<Move>> {
    match rest {
        Some(steps) => Some(seq![first] + steps),
        None => None,
    }
}

/// The steps of a path behind its `$`: a name, which may have a dot in front of it, or a number in
/// brackets. There are none where a bracket is not closed or holds no number.
pub open spec fn steps_of(s: Seq<char>) -> Option<Seq<Move>>
    decreases s.len(),
{
    if s.len() == 0 {
        Some(seq![])
    } else {
        let t = without_dot(s);
        if t.len() > 0 && t[0] == '[' {
            let inner = t.skip(1);
            let end = text::upto(inner, ']', ']');
            if 0 <= end < inner.len() {
                match number::parsed(inner.take(end), usize::MAX as nat) {
                    Some(i) => preceded(Move::Item(i), steps_of(inner.skip(end + 1))),
                    None => None,
                }
            } else {
                None
            }
        } else {
            let end = text::upto(t, '.', '[');
            if 0 <= end <= t.len() && t.len() - end < s.len() {
                preceded(Move::Member(t.take(end)), steps_of(t.skip(end)))
            } else {
                None
            }
        }
    }
}

/// A path without its `$`.
pub open spec fn without_root(path: Seq<char>) -> Seq<char> {
    if path.len() > 0 && path[0] == '$' {
        path.skip(1)
    } else {
        path
    }
}

/// What steps lead to.
pub open spec fn reached(t: json::Tree, steps: Seq<Move>) -> Option<json::Tree>
    decreases steps.len(),
{
    if steps.len() == 0 {
        Some(t)
    } else {
        match (t, steps[0]) {
            (json::Tree::Object(members), Move::Member(name)) => match json::member(members, name) {
                Some(v) => reached(v, steps.drop_first()),
                None => None,
            },
            (json::Tree::List(items), Move::Item(i)) => if i < items.len() {
                reached(items[i as int], steps.drop_first())
            } else {
                None
            },
            _ => None,
        }
    }
}

/// What a path leads to.
pub open spec fn at(t: json::Tree, path: Seq<char>) -> Option<json::Tree> {
    match steps_of(without_root(path)) {
        Some(steps) => reached(t, steps),
        None => None,
    }
}

/// The result of reading the rest of a path, where some steps have been read.
spec fn resumed(done: Seq<Move>, rest: Option<Seq<Move>>) -> Option<Seq<Move>> {
    match rest {
        Some(steps) => Some(done + steps),
        None => None,
    }
}

/// One more step before the rest.
proof fn lemma_resumed(done: Seq<Move>, m: Move, rest: Option<Seq<Move>>)
    ensures
        resumed(done, preceded(m, rest)) == resumed(done.push(m), rest),
{
    if let Some(steps) = rest {
        assert(done + (seq![m] + steps) =~= done.push(m) + steps);
    }
}

/// One more step has one more model.
proof fn lemma_moves_push(steps: Seq<Step>, s: Step)
    ensures
        moves(steps.push(s)) == moves(steps).push(s@),
{
    assert(moves(steps.push(s)) =~= moves(steps).push(s@));
}

/// Reads the steps of a path.
fn read_steps(path: &str) -> (r: Option<Vec<Step>>)
    ensures
        match r {
            Some(steps) => steps_of(without_root(path@)) == Some(moves(steps@)),
            None => steps_of(without_root(path@)) is None,
        },
{
    let all = text::chars_of(path);
    let start: usize = if all.len() > 0 && all[0] == '$' {
        1
    } else {
        0
    };
    let mut rest = text::skip(&all, start);
    let ghost whole = without_root(path@);
    assert(rest@ =~= whole);
    let mut out: Vec<Step> = Vec::new();
    proof {
        if let Some(steps) = steps_of(whole) {
            assert(moves(out@) + steps =~= steps);
        }
    }
    while rest.len() > 0
        invariant
            whole == without_root(path@),
            steps_of(whole) == resumed(moves(out@), steps_of(rest@)),
        decreases rest@.len(),
    {
        let t = if rest[0] == '.' {
            text::skip(rest, 1)
        } else {
            rest
        };
        assert(t@ == without_dot(rest@));
        if t.len() > 0 && t[0] == '[' {
            let inner = text::skip(t, 1);
            let end = text::index_of_either(inner, ']', ']');
            if end >= inner.len() {
                return None;
            }
            match number::parse(text::take(inner, end), usize::MAX as u64) {
                Some(i) => {
                    let next = text::skip(inner, end + 1);
                    let step = Step::Item(i as usize);
                    proof {
                        lemma_moves_push(out@, step);
                        lemma_resumed(moves(out@), step@, steps_of(next@));
                    }
                    out.push(step);
                    rest = next;
                },
                None => {
                    return None;
                },
            }
        } else {
            let end = text::index_of_either(t, '.', '[');
            proof {
                text::lemma_upto(t@, '.', '[');
            }
            let next = text::skip(t, end);
            let step = Step::Member(text::string_of(text::take(t, end)));
            proof {
                lemma_moves_push(out@, step);
                lemma_resumed(moves(out@), step@, steps_of(next@));
            }
            out.push(step);
            rest = next;
        }
    }
    proof {
        assert(moves(out@) + Seq::<Move>::empty() =~= moves(out@));
    }
    Some(out)
}

/// Finds what a path leads to.
pub fn json_path_get<'a>(value: &'a Json, path: &str) -> (r: Option<&'a Json>)
    ensures
        match r {
            Some(v) => at(json::tree_of(*value), path@) == Some(json::tree_of(*v)),
            None => at(json::tree_of(*value), path@) is None,
        },
{
    let steps = match read_steps(path) {
        Some(steps) => steps,
        None => {
            return None;
        },
    };
    let ghost all = moves(steps@);
    let n: usize = steps.len();
    let mut here: &Json = value;
    let mut i: usize = 0;
    assert(all.skip(0) =~= all);
    while i < n
        invariant
            i <= n == steps@.len(),
            all == moves(steps@),
            at(json::tree_of(*value), path@) == reached(json::tree_of(*here), all.skip(i as int)),
        decreases n - i,
    {
        proof {
            assert(all.skip(i as int)[0] == steps@[i as int]@);
            assert(all.skip(i as int).drop_first() =~= all.skip(i + 1));
        }
        match (here, &steps[i]) {
            (Json::Object(members), Step::Member(name)) => {
                proof {
                    json::lemma_object(*members);
                    json::lemma_position(json::member_trees(members@), name@);
                }
                match json::find_member(members, name) {
                    Some(k) => {
                        here = &members[k].1;
                    },
                    None => {
                        return None;
                    },
                }
            },
            (Json::List(items), Step::Item(k)) => {
                proof {
                    json::lemma_list(*items);
                }
                if *k >= items.len() {
                    return None;
                }
                here = &items[*k];
            },
            _ => {
                return None;
            },
        }
        i += 1;
    }
    Some(here)
}

/// Writes what a path leads to in one line.
pub(crate) fn text_at(value: &serde_json::Value, path: &str) -> (r: Option<String>)
    ensures
        match r {
            Some(s) => at(json::json_tree(*value), path@) matches Some(t) && s@
                == json::json_compact(t),
            None => at(json::json_tree(*value), path@) is None,
        },
{
    let steps = match read_steps(path) {
        Some(steps) => steps,
        None => {
            return None;
        },
    };
    let ghost all = moves(steps@);
    let n: usize = steps.len();
    let mut here: &serde_json::Value = value;
    let mut i: usize = 0;
    assert(all.skip(0) =~= all);
    while i < n
        invariant
            i <= n == steps@.len(),
            all == moves(steps@),
            at(json::json_tree(*value), path@) == reached(
                json::json_tree(*here),
                all.skip(i as int),
            ),
        decreases n - i,
    {
        proof {
            assert(all.skip(i as int)[0] == steps@[i as int]@);
            assert(all.skip(i as int).drop_first() =~= all.skip(i + 1));
        }
        let next = match &steps[i] {
            Step::Member(name) => json::get_member(here, name),
            Step::Item(k) => json::get_item(here, *k),
        };
        match next {
            Some(v) => {
                here = v;
            },
            None => {
                return None;
            },
        }
        i += 1;
    }
    Some(json::compact(here))
}

// ---------------------------------------------------------------------------
// Laws
// ---------------------------------------------------------------------------

/// The steps of a path and of what is written behind it are taken one after the other. A dot at
/// the end of the path would take a bracket behind it for its own.
proof fn lemma_steps_appended(s: Seq<char>, tail: Seq<char>)
    requires
        steps_of(s) is Some,
        steps_of(tail) is Some,
        tail.len() > 0,
        tail[0] == '.' || (tail[0] == '[' && (s.len() == 0 || s.last() != '.')),
    ensures
        steps_of(s + tail) == Some(steps_of(s)->0 + steps_of(tail)->0),
    decreases s.len(),
{
    if s.len() == 0 {
        assert(s + tail =~= tail);
        assert(steps_of(s)->0 + steps_of(tail)->0 =~= steps_of(tail)->0);
    } else {
        let t = without_dot(s);
        assert(without_dot(s + tail) =~= t + tail);
        if t.len() > 0 && t[0] == '[' {
            let inner = t.skip(1);
            let end = text::upto(inner, ']', ']');
            text::lemma_upto(inner, ']', ']');
            assert((t + tail).skip(1) =~= inner + tail);
            assert forall|j: int| 0 <= j < end implies (inner + tail)[j] != ']' by {
                assert((inner + tail)[j] == inner[j]);
            }
            assert((inner + tail)[end] == inner[end]);
            text::lemma_upto_is(inner + tail, ']', ']', end);
            let rest = inner.skip(end + 1);
            assert((inner + tail).take(end) =~= inner.take(end));
            assert((inner + tail).skip(end + 1) =~= rest + tail);
            if rest.len() > 0 {
                assert(rest.last() == s.last());
            }
            lemma_steps_appended(rest, tail);
            let m = Move::Item(number::parsed(inner.take(end), usize::MAX as nat)->0);
            assert(seq![m] + (steps_of(rest)->0 + steps_of(tail)->0) =~= (seq![m] + steps_of(
                rest,
            )->0) + steps_of(tail)->0);
        } else {
            let end = text::upto(t, '.', '[');
            text::lemma_upto(t, '.', '[');
            assert forall|j: int| 0 <= j < end implies (t + tail)[j] != '.' && (t + tail)[j]
                != '[' by {
                assert((t + tail)[j] == t[j]);
            }
            if end < t.len() {
                assert((t + tail)[end] == t[end]);
            } else {
                assert((t + tail)[end] == tail[0]);
            }
            text::lemma_upto_is(t + tail, '.', '[', end);
            let rest = t.skip(end);
            assert((t + tail).take(end) =~= t.take(end));
            assert((t + tail).skip(end) =~= rest + tail);
            if rest.len() > 0 {
                assert(rest.last() == s.last());
            }
            if t.len() == 0 {
                assert(s.last() == '.');
                assert((t + tail)[0] == tail[0]);
            } else {
                assert((t + tail)[0] == t[0]);
            }
            lemma_steps_appended(rest, tail);
            let m = Move::Member(t.take(end));
            assert(seq![m] + (steps_of(rest)->0 + steps_of(tail)->0) =~= (seq![m] + steps_of(
                rest,
            )->0) + steps_of(tail)->0);
        }
    }
}

/// Steps are taken one after the other.
proof fn lemma_reached_appended(t: json::Tree, a: Seq<Move>, b: Seq<Move>)
    ensures
        reached(t, a + b) == match reached(t, a) {
            Some(v) => reached(v, b),
            None => None,
        },
    decreases a.len(),
{
    if a.len() == 0 {
        assert(a + b =~= b);
    } else {
        assert((a + b)[0] == a[0]);
        assert((a + b).drop_first() =~= a.drop_first() + b);
        match (t, a[0]) {
            (json::Tree::Object(members), Move::Member(name)) => {
                if let Some(v) = json::member(members, name) {
                    lemma_reached_appended(v, a.drop_first(), b);
                }
            },
            (json::Tree::List(items), Move::Item(i)) => {
                if i < items.len() {
                    lemma_reached_appended(items[i as int], a.drop_first(), b);
                }
            },
            _ => {},
        }
    }
}

/// The path under which a member is compared leads to that member.
pub proof fn law_member_path_leads_to_the_member(
    t: json::Tree,
    path: Seq<char>,
    name: Seq<char>,
)
    requires
        path.len() > 0,
        path[0] == '$',
        steps_of(without_root(path)) is Some,
        !name.contains('.'),
        !name.contains('['),
    ensures
        at(t, diff::member_path(path, name)) == match at(t, path) {
            Some(json::Tree::Object(members)) => json::member(members, name),
            _ => None,
        },
{
    reveal_strlit(".");
    let s = without_root(path);
    let tail = "."@ + name;
    assert(without_root(diff::member_path(path, name)) =~= s + tail);
    assert(without_dot(tail) =~= name);
    assert forall|j: int| 0 <= j < name.len() implies name[j] != '.' && name[j] != '[' by {
        assert(name.contains(name[j]));
    }
    text::lemma_upto_is(name, '.', '[', name.len() as int);
    assert(name.take(name.len() as int) =~= name);
    assert(name.skip(name.len() as int) =~= Seq::<char>::empty());
    let m = Move::Member(name);
    assert(steps_of(Seq::<char>::empty()) == Some(Seq::<Move>::empty()));
    assert(seq![m] + Seq::<Move>::empty() =~= seq![m]);
    assert(steps_of(tail) == Some(seq![m]));
    lemma_steps_appended(s, tail);
    lemma_reached_appended(t, steps_of(s)->0, seq![m]);
    if let Some(v) = at(t, path) {
        lemma_one_step(v, m);
    }
}

/// What one step leads to.
proof fn lemma_one_step(v: json::Tree, m: Move)
    ensures
        reached(v, seq![m]) == match (v, m) {
            (json::Tree::Object(members), Move::Member(name)) => json::member(members, name),
            (json::Tree::List(items), Move::Item(i)) => if i < items.len() {
                Some(items[i as int])
            } else {
                None
            },
            _ => None,
        },
{
    reveal_with_fuel(reached, 2);
    assert(seq![m].drop_first().len() == 0);
}

/// The path under which an item is compared leads to that item.
pub proof fn law_item_path_leads_to_the_item(t: json::Tree, path: Seq<char>, i: nat)
    requires
        path.len() > 0,
        path[0] == '$',
        steps_of(without_root(path)) is Some,
        path.last() != '.',
        i <= usize::MAX,
    ensures
        at(t, diff::item_path(path, i)) == match at(t, path) {
            Some(json::Tree::List(items)) => if i < items.len() {
                Some(items[i as int])
            } else {
                None
            },
            _ => None,
        },
{
    reveal_strlit("[");
    reveal_strlit("]");
    let s = without_root(path);
    let digits = number::decimal(i);
    let inner = digits + "]"@;
    let tail = "["@ + inner;
    assert(without_root(diff::item_path(path, i)) =~= s + tail);
    assert(without_dot(tail) =~= tail);
    assert(tail.skip(1) =~= inner);
    number::lemma_decimal_digits(i);
    number::lemma_padded_decimal_parsed(i, 0, usize::MAX as nat);
    let k = digits.len() as int;
    assert forall|j: int| 0 <= j < k implies inner[j] != ']' by {
        assert(inner[j] == digits[j]);
        assert(text::is_digit(digits[j]));
    }
    assert(inner[k] == ']');
    text::lemma_upto_is(inner, ']', ']', k);
    assert(inner.take(k) =~= digits);
    assert(inner.skip(k + 1) =~= Seq::<char>::empty());
    let m = Move::Item(i);
    assert(steps_of(Seq::<char>::empty()) == Some(Seq::<Move>::empty()));
    assert(seq![m] + Seq::<Move>::empty() =~= seq![m]);
    assert(steps_of(tail) == Some(seq![m]));
    if s.len() > 0 {
        assert(s.last() == path.last());
    }
    lemma_steps_appended(s, tail);
    lemma_reached_appended(t, steps_of(s)->0, seq![m]);
    if let Some(v) = at(t, path) {
        lemma_one_step(v, m);
    }
}

/// The root of a path is the whole, whether its sign is written or not.
pub proof fn law_root_is_the_whole(t: json::Tree)
    ensures
        at(t, "$"@) == Some(t),
        at(t, ""@) == Some(t),
{
    reveal_strlit("$");
    reveal_strlit("");
    assert(without_root("$"@) =~= Seq::<char>::empty());
    assert(without_root(""@) =~= Seq::<char>::empty());
}

/// A name in a path leads to the member with it, and what follows leads on from there; it leads
/// nowhere in a list.
pub proof fn law_name_leads_to_the_member(
    members: Seq<(Seq<char>, json::Tree)>,
    items: Seq<json::Tree>,
    name: Seq<char>,
    rest: Seq<char>,
)
    requires
        name.len() > 0,
        !name.contains('.'),
        !name.contains('['),
        rest.len() == 0 || rest[0] == '.' || rest[0] == '[',
        steps_of(rest) is Some,
    ensures
        at(json::Tree::Object(members), "$."@ + name + rest) == match json::member(members, name) {
            Some(v) => at(v, "$"@ + rest),
            None => None,
        },
        at(json::Tree::List(items), "$."@ + name + rest) is None,
{
    reveal_strlit("$");
    reveal_strlit("$.");
    assert(without_root("$"@ + rest) =~= rest);
    assert(without_root("$."@ + name + rest) =~= seq!['.'] + name + rest);
    lemma_steps_of_name(name, rest);
    let more = steps_of(rest)->0;
    let all = seq![Move::Member(name)] + more;
    assert(all.drop_first() =~= more);
    assert(all[0] == Move::Member(name));
}

/// The first step of a path that begins with a name.
proof fn lemma_steps_of_name(name: Seq<char>, rest: Seq<char>)
    requires
        name.len() > 0,
        !name.contains('.'),
        !name.contains('['),
        rest.len() == 0 || rest[0] == '.' || rest[0] == '[',
    ensures
        steps_of(seq!['.'] + name + rest) == preceded(Move::Member(name), steps_of(rest)),
{
    let s = seq!['.'] + name + rest;
    let t = name + rest;
    assert(s.skip(1) =~= t);
    assert(without_dot(s) == t);
    assert(t[0] == name[0]);
    assert(name.contains(name[0]));
    let n = name.len() as int;
    assert forall|j: int| 0 <= j < n implies t[j] != '.' && t[j] != '[' by {
        assert(t[j] == name[j]);
        assert(name.contains(name[j]));
    }
    if rest.len() > 0 {
        assert(t[n] == rest[0]);
    }
    text::lemma_upto_is(t, '.', '[', n);
    assert(t.take(n) =~= name);
    assert(t.skip(n) =~= rest);
}

/// A number in brackets leads to the item there, and what follows leads on from there; it leads
/// nowhere behind the last item, and in an object.
pub proof fn law_number_leads_to_the_item(
    members: Seq<(Seq<char>, json::Tree)>,
    items: Seq<json::Tree>,
    i: nat,
    rest: Seq<char>,
)
    requires
        i <= usize::MAX,
        steps_of(rest) is Some,
    ensures
        ({
            let path = "$["@ + number::decimal(i) + "]"@ + rest;
            &&& i < items.len() ==> at(json::Tree::List(items), path) == at(
                items[i as int],
                "$"@ + rest,
            )
            &&& i >= items.len() ==> at(json::Tree::List(items), path) is None
            &&& at(json::Tree::Object(members), path) is None
        }),
{
    reveal_strlit("$");
    reveal_strlit("$[");
    reveal_strlit("]");
    assert(without_root("$"@ + rest) =~= rest);
    let digits = number::decimal(i);
    let u = without_root("$["@ + digits + "]"@ + rest);
    assert(u =~= seq!['['] + digits + seq![']'] + rest);
    assert(without_dot(u) == u);
    let inner = u.skip(1);
    assert(inner =~= digits + seq![']'] + rest);
    number::lemma_decimal_digits(i);
    let k = digits.len() as int;
    assert forall|j: int| 0 <= j < k implies inner[j] != ']' by {
        assert(inner[j] == digits[j]);
        assert(text::is_digit(digits[j]));
    }
    assert(inner[k] == ']');
    text::lemma_upto_is(inner, ']', ']', k);
    assert(inner.take(k) =~= digits);
    assert(inner.skip(k + 1) =~= rest);
    number::law_parsed(digits, usize::MAX as nat, i);
    assert(steps_of(u) == preceded(Move::Item(i), steps_of(rest)));
    let more = steps_of(rest)->0;
    let all = seq![Move::Item(i)] + more;
    assert(all.drop_first() =~= more);
    assert(all[0] == Move::Item(i));
}

/// A bracket that is not closed leads nowhere, and neither does one without a number.
pub proof fn law_open_brackets_lead_nowhere(t: json::Tree, s: Seq<char>, rest: Seq<char>)
    requires
        !s.contains(']'),
    ensures
        at(t, "$["@ + s) is None,
        number::parsed(s, usize::MAX as nat) is None ==> at(t, "$["@ + s + "]"@ + rest) is None,
{
    reveal_strlit("$[");
    reveal_strlit("]");
    let o = without_root("$["@ + s);
    assert(o =~= seq!['['] + s);
    assert(o.skip(1) =~= s);
    assert(without_dot(o) == o);
    text::lemma_upto(s, ']', ']');
    let j = text::upto(s, ']', ']');
    if j < s.len() {
        assert(s.contains(s[j]));
    }
    let u = without_root("$["@ + s + "]"@ + rest);
    assert(u =~= seq!['['] + s + seq![']'] + rest);
    assert(without_dot(u) == u);
    let inner = u.skip(1);
    let k = s.len() as int;
    assert(inner =~= s + seq![']'] + rest);
    assert forall|j: int| 0 <= j < k implies inner[j] != ']' by {
        assert(inner[j] == s[j]);
        assert(s.contains(s[j]));
    }
    assert(inner[k] == ']');
    text::lemma_upto_is(inner, ']', ']', k);
    assert(inner.take(k) =~= s);
}

} // verus!
