//! JSON values.
//!
//! Parsing is done by `serde_json`; its values are turned into a type of this library's own,
//! which verified code can read.
use crate::text;
use vstd::prelude::*;

verus! {

/// A number.
#[derive(Debug)]
pub struct Number {
    /// How it is written.
    pub text: String,
    /// Its value, where it is an unsigned integer of 64 bits.
    pub whole: Option<u64>,
    /// The bits of the finite number of the IEEE 754 format binary64 that stands for it.
    pub bits: Option<u64>,
}

/// The model of a number.
pub struct Numeral {
    /// How it is written.
    pub text: Seq<char>,
    /// Its value, where it is an unsigned integer of 64 bits.
    pub whole: Option<u64>,
    /// The bits of the number in the format binary64.
    pub bits: Option<u64>,
}

impl View for Number {
    type V = Numeral;

    open spec fn view(&self) -> Numeral {
        Numeral { text: self.text@, whole: self.whole, bits: self.bits }
    }
}

/// A JSON value.
#[derive(Debug)]
pub enum Json {
    Null,
    Bool(bool),
    Number(Number),
    Text(String),
    List(Vec<Json>),
    /// The members in order.
    Object(Vec<(String, Json)>),
}

/// The model of a JSON value.
pub enum Tree {
    /// `null`.
    Null,
    /// `true` or `false`.
    Bool(bool),
    /// A number.
    Number(Numeral),
    /// A string.
    Text(Seq<char>),
    /// An array.
    List(Seq<Tree>),
    /// An object.
    Object(Seq<(Seq<char>, Tree)>),
}

/// The model of a JSON value.
pub open spec fn tree_of(j: Json) -> Tree
    decreases j,
{
    match j {
        Json::Null => Tree::Null,
        Json::Bool(b) => Tree::Bool(b),
        Json::Number(n) => Tree::Number(n@),
        Json::Text(s) => Tree::Text(s@),
        Json::List(items) => Tree::List(
            Seq::new(
                items@.len(),
                |i: int|
                    if 0 <= i < items@.len() {
                        tree_of(items@[i])
                    } else {
                        Tree::Null
                    },
            ),
        ),
        Json::Object(members) => Tree::Object(
            Seq::new(
                members@.len(),
                |i: int|
                    if 0 <= i < members@.len() {
                        (members@[i].0@, tree_of(members@[i].1))
                    } else {
                        (Seq::empty(), Tree::Null)
                    },
            ),
        ),
    }
}

/// Declares `serde_json::Value`. Its contents are what `json_tree` says.
#[verifier::external_type_specification]
#[verifier::external_body]
pub struct ExValue(serde_json::Value);

/// What a `serde_json::Value` holds.
pub uninterp spec fn json_tree(value: serde_json::Value) -> Tree;

/// What a text is parsed to: a value, or the message of the error.
pub uninterp spec fn json_parsed(s: Seq<char>) -> Result<Tree, Seq<char>>;

/// Parses a text with `serde_json::from_str`.
///
/// Trusted: the outcome, value or message, is a function of the text.
#[verifier::external_body]
pub(crate) fn parse_value(s: &str) -> (r: Result<serde_json::Value, String>)
    ensures
        match r {
            Ok(v) => json_parsed(s@) == Ok::<Tree, Seq<char>>(json_tree(v)),
            Err(e) => json_parsed(s@) == Err::<Tree, Seq<char>>(e@),
        },
{
    serde_json::from_str(s).map_err(|e| e.to_string())
}

/// How a value is written in one line.
pub uninterp spec fn json_compact(t: Tree) -> Seq<char>;

/// Writes a value in one line with `serde_json::Value::to_string`.
///
/// Trusted: the text is a function of what the value holds.
#[verifier::external_body]
pub(crate) fn compact(value: &serde_json::Value) -> (r: String)
    ensures
        r@ == json_compact(json_tree(*value)),
{
    value.to_string()
}

/// Finds a member with `serde_json::Value::get`.
///
/// Trusted: it gives the member of an object with the name; where there is none, and of a value
/// that is no object, it gives nothing.
#[verifier::external_body]
pub(crate) fn get_member<'a>(value: &'a serde_json::Value, name: &str) -> (r: Option<
    &'a serde_json::Value,
>)
    ensures
        match (json_tree(*value), r) {
            (Tree::Object(members), Some(v)) => member(members, name@) == Some(json_tree(*v)),
            (Tree::Object(members), None) => member(members, name@) is None,
            (_, Some(v)) => false,
            (_, None) => true,
        },
{
    value.get(name)
}

/// Finds an item with `serde_json::Value::get`.
///
/// Trusted: it gives the item of an array at the index; behind the last, and of a value that is
/// no array, it gives nothing.
#[verifier::external_body]
pub(crate) fn get_item(value: &serde_json::Value, i: usize) -> (r: Option<&serde_json::Value>)
    ensures
        match (json_tree(*value), r) {
            (Tree::List(items), Some(v)) => i < items.len() && items[i as int] == json_tree(*v),
            (Tree::List(items), None) => i >= items.len(),
            (_, Some(v)) => false,
            (_, None) => true,
        },
{
    value.get(i)
}

/// A `serde_json::Value` whose outermost variant is told apart.
enum Opened<'a> {
    Null,
    Bool(bool),
    Number(Number),
    Text(&'a String),
    List(&'a Vec<serde_json::Value>),
    /// The members in order.
    Object(Vec<(&'a String, &'a serde_json::Value)>),
}

/// What an opened value holds.
spec fn opened_tree(o: Opened) -> Tree {
    match o {
        Opened::Null => Tree::Null,
        Opened::Bool(b) => Tree::Bool(b),
        Opened::Number(n) => Tree::Number(n@),
        Opened::Text(s) => Tree::Text(s@),
        Opened::List(items) => Tree::List(items@.map_values(|v| json_tree(v))),
        Opened::Object(members) => Tree::Object(
            members@.map_values(
                |m: (&String, &serde_json::Value)| (m.0@, json_tree(*m.1)),
            ),
        ),
    }
}

/// Tells apart the variants of a `serde_json::Value`.
///
/// Trusted: each variant becomes its counterpart with what it holds, the items of an array and
/// the members of an object in their order; of a number, the text that it displays as, the value
/// by `serde_json::Number::as_u64`, and the bits of what `serde_json::Number::as_f64` gives.
#[verifier::external_body]
fn open_value<'a>(value: &'a serde_json::Value) -> (r: Opened<'a>)
    ensures
        opened_tree(r) == json_tree(*value),
{
    match value {
        serde_json::Value::Null => Opened::Null,
        serde_json::Value::Bool(b) => Opened::Bool(*b),
        serde_json::Value::Number(n) => {
            let bits = n.as_f64().map(|x| x.to_bits());
            Opened::Number(Number { text: n.to_string(), whole: n.as_u64(), bits })
        },
        serde_json::Value::String(s) => Opened::Text(s),
        serde_json::Value::Array(a) => Opened::List(a),
        serde_json::Value::Object(m) => Opened::Object(m.iter().collect()),
    }
}

/// Turns a `serde_json::Value` into a value of this library.
fn json_of(value: &serde_json::Value) -> (r: Json)
    ensures
        tree_of(r) == json_tree(*value),
    decreases json_tree(*value),
{
    match open_value(value) {
        Opened::Null => Json::Null,
        Opened::Bool(b) => Json::Bool(b),
        Opened::Number(n) => Json::Number(n),
        Opened::Text(s) => Json::Text(text::owned(s.as_str())),
        Opened::List(items) => {
            let ghost trees = json_tree(*value)->List_0;
            let mut out: Vec<Json> = Vec::new();
            let mut i: usize = 0;
            while i < items.len()
                invariant
                    i <= items@.len(),
                    out@.len() == i,
                    json_tree(*value) == Tree::List(trees),
                    trees == items@.map_values(|v| json_tree(v)),
                    forall|k: int| 0 <= k < i ==> tree_of(#[trigger] out@[k]) == trees[k],
                decreases items@.len() - i,
            {
                proof {
                    assert(trees[i as int] == json_tree(items@[i as int]));
                    assert(decreases_to!(json_tree(*value) => json_tree(*value)->List_0));
                    assert(decreases_to!(trees => trees[i as int]));
                }
                out.push(json_of(&items[i]));
                i += 1;
            }
            let r = Json::List(out);
            assert(tree_of(r)->List_0 =~= trees);
            r
        },
        Opened::Object(members) => {
            let ghost trees = json_tree(*value)->Object_0;
            let mut out: Vec<(String, Json)> = Vec::new();
            let mut i: usize = 0;
            while i < members.len()
                invariant
                    i <= members@.len(),
                    out@.len() == i,
                    json_tree(*value) == Tree::Object(trees),
                    trees == members@.map_values(
                        |m: (&String, &serde_json::Value)| (m.0@, json_tree(*m.1)),
                    ),
                    forall|k: int|
                        0 <= k < i ==> (#[trigger] out@[k]).0@ == trees[k].0 && tree_of(out@[k].1)
                            == trees[k].1,
                decreases members@.len() - i,
            {
                let (name, v) = members[i];
                proof {
                    assert(trees[i as int] == (name@, json_tree(*v)));
                    assert(decreases_to!(json_tree(*value) => json_tree(*value)->Object_0));
                    assert(decreases_to!(trees => trees[i as int]));
                    assert(decreases_to!(trees[i as int] => trees[i as int].1));
                }
                out.push((text::owned(name.as_str()), json_of(v)));
                i += 1;
            }
            let r = Json::Object(out);
            assert(tree_of(r)->Object_0 =~= trees);
            r
        },
    }
}

/// The model of an outcome of parsing.
pub open spec fn outcome(r: Result<Json, String>) -> Result<Tree, Seq<char>> {
    match r {
        Ok(j) => Ok(tree_of(j)),
        Err(e) => Err(e@),
    }
}

/// Parses a text.
pub fn parse(s: &str) -> (r: Result<Json, String>)
    ensures
        outcome(r) == json_parsed(s@),
{
    match parse_value(s) {
        Ok(v) => Ok(json_of(&v)),
        Err(e) => Err(e),
    }
}

/// Where the first member of an object with a name stands; behind the last, where there is none.
pub open spec fn position(members: Seq<(Seq<char>, Tree)>, name: Seq<char>) -> int
    decreases members.len(),
{
    if members.len() == 0 || members[0].0 == name {
        0
    } else {
        1 + position(members.drop_first(), name)
    }
}

/// The member of an object with a name: the first.
pub open spec fn member(members: Seq<(Seq<char>, Tree)>, name: Seq<char>) -> Option<Tree> {
    let i = position(members, name);
    if 0 <= i < members.len() {
        Some(members[i].1)
    } else {
        None
    }
}

/// The position is the first with the name.
pub proof fn lemma_position(members: Seq<(Seq<char>, Tree)>, name: Seq<char>)
    ensures
        0 <= position(members, name) <= members.len(),
        position(members, name) < members.len() ==> members[position(members, name)].0 == name,
        forall|i: int|
            0 <= i < position(members, name) && i < members.len() ==> (#[trigger] members[i]).0
                != name,
    decreases members.len(),
{
    if members.len() > 0 && members[0].0 != name {
        let rest = members.drop_first();
        lemma_position(rest, name);
        assert forall|i: int|
            0 <= i < position(members, name) && i < members.len() implies (
        #[trigger] members[i]).0 != name by {
            if i > 0 {
                assert(members[i] == rest[i - 1]);
            }
        }
    }
}

/// The text of a member; empty where there is no such member, or where it is not a string.
pub open spec fn member_text(members: Seq<(Seq<char>, Tree)>, name: Seq<char>) -> Seq<char> {
    match member(members, name) {
        Some(Tree::Text(s)) => s,
        _ => Seq::empty(),
    }
}

/// The value of a member that is an unsigned integer.
pub open spec fn member_number(members: Seq<(Seq<char>, Tree)>, name: Seq<char>) -> Option<u64> {
    match member(members, name) {
        Some(Tree::Number(n)) => n.whole,
        _ => None,
    }
}

/// Finds the member of an object with a name.
pub fn find_member(members: &[(String, Json)], name: &str) -> (r: Option<usize>)
    ensures
        match r {
            Some(i) => i < members@.len() && i == position(member_trees(members@), name@),
            None => position(member_trees(members@), name@) == members@.len(),
        },
{
    let ghost trees = member_trees(members@);
    let n: usize = members.len();
    let mut i: usize = 0;
    assert(trees.skip(0) =~= trees);
    while i < n
        invariant
            i <= n == members@.len(),
            trees == member_trees(members@),
            position(trees, name@) == i + position(trees.skip(i as int), name@),
        decreases n - i,
    {
        assert(trees.skip(i as int)[0] == trees[i as int]);
        if text::same(&members[i].0, name) {
            return Some(i);
        }
        assert(trees.skip(i as int).drop_first() =~= trees.skip(i + 1));
        i += 1;
    }
    None
}

/// The models of the members of an object.
pub open spec fn member_trees(members: Seq<(String, Json)>) -> Seq<(Seq<char>, Tree)> {
    Seq::new(members.len(), |i: int| (members[i].0@, tree_of(members[i].1)))
}

/// The models of the items of an array.
pub open spec fn item_trees(items: Seq<Json>) -> Seq<Tree> {
    Seq::new(items.len(), |i: int| tree_of(items[i]))
}

/// The model of an object holds the models of its members.
pub proof fn lemma_object(members: Vec<(String, Json)>)
    ensures
        tree_of(Json::Object(members)) == Tree::Object(member_trees(members@)),
{
    if let Tree::Object(t) = tree_of(Json::Object(members)) {
        assert(t =~= member_trees(members@));
    }
}

/// The model of an array holds the models of its items.
pub proof fn lemma_list(items: Vec<Json>)
    ensures
        tree_of(Json::List(items)) == Tree::List(item_trees(items@)),
{
    if let Tree::List(t) = tree_of(Json::List(items)) {
        assert(t =~= item_trees(items@));
    }
}

/// Reads the text of a member.
pub fn read_text(members: &[(String, Json)], name: &str) -> (r: String)
    ensures
        r@ == member_text(member_trees(members@), name@),
{
    if let Some(i) = find_member(members, name) {
        if let Json::Text(s) = &members[i].1 {
            return s.clone();
        }
    }
    String::new()
}

/// Reads the value of a member that is an unsigned integer.
pub fn read_number(members: &[(String, Json)], name: &str) -> (r: Option<u64>)
    ensures
        r == member_number(member_trees(members@), name@),
{
    if let Some(i) = find_member(members, name) {
        if let Json::Number(n) = &members[i].1 {
            return n.whole;
        }
    }
    None
}

// ---------------------------------------------------------------------------
// Comparing values
// ---------------------------------------------------------------------------

/// Whether a number is written as a zero that has a sign or a fraction.
pub open spec fn is_zero(n: Numeral) -> bool {
    n.text == "0.0"@ || n.text == "-0.0"@
}

/// Whether two numbers are the same: they are written alike, but for the sign of zero.
pub open spec fn same_number(a: Numeral, b: Numeral) -> bool {
    a.text == b.text || (is_zero(a) && is_zero(b))
}

/// The place of a finite number of the format binary64, given by its bits, among all of them.
/// The two zeros share one.
pub open spec fn rank(bits: u64) -> int {
    if bits < 0x8000_0000_0000_0000 {
        bits as int
    } else {
        0x8000_0000_0000_0000 - bits
    }
}

/// Whether a number is greater than another, in the format binary64.
pub open spec fn exceeds(a: Numeral, b: Numeral) -> bool {
    match (a.bits, b.bits) {
        (Some(x), Some(y)) => rank(x) > rank(y),
        _ => false,
    }
}

/// Whether the members of two objects have the same names.
pub open spec fn same_names(x: Seq<(Seq<char>, Tree)>, y: Seq<(Seq<char>, Tree)>) -> bool {
    &&& forall|i: int| 0 <= i < x.len() ==> position(y, (#[trigger] x[i]).0) < y.len()
    &&& forall|j: int| 0 <= j < y.len() ==> position(x, (#[trigger] y[j]).0) < x.len()
}

/// Whether two values are the same. The order of an object's members does not count.
pub open spec fn same_value(a: Tree, b: Tree) -> bool
    decreases a,
{
    match (a, b) {
        (Tree::Null, Tree::Null) => true,
        (Tree::Bool(x), Tree::Bool(y)) => x == y,
        (Tree::Number(x), Tree::Number(y)) => same_number(x, y),
        (Tree::Text(x), Tree::Text(y)) => x == y,
        (Tree::List(x), Tree::List(y)) => x.len() == y.len() && forall|i: int|
            0 <= i < x.len() ==> same_value(#[trigger] x[i], y[i]),
        (Tree::Object(x), Tree::Object(y)) => {
            &&& same_names(x, y)
            &&& forall|i: int, j: int|
                0 <= i < x.len() && 0 <= j < y.len() && i == position(x, x[i].0) && j == position(
                    y,
                    x[i].0,
                ) ==> same_value((#[trigger] x[i]).1, (#[trigger] y[j]).1)
        },
        _ => false,
    }
}

/// Every value is the same as itself.
pub proof fn lemma_same_value_reflexive(a: Tree)
    ensures
        same_value(a, a),
    decreases a,
{
    match a {
        Tree::List(x) => {
            assert forall|i: int| 0 <= i < x.len() implies same_value(#[trigger] x[i], x[i]) by {
                lemma_same_value_reflexive(x[i]);
            }
        },
        Tree::Object(x) => {
            assert forall|i: int| 0 <= i < x.len() implies position(x, (#[trigger] x[i]).0)
                < x.len() by {
                lemma_position(x, x[i].0);
            }
            assert forall|i: int, j: int|
                0 <= i < x.len() && 0 <= j < x.len() && i == position(x, x[i].0) && j == position(
                    x,
                    x[i].0,
                ) implies same_value((#[trigger] x[i]).1, (#[trigger] x[j]).1) by {
                lemma_same_value_reflexive(x[i].1);
            }
        },
        _ => {},
    }
}

/// Whether a number is greater than another.
pub fn is_greater(a: &Number, b: &Number) -> (r: bool)
    ensures
        r == exceeds(a@, b@),
{
    match (a.bits, b.bits) {
        (Some(x), Some(y)) => {
            let x_is_negative = x >= 0x8000_0000_0000_0000;
            let y_is_negative = y >= 0x8000_0000_0000_0000;
            if x_is_negative && y_is_negative {
                x < y
            } else if x_is_negative {
                false
            } else if y_is_negative {
                x > 0 || y > 0x8000_0000_0000_0000
            } else {
                x > y
            }
        },
        _ => false,
    }
}

/// Whether two numbers are the same.
fn is_same_number(a: &Number, b: &Number) -> (r: bool)
    ensures
        r == same_number(a@, b@),
{
    text::same(&a.text, &b.text) || ((text::same(&a.text, "0.0") || text::same(&a.text, "-0.0"))
        && (text::same(&b.text, "0.0") || text::same(&b.text, "-0.0")))
}

/// Whether two values are the same.
pub fn is_same(a: &Json, b: &Json) -> (r: bool)
    ensures
        r == same_value(tree_of(*a), tree_of(*b)),
    decreases a,
{
    match (a, b) {
        (Json::Null, Json::Null) => true,
        (Json::Bool(x), Json::Bool(y)) => *x == *y,
        (Json::Number(x), Json::Number(y)) => is_same_number(x, y),
        (Json::Text(x), Json::Text(y)) => text::same(x, y),
        (Json::List(x), Json::List(y)) => {
            proof {
                lemma_list(*x);
                lemma_list(*y);
            }
            let n: usize = x.len();
            if n != y.len() {
                return false;
            }
            let mut i: usize = 0;
            while i < n
                invariant
                    i <= n == x@.len() == y@.len(),
                    *a == Json::List(*x),
                    forall|k: int|
                        0 <= k < i ==> same_value(#[trigger] item_trees(x@)[k], item_trees(y@)[k]),
                    tree_of(*a) == Tree::List(item_trees(x@)),
                    tree_of(*b) == Tree::List(item_trees(y@)),
                decreases n - i,
            {
                proof {
                    assert(decreases_to!(*a => a->List_0));
                    assert(decreases_to!(*x => x@));
                    assert(decreases_to!(x@ => x@[i as int]));
                }
                if !is_same(&x[i], &y[i]) {
                    assert(!same_value(item_trees(x@)[i as int], item_trees(y@)[i as int]));
                    return false;
                }
                i += 1;
            }
            true
        },
        (Json::Object(x), Json::Object(y)) => {
            proof {
                lemma_object(*x);
                lemma_object(*y);
            }
            let ghost xs = member_trees(x@);
            let ghost ys = member_trees(y@);
            let n: usize = x.len();
            let mut i: usize = 0;
            while i < n
                invariant
                    i <= n == x@.len(),
                    xs == member_trees(x@),
                    ys == member_trees(y@),
                    *a == Json::Object(*x),
                    tree_of(*a) == Tree::Object(xs),
                    tree_of(*b) == Tree::Object(ys),
                    forall|k: int|
                        0 <= k < i ==> #[trigger] is_matched(xs, ys, xs[k].0),
                decreases n - i,
            {
                let name = &x[i].0;
                let ghost p = position(xs, name@);
                proof {
                    lemma_position(xs, name@);
                    lemma_position(ys, name@);
                    if p > i {
                        assert(xs[i as int].0 == name@);
                    }
                    assert(p <= i);
                }
                match (find_member(x, name), find_member(y, name)) {
                    (Some(j), Some(k)) => {
                        proof {
                            assert(decreases_to!(*a => a->Object_0));
                            assert(decreases_to!(*x => x@));
                            assert(decreases_to!(x@ => x@[j as int]));
                            assert(decreases_to!(x@[j as int] => x@[j as int].1));
                        }
                        if !is_same(&x[j].1, &y[k].1) {
                            proof {
    lemma_objects_differ(xs, ys, name@);
}
                            return false;
                        }
                    },
                    _ => {
                        proof {
    lemma_objects_differ(xs, ys, name@);
}
                        return false;
                    },
                }
                assert(is_matched(xs, ys, xs[i as int].0));
                i += 1;
            }
            let m: usize = y.len();
            let mut j: usize = 0;
            while j < m
                invariant
                    j <= m == y@.len(),
                    xs == member_trees(x@),
                    ys == member_trees(y@),
                    tree_of(*a) == Tree::Object(xs),
                    tree_of(*b) == Tree::Object(ys),
                    forall|k: int|
                        0 <= k < xs.len() ==> #[trigger] is_matched(xs, ys, xs[k].0),
                    forall|k: int|
                        0 <= k < j ==> #[trigger] is_matched(xs, ys, ys[k].0),
                decreases m - j,
            {
                let name = &y[j].0;
                proof {
                    lemma_position(xs, name@);
                    lemma_position(ys, name@);
                    assert(ys[j as int].0 == name@);
                }
                match find_member(x, name) {
                    Some(k) => {
                        assert(is_matched(xs, ys, xs[k as int].0));
                    },
                    None => {
                        proof {
    lemma_objects_differ(xs, ys, name@);
}
                        return false;
                    },
                }
                j += 1;
            }
            proof {
                assert forall|name: Seq<char>| #[trigger] is_matched(xs, ys, name) by {
                    lemma_position(xs, name);
                    lemma_position(ys, name);
                    let p = position(xs, name);
                    let q = position(ys, name);
                    if p < xs.len() {
                        assert(is_matched(xs, ys, xs[p].0));
                    } else if q < ys.len() {
                        assert(is_matched(xs, ys, ys[q].0));
                    }
                }
                lemma_objects_match(xs, ys);
            }
            true
        },
        _ => false,
    }
}

/// Whether two objects have the same member with a name, or none of them has one.
spec fn is_matched(
    x: Seq<(Seq<char>, Tree)>,
    y: Seq<(Seq<char>, Tree)>,
    name: Seq<char>,
) -> bool {
    match (member(x, name), member(y, name)) {
        (Some(a), Some(b)) => same_value(a, b),
        (None, None) => true,
        _ => false,
    }
}

/// Two objects differ where a member does.
proof fn lemma_objects_differ(
    x: Seq<(Seq<char>, Tree)>,
    y: Seq<(Seq<char>, Tree)>,
    name: Seq<char>,
)
    requires
        !is_matched(x, y, name),
    ensures
        !same_value(Tree::Object(x), Tree::Object(y)),
{
    lemma_position(x, name);
    lemma_position(y, name);
    let i = position(x, name);
    let j = position(y, name);
    if same_value(Tree::Object(x), Tree::Object(y)) {
        if i < x.len() {
            assert(x[i].0 == name);
            assert(same_value(x[i].1, y[j].1));
        } else if j < y.len() {
            assert(y[j].0 == name);
        }
    }
}

/// Two objects are the same where all their members are.
proof fn lemma_objects_match(x: Seq<(Seq<char>, Tree)>, y: Seq<(Seq<char>, Tree)>)
    requires
        forall|name: Seq<char>| #[trigger] is_matched(x, y, name),
    ensures
        same_value(Tree::Object(x), Tree::Object(y)),
{
    assert forall|i: int| 0 <= i < x.len() implies position(y, (#[trigger] x[i]).0) < y.len() by {
        assert(is_matched(x, y, x[i].0));
        lemma_position(x, x[i].0);
    }
    assert forall|j: int| 0 <= j < y.len() implies position(x, (#[trigger] y[j]).0) < x.len() by {
        assert(is_matched(x, y, y[j].0));
        lemma_position(y, y[j].0);
    }
    assert forall|i: int, j: int|
        0 <= i < x.len() && 0 <= j < y.len() && i == position(x, x[i].0) && j == position(
            y,
            x[i].0,
        ) implies same_value((#[trigger] x[i]).1, (#[trigger] y[j]).1) by {
        assert(is_matched(x, y, x[i].0));
    }
}

/// Of the members of an object with a name, the first counts; its text is what it is where it is a
/// string, and its number where it is an unsigned integer.
pub proof fn law_first_member_counts(members: Seq<(Seq<char>, Tree)>, name: Seq<char>, i: int)
    requires
        0 <= i <= members.len(),
        forall|j: int| 0 <= j < i ==> (#[trigger] members[j]).0 != name,
    ensures
        i < members.len() && members[i].0 == name ==> {
            &&& member(members, name) == Some(members[i].1)
            &&& members[i].1 matches Tree::Text(s) ==> member_text(members, name) == s
            &&& members[i].1 matches Tree::Number(n) ==> member_number(members, name) == n.whole
            &&& !(members[i].1 is Text) ==> member_text(members, name).len() == 0
            &&& !(members[i].1 is Number) ==> member_number(members, name) is None
        },
        i == members.len() ==> {
            &&& member(members, name) is None
            &&& member_text(members, name).len() == 0
            &&& member_number(members, name) is None
        },
{
    lemma_position(members, name);
    let p = position(members, name);
    if p < i {
        assert(members[p].0 == name);
    }
}

/// Values of different kinds are never the same; booleans and strings are where they are equal,
/// numbers where they are written alike, and lists where their items are, one by one.
pub proof fn law_same_values(a: Tree, b: Tree, x: Seq<Tree>, y: Seq<Tree>)
    ensures
        same_value(Tree::Null, Tree::Null),
        a is Null != b is Null ==> !same_value(a, b),
        a is Bool != b is Bool ==> !same_value(a, b),
        a is Number != b is Number ==> !same_value(a, b),
        a is Text != b is Text ==> !same_value(a, b),
        a is List != b is List ==> !same_value(a, b),
        a is Object != b is Object ==> !same_value(a, b),
        a is Bool && b is Bool ==> (same_value(a, b) <==> a == b),
        a is Text && b is Text ==> (same_value(a, b) <==> a == b),
        a is Number && b is Number ==> {
            let m = a->Number_0.text;
            let n = b->Number_0.text;
            same_value(a, b) <==> m == n || (m == "0.0"@ || m == "-0.0"@) && (n == "0.0"@ || n
                == "-0.0"@)
        },
        x.len() == y.len() ==> (same_value(Tree::List(x.push(a)), Tree::List(y.push(b)))
            <==> same_value(Tree::List(x), Tree::List(y)) && same_value(a, b)),
        x.len() != y.len() ==> !same_value(Tree::List(x), Tree::List(y)),
{
    if x.len() == y.len() {
        let p = x.push(a);
        let q = y.push(b);
        if same_value(Tree::List(p), Tree::List(q)) {
            assert forall|i: int| 0 <= i < x.len() implies same_value(#[trigger] x[i], y[i]) by {
                assert(same_value(p[i], q[i]));
            }
            assert(same_value(p[x.len() as int], q[x.len() as int]));
        }
        if same_value(Tree::List(x), Tree::List(y)) && same_value(a, b) {
            assert forall|i: int| 0 <= i < p.len() implies same_value(#[trigger] p[i], q[i]) by {
                if i < x.len() {
                    assert(same_value(x[i], y[i]));
                }
            }
        }
    }
}

/// Two objects are the same where each has the names of the other and their members under a name
/// are the same; in which order they stand does not count.
pub proof fn law_same_objects(x: Seq<(Seq<char>, Tree)>, y: Seq<(Seq<char>, Tree)>, name: Seq<char>)
    requires
        same_value(Tree::Object(x), Tree::Object(y)),
    ensures
        member(x, name) is Some == member(y, name) is Some,
        member(x, name) is Some ==> same_value(member(x, name)->0, member(y, name)->0),
{
    lemma_position(x, name);
    lemma_position(y, name);
    let i = position(x, name);
    let j = position(y, name);
    if i < x.len() {
        assert(x[i].0 == name);
        assert(position(y, x[i].0) < y.len());
    }
    if j < y.len() {
        assert(y[j].0 == name);
        assert(position(x, y[j].0) < x.len());
    }
    if i < x.len() && j < y.len() {
        assert(same_value(x[i].1, y[j].1));
    }
}

/// Of two numbers one at most is the greater; a positive one exceeds a negative one, and of two
/// of one sign their magnitudes decide. What is no number exceeds none.
pub proof fn law_exceeds(a: Numeral, b: Numeral)
    ensures
        exceeds(a, b) ==> !exceeds(b, a),
        a.bits is None || b.bits is None ==> !exceeds(a, b),
        ({
            let sign = 0x8000_0000_0000_0000u64;
            a.bits is Some && b.bits is Some ==> {
                let x = a.bits->0;
                let y = b.bits->0;
                &&& x < sign && y < sign ==> (exceeds(a, b) <==> x > y)
                &&& x >= sign && y >= sign ==> (exceeds(a, b) <==> x < y)
                &&& x >= sign && y < sign ==> !exceeds(a, b)
                &&& x < sign && y >= sign ==> (exceeds(a, b) <==> x > 0 || y > sign)
            }
        }),
{
}

} // verus!
