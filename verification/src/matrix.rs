//! The feature matrix: what the features of a module call, and what their answers must hold.
use crate::json;
use crate::json::Json;
use crate::json_path;
use crate::text;
use vstd::prelude::*;

verus! {

// ---------------------------------------------------------------------------
// Assertions
// ---------------------------------------------------------------------------

/// What an assertion asks of a value.
#[derive(Debug, Clone, Copy, PartialEq, Eq, Structural)]
pub enum AssertionOp {
    /// That it is the expected value.
    Eq,
    /// That it is there.
    Exists,
    /// That it is not empty.
    NonEmpty,
    /// That it is a number greater than the expected one.
    Gt,
    /// That it is a string with the expected one in it.
    Contains,
}

/// An assertion on the body of an answer.
#[derive(Debug)]
pub struct Assertion {
    /// The path of the value.
    pub path: String,
    pub op: AssertionOp,
    /// The expected value.
    pub value: Option<Json>,
    /// What the assertion is about.
    pub desc: Option<String>,
}

/// The model of an assertion.
pub struct Claim {
    /// The path of the value.
    pub path: Seq<char>,
    /// What is asked of it.
    pub op: AssertionOp,
    /// The expected value.
    pub value: Option<json::Tree>,
    /// What the assertion is about.
    pub desc: Option<Seq<char>>,
}

impl View for Assertion {
    type V = Claim;

    open spec fn view(&self) -> Claim {
        Claim {
            path: self.path@,
            op: self.op,
            value: match self.value {
                Some(v) => Some(json::tree_of(v)),
                None => None,
            },
            desc: text::opt_text(self.desc),
        }
    }
}

/// The models of assertions.
pub open spec fn claims(list: Seq<Assertion>) -> Seq<Claim> {
    list.map_values(|a: Assertion| a@)
}

/// Whether a value is empty: nothing, or a string, a list or an object that holds nothing.
pub open spec fn is_empty(t: json::Tree) -> bool {
    match t {
        json::Tree::Null => true,
        json::Tree::Text(s) => s.len() == 0,
        json::Tree::List(items) => items.len() == 0,
        json::Tree::Object(members) => members.len() == 0,
        _ => false,
    }
}

/// Whether a value meets what is asked of it.
pub open spec fn meets(t: json::Tree, op: AssertionOp, expected: Option<json::Tree>) -> bool {
    match op {
        AssertionOp::Exists => true,
        AssertionOp::NonEmpty => !is_empty(t),
        AssertionOp::Eq => expected matches Some(e) && json::same_value(t, e),
        AssertionOp::Gt => match (t, expected) {
            (json::Tree::Number(a), Some(json::Tree::Number(b))) => json::exceeds(a, b),
            _ => false,
        },
        AssertionOp::Contains => match (t, expected) {
            (json::Tree::Text(s), Some(json::Tree::Text(part))) => text::has(s, part),
            _ => false,
        },
    }
}

/// Whether an assertion holds of a body: its path leads to a value that meets it.
pub open spec fn holds(body: json::Tree, c: Claim) -> bool {
    match json_path::at(body, c.path) {
        Some(t) => meets(t, c.op, c.value),
        None => false,
    }
}

/// Whether a value is empty.
fn is_empty_value(v: &Json) -> (r: bool)
    ensures
        r == is_empty(json::tree_of(*v)),
{
    match v {
        Json::Null => true,
        Json::Text(s) => {
            let cs = text::chars_of(s);
            cs.len() == 0
        },
        Json::List(items) => items.len() == 0,
        Json::Object(members) => members.len() == 0,
        _ => false,
    }
}

/// Runs an assertion on a body.
pub fn run_assertion(body: &Json, a: &Assertion) -> (r: bool)
    ensures
        r == holds(json::tree_of(*body), a@),
{
    let v = match json_path::json_path_get(body, &a.path) {
        Some(v) => v,
        None => {
            return false;
        },
    };
    match a.op {
        AssertionOp::Exists => true,
        AssertionOp::NonEmpty => !is_empty_value(v),
        AssertionOp::Eq => match &a.value {
            Some(e) => json::is_same(v, e),
            None => false,
        },
        AssertionOp::Gt => match (v, &a.value) {
            (Json::Number(x), Some(Json::Number(y))) => json::is_greater(x, y),
            _ => false,
        },
        AssertionOp::Contains => match (v, &a.value) {
            (Json::Text(s), Some(Json::Text(part))) => text::str_contains(s, part),
            _ => false,
        },
    }
}

/// The outcome of an assertion.
#[derive(Debug)]
pub struct AssertionResult {
    pub path: String,
    pub desc: Option<String>,
    pub passed: bool,
    /// What was found.
    pub detail: String,
}

/// The model of an outcome.
#[verifier::ext_equal]
pub struct Outcome {
    /// The path of the value.
    pub path: Seq<char>,
    /// What the assertion is about.
    pub desc: Option<Seq<char>>,
    /// Whether it holds.
    pub passed: bool,
    /// What was found.
    pub detail: Seq<char>,
}

impl View for AssertionResult {
    type V = Outcome;

    open spec fn view(&self) -> Outcome {
        Outcome {
            path: self.path@,
            desc: text::opt_text(self.desc),
            passed: self.passed,
            detail: self.detail@,
        }
    }
}

/// The models of outcomes.
pub open spec fn outcomes(list: Seq<AssertionResult>) -> Seq<Outcome> {
    list.map_values(|a: AssertionResult| a@)
}

/// What a body holds, where it is JSON.
pub open spec fn body_tree(body: Seq<u8>) -> Option<json::Tree> {
    match text::decoded(body) {
        Some(s) => match json::json_parsed(s) {
            Ok(t) => Some(t),
            Err(_) => None,
        },
        None => None,
    }
}

/// What is said of the value that a path leads to. A body that is no JSON counts as `null`.
pub open spec fn detail(body: Option<json::Tree>, path: Seq<char>) -> Seq<char> {
    match body {
        Some(t) => match json_path::at(t, path) {
            Some(v) => "实际值: "@ + json::json_compact(v),
            None => "路径不存在"@,
        },
        None => match json_path::at(json::Tree::Null, path) {
            Some(_) => "实际值: null"@,
            None => "路径不存在"@,
        },
    }
}

/// The outcome of an assertion on a body. A body that is no JSON counts as `null`.
pub open spec fn outcome(body: Option<json::Tree>, c: Claim) -> Outcome {
    Outcome {
        path: c.path,
        desc: c.desc,
        passed: holds(
            match body {
                Some(t) => t,
                None => json::Tree::Null,
            },
            c,
        ),
        detail: detail(body, c.path),
    }
}

/// Reads a body.
fn read_body(body: &[u8]) -> (r: Option<serde_json::Value>)
    ensures
        match r {
            Some(v) => body_tree(body@) == Some(json::json_tree(v)),
            None => body_tree(body@) is None,
        },
{
    match text::utf8(body) {
        Some(s) => match json::parse_value(s) {
            Ok(v) => Some(v),
            Err(_) => None,
        },
        None => None,
    }
}

/// Copies a string that may be there.
pub fn copy_option(o: &Option<String>) -> (r: Option<String>)
    ensures
        r == *o,
{
    match o {
        Some(s) => Some(s.clone()),
        None => None,
    }
}

/// Says what a path leads to.
fn make_detail(value: &Option<serde_json::Value>, path: &str) -> (r: String)
    ensures
        r@ == detail(
            match *value {
                Some(v) => Some(json::json_tree(v)),
                None => None,
            },
            path@,
        ),
{
    match value {
        Some(v) => match json_path::text_at(v, path) {
            Some(s) => {
                let mut out = text::chars_of("实际值: ");
                text::push_str(&mut out, &s);
                text::string_of(&out)
            },
            None => text::owned("路径不存在"),
        },
        None => match json_path::json_path_get(&Json::Null, path) {
            Some(_) => text::owned("实际值: null"),
            None => text::owned("路径不存在"),
        },
    }
}

/// Runs assertions on a body.
pub fn eval_assertions(body: &[u8], assertions: &[Assertion]) -> (r: Vec<AssertionResult>)
    ensures
        outcomes(r@) == claims(assertions@).map_values(|c: Claim| outcome(body_tree(body@), c)),
{
    let value = read_body(body);
    let ghost tree = body_tree(body@);
    let ghost expected = claims(assertions@).map_values(|c: Claim| outcome(tree, c));
    let copy = match text::utf8(body) {
        Some(s) => match json::parse(s) {
            Ok(v) => v,
            Err(_) => Json::Null,
        },
        None => Json::Null,
    };
    let n: usize = assertions.len();
    let mut out: Vec<AssertionResult> = Vec::new();
    let mut i: usize = 0;
    assert(outcomes(out@) =~= expected.take(0));
    while i < n
        invariant
            i <= n == assertions@.len(),
            tree == body_tree(body@),
            expected == claims(assertions@).map_values(|c: Claim| outcome(tree, c)),
            match value {
                Some(v) => tree == Some(json::json_tree(v)),
                None => tree is None,
            },
            json::tree_of(copy) == match tree {
                Some(t) => t,
                None => json::Tree::Null,
            },
            outcomes(out@) == expected.take(i as int),
        decreases n - i,
    {
        let a = &assertions[i];
        let result = AssertionResult {
            path: a.path.clone(),
            desc: copy_option(&a.desc),
            passed: run_assertion(&copy, a),
            detail: make_detail(&value, &a.path),
        };
        proof {
            assert(result@ =~= outcome(tree, a@));
            assert(outcomes(out@.push(result)) =~= outcomes(out@).push(result@));
            assert(expected.take(i + 1) =~= expected.take(i as int).push(expected[i as int]));
        }
        out.push(result);
        i += 1;
    }
    assert(expected.take(n as int) =~= expected);
    out
}

// ---------------------------------------------------------------------------
// The matrix
// ---------------------------------------------------------------------------

/// An interface: a method and a path.
#[derive(Debug)]
pub struct MatrixApi {
    pub method: String,
    pub path: String,
}

/// A step of a feature: what is done, and the interfaces that it calls.
#[derive(Debug)]
pub struct MatrixStep {
    pub action: String,
    pub apis: Vec<MatrixApi>,
}

/// A feature.
#[derive(Debug)]
pub struct MatrixEntry {
    pub id: String,
    pub name: String,
    pub steps: Vec<MatrixStep>,
    /// What the answers of its interfaces must hold.
    pub expected: Vec<Assertion>,
}

/// The features of a module.
#[derive(Debug)]
pub struct FeatureMatrix {
    pub module: String,
    pub entries: Vec<MatrixEntry>,
}

/// Whether an interface has a method, whatever its case, and a path.
pub open spec fn is_call_of(api: MatrixApi, method: Seq<char>, path: Seq<char>) -> bool {
    text::lowered(api.method@) == text::lowered(method) && api.path@ == path
}

/// Whether a step calls an interface.
pub open spec fn step_calls(step: MatrixStep, method: Seq<char>, path: Seq<char>) -> bool {
    exists|k: int| 0 <= k < step.apis@.len() && is_call_of(#[trigger] step.apis@[k], method, path)
}

/// Whether a feature calls an interface in one of its steps.
pub open spec fn entry_calls(entry: MatrixEntry, method: Seq<char>, path: Seq<char>) -> bool {
    exists|i: int|
        0 <= i < entry.steps@.len() && step_calls(#[trigger] entry.steps@[i], method, path)
}

/// Whether a step calls an interface.
fn is_step_for(step: &MatrixStep, method: &str, path: &str) -> (r: bool)
    ensures
        r == step_calls(*step, method@, path@),
{
    let n: usize = step.apis.len();
    let mut k: usize = 0;
    while k < n
        invariant
            k <= n == step.apis@.len(),
            forall|i: int| 0 <= i < k ==> !is_call_of(#[trigger] step.apis@[i], method@, path@),
        decreases n - k,
    {
        let api = &step.apis[k];
        if text::same_ignoring_case(&api.method, method) && text::same(&api.path, path) {
            assert(is_call_of(step.apis@[k as int], method@, path@));
            return true;
        }
        k += 1;
    }
    false
}

/// Whether a feature calls an interface.
pub fn is_entry_for(entry: &MatrixEntry, method: &str, path: &str) -> (r: bool)
    ensures
        r == entry_calls(*entry, method@, path@),
{
    let n: usize = entry.steps.len();
    let mut i: usize = 0;
    while i < n
        invariant
            i <= n == entry.steps@.len(),
            forall|k: int| 0 <= k < i ==> !step_calls(#[trigger] entry.steps@[k], method@, path@),
        decreases n - i,
    {
        if is_step_for(&entry.steps[i], method, path) {
            return true;
        }
        i += 1;
    }
    false
}

/// An assertion passes exactly where its path leads to a value with what is asked: that it is
/// there, holds anything, is the expected one, exceeds it, or holds it as a part. Where the path
/// leads nowhere no assertion passes.
pub proof fn law_assertions(body: json::Tree, c: Claim, t: json::Tree)
    requires
        json_path::at(body, c.path) == Some(t),
    ensures
        ({
            let passed = outcome(Some(body), c).passed;
            &&& c.op is Exists ==> passed
            &&& c.op is NonEmpty ==> (passed <==> t != json::Tree::Null && t != json::Tree::Text(
                seq![],
            ) && t != json::Tree::List(seq![]) && t != json::Tree::Object(seq![]))
            &&& c.op is Eq && c.value == Some(t) ==> passed
            &&& c.op is Eq ==> (passed <==> c.value is Some && json::same_value(t, c.value->0))
            &&& c.op is Gt ==> (passed <==> exists|a: json::Numeral, b: json::Numeral|
                t == json::Tree::Number(a) && c.value == Some(json::Tree::Number(b))
                    && #[trigger] json::exceeds(a, b))
            &&& c.op is Contains ==> (passed <==> exists|a: Seq<char>, p: Seq<char>, b: Seq<char>|
                t == json::Tree::Text(#[trigger] (a + p + b)) && c.value == Some(
                    json::Tree::Text(p),
                ))
            &&& outcome(Some(body), c).detail == "实际值: "@ + json::json_compact(t)
            &&& outcome(Some(body), c).path == c.path
            &&& outcome(Some(body), c).desc == c.desc
        }),
{
    json::lemma_same_value_reflexive(t);
    let passed = outcome(Some(body), c).passed;
    if c.op is NonEmpty {
        if let json::Tree::Text(s) = t {
            if s.len() == 0 {
                assert(s =~= Seq::<char>::empty());
            }
        }
        if let json::Tree::List(s) = t {
            if s.len() == 0 {
                assert(s =~= Seq::<json::Tree>::empty());
            }
        }
        if let json::Tree::Object(s) = t {
            if s.len() == 0 {
                assert(s =~= Seq::<(Seq<char>, json::Tree)>::empty());
            }
        }
    }
    if c.op is Contains {
        if passed {
            let s = t->Text_0;
            let p = c.value->0->Text_0;
            text::law_has(s, p, s, s);
            let (x, y) = choose|x: Seq<char>, y: Seq<char>| s == #[trigger] (x + p + y);
            assert(t == json::Tree::Text(x + p + y) && c.value == Some(json::Tree::Text(p)));
        }
        if exists|a: Seq<char>, p: Seq<char>, b: Seq<char>|
            t == json::Tree::Text(#[trigger] (a + p + b)) && c.value == Some(json::Tree::Text(p)) {
            let (a, p, b) = choose|a: Seq<char>, p: Seq<char>, b: Seq<char>|
                t == json::Tree::Text(#[trigger] (a + p + b)) && c.value == Some(
                    json::Tree::Text(p),
                );
            text::law_has(a, p, b, a);
        }
    }
}

/// Where a path leads nowhere, no assertion passes, and the outcome says so; a body that is no
/// JSON is one without any value.
pub proof fn law_missing_values_fail(body: json::Tree, c: Claim)
    ensures
        json_path::at(body, c.path) is None ==> !outcome(Some(body), c).passed && outcome(
            Some(body),
            c,
        ).detail == "路径不存在"@,
        outcome(None, c).passed == outcome(Some(json::Tree::Null), c).passed,
        json_path::at(json::Tree::Null, c.path) is None ==> outcome(None, c).detail
            == "路径不存在"@,
{
}

/// An interface is called by a feature exactly where one of its steps has it, with the method in
/// whatever case and the same path.
pub proof fn law_calls_of_a_feature(entry: MatrixEntry, method: Seq<char>, path: Seq<char>)
    ensures
        entry_calls(entry, method, path) <==> exists|i: int, k: int|
            0 <= i < entry.steps@.len() && 0 <= k < entry.steps@[i].apis@.len() && text::lowered(
                (#[trigger] entry.steps@[i].apis@[k]).method@,
            ) == text::lowered(method) && entry.steps@[i].apis@[k].path@ == path,
{
    if entry_calls(entry, method, path) {
        let i = choose|i: int|
            0 <= i < entry.steps@.len() && step_calls(#[trigger] entry.steps@[i], method, path);
        let step = entry.steps@[i];
        let k = choose|k: int|
            0 <= k < step.apis@.len() && is_call_of(#[trigger] step.apis@[k], method, path);
        assert(text::lowered(entry.steps@[i].apis@[k].method@) == text::lowered(method));
    }
    if exists|i: int, k: int|
        0 <= i < entry.steps@.len() && 0 <= k < entry.steps@[i].apis@.len() && text::lowered(
            (#[trigger] entry.steps@[i].apis@[k]).method@,
        ) == text::lowered(method) && entry.steps@[i].apis@[k].path@ == path {
        let (i, k) = choose|i: int, k: int|
            0 <= i < entry.steps@.len() && 0 <= k < entry.steps@[i].apis@.len() && text::lowered(
                (#[trigger] entry.steps@[i].apis@[k]).method@,
            ) == text::lowered(method) && entry.steps@[i].apis@[k].path@ == path;
        assert(is_call_of(entry.steps@[i].apis@[k], method, path));
        assert(step_calls(entry.steps@[i], method, path));
    }
}

} // verus!
