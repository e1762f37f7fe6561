use tape::calls::{read_id, request_diff, CallRecord};
use tape::compare::{
    align_calls, build_sequence_diff, compare_snapshots, run, run_feature_assertions,
    CallComparison, FeatureAssertions, MatchKind,
};
use tape::diff::{diff_json, value_summary, DiffKind, IgnoreRules};
use tape::export;
use tape::json::{is_greater, is_same, parse, Json};
use tape::json_path::json_path_get;
use tape::matrix::{
    eval_assertions, run_assertion, Assertion, AssertionOp, AssertionResult, FeatureMatrix,
    MatrixApi, MatrixEntry, MatrixStep,
};
use tape::report::{count, render_report, write_summary_line};
use tape::sequence::compare_sequences;
use tape::snapshot::{RequestRecord, ResponseRecord, Snapshot, ENCODING_UTF8};

fn snap(id: &str, url: &str, request: &str, response: &str) -> Snapshot {
    Snapshot {
        id: id.to_string(),
        origin: "http://10.1.2.3:8080".to_string(),
        recorded_at: "2026-08-02T00:00:00Z".to_string(),
        duration_ms: 1,
        request: RequestRecord {
            method: "POST".to_string(),
            url: url.to_string(),
            headers: vec![],
            body: request.to_string(),
            body_encoding: ENCODING_UTF8.to_string(),
        },
        response: ResponseRecord {
            status: 200,
            headers: vec![],
            body: response.to_string(),
            body_encoding: ENCODING_UTF8.to_string(),
        },
    }
}

fn call(id: &str, url: &str, body: &str) -> CallRecord {
    CallRecord::from_snapshot(&snap(id, url, body, "{}"))
}

fn strings(list: &[&str]) -> Vec<String> {
    list.iter().map(|s| s.to_string()).collect()
}

fn rules(list: &[&str]) -> IgnoreRules {
    IgnoreRules::from_paths(strings(list))
}

fn entry(id: &str, name: &str, path: &str, expected: Vec<Assertion>) -> MatrixEntry {
    MatrixEntry {
        id: id.to_string(),
        name: name.to_string(),
        steps: vec![MatrixStep {
            action: "步骤".to_string(),
            apis: vec![MatrixApi { method: "post".to_string(), path: path.to_string() }],
        }],
        expected,
    }
}

fn matrix(entries: Vec<MatrixEntry>) -> FeatureMatrix {
    FeatureMatrix { module: "首页".to_string(), entries }
}

fn assertion(path: &str, op: AssertionOp, value: Option<&str>, desc: Option<&str>) -> Assertion {
    Assertion {
        path: path.to_string(),
        op,
        value: value.map(|v| parse(v).unwrap()),
        desc: desc.map(|d| d.to_string()),
    }
}

#[test]
fn compare_reports_missing_and_changed() {
    let base = [
        snap("000001", "http://10.1.2.3:8080/api/search/query?kw=电影", "", r#"{"list":["a"]}"#),
        snap("000002", "http://10.1.2.3:8080/api/home", "", r#"{"banners":2}"#),
    ];
    let curr = [snap(
        "000001",
        "http://10.1.2.3:8080/api/search/query?kw=电影",
        "",
        r#"{"list":["a","b"]}"#,
    )];
    let result = compare_snapshots(&base, &curr, &IgnoreRules::default());
    let m = matrix(vec![
        entry("s", "搜索流程", "/api/search/query", vec![]),
        entry("h", "首页加载", "/api/home", vec![]),
        entry("n", "未用功能", "/api/none", vec![]),
    ]);
    let md = render_report("基线", "新版", &result, Some(&m), None, &[]);
    assert_eq!(
        md,
        "# 接口复刻对比报告\n\n基线：基线　新版：新版\n\n\
         ## 汇总\n\n- 一致：0\n- 变更：1\n- 缺失：1\n- 新增：0\n\n\
         ## 按功能条目\n\n\
         ### ❌ 搜索流程（s）\n\n- `POST /api/search/query`\n  \
         - 响应 结构 `$.list[1]`：None → Some(\"b\")\n\n\
         ### ❌ 首页加载（h）\n\n- `POST /api/home`\n  - **缺失**：新版未调用该接口\n\n\
         ### ⚠️ 未用功能（n）\n\n- 未捕获到该功能的接口调用\n\n"
    );
}

#[test]
fn compare_reports_business_flow() {
    let base =
        [snap("000001", "http://10.1.2.3:8080/api/search", "", r#"{"data":{"list":[]}}"#)];
    let curr =
        [snap("000001", "http://10.1.2.3:8080/api/search", "", r#"{"data":{"list":["a"]}}"#)];
    let comparisons = compare_snapshots(&base, &curr, &IgnoreRules::default());
    let m = matrix(vec![entry(
        "s",
        "搜索流程",
        "/api/search",
        vec![assertion("$.data.list", AssertionOp::NonEmpty, None, Some("搜索结果非空"))],
    )]);
    let sequence = build_sequence_diff(&comparisons);
    let assertions = run_feature_assertions(Some(&m), &comparisons);
    assert!(run_feature_assertions(None, &comparisons).is_empty());
    let md = render_report(
        "基线",
        "新版",
        &comparisons,
        Some(&m),
        sequence.as_ref(),
        &assertions,
    );
    assert!(md.contains("### 业务结果断言"), "{md}");
    assert!(md.contains("- ✅ 搜索流程：基线 0/1 通过，新版 1/1 通过\n"), "{md}");
    assert!(md.contains("- ✅ 调用序列一致"), "{md}");
    assert_eq!(assertions[0].baseline[0].detail, "实际值: []");
    assert_eq!(assertions[0].current[0].detail, "实际值: [\"a\"]");
}

#[test]
fn queries_are_sorted_and_cut_off() {
    let r = call("000001", "http://10.1.2.3:8080/api/search?page=2&kw=电影&x&=y", "");
    assert_eq!(r.path, "/api/search");
    assert_eq!(
        r.query,
        vec![
            ("".to_string(), "y".to_string()),
            ("kw".to_string(), "电影".to_string()),
            ("page".to_string(), "2".to_string()),
        ]
    );
}

#[test]
fn fingerprints_tell_calls_apart() {
    let url = "http://10.1.2.3:8080/api/search?kw=电影";
    let ignore = rules(&["$.ts", "$.query.t"]);
    let a = call("1", url, r#"{"kw":"电影","ts":1}"#).fingerprint(&ignore);
    assert_eq!(a, "$.kw=电影|$.ts=<dynamic>|q:kw=电影");
    let b = call("2", url, r#"{"ts":2,"kw":"电影"}"#).fingerprint(&ignore);
    assert_eq!(a, b);
    let c = call("3", url, r#"{"kw":"电视剧","ts":1}"#).fingerprint(&ignore);
    assert_ne!(a, c);
    let d = call("4", "http://h/p?t=1", "raw").fingerprint(&ignore);
    assert_eq!(d, "body-raw:raw|q:t=<dynamic>");
    let e = call("5", "http://h/p", r#"[1.5,null,true,{"a":[]}]"#).fingerprint(&ignore);
    assert_eq!(e, "$[0]=1.5|$[1]=null|$[2]=true");
    assert_eq!(call("6", "http://h/p", "").fingerprint(&ignore), "");
}

#[test]
fn calls_are_paired_by_fingerprint_and_order() {
    let none = IgnoreRules::default();
    let url = |kw: &str| format!("http://10.1.2.3:8080/api/search?kw={kw}");
    let base = [
        call("000001", &url("电影"), ""),
        call("000002", &url("电视剧"), ""),
        call("000003", &url("综艺"), ""),
    ];
    let curr = [
        call("000001", &url("电视剧"), ""),
        call("000002", &url("电影"), ""),
        call("000003", &url("电影"), ""),
    ];
    let result = align_calls(&base, &curr, &none);
    let ids = |c: &CallComparison| {
        (
            c.kind,
            c.baseline.as_ref().map(|b| b.id.clone()),
            c.current.as_ref().map(|b| b.id.clone()),
        )
    };
    let id = |s: &str| Some(s.to_string());
    assert_eq!(
        result.iter().map(ids).collect::<Vec<_>>(),
        vec![
            (MatchKind::Matched, id("000001"), id("000002")),
            (MatchKind::Matched, id("000002"), id("000001")),
            (MatchKind::Missing, id("000003"), None),
            (MatchKind::Added, None, id("000003")),
        ]
    );
    let c = count(&result);
    assert_eq!(write_summary_line(&c), "对比完成：一致 2，变更 0，缺失 1，新增 1");
}

#[test]
fn calls_of_one_class_are_paired_by_number() {
    let none = IgnoreRules::default();
    let base = [call("10", "http://h/p", ""), call("9", "http://h/p", "")];
    let curr = [call("x", "http://h/p", ""), call("3", "http://h/p", "")];
    let result = align_calls(&base, &curr, &none);
    assert_eq!(result[0].current.as_ref().unwrap().id, "x");
    assert_eq!(result[1].current.as_ref().unwrap().id, "3");
    assert_eq!(read_id("000012"), 12);
    assert_eq!(read_id("x"), u64::MAX);
}

#[test]
fn a_recording_does_not_differ_from_itself() {
    let list = [
        snap("000001", "http://h/a?x=1", r#"{"a":1}"#, r#"{"b":[1,{"c":null}]}"#),
        snap("000002", "http://h/a?x=1", r#"{"a":1}"#, "text"),
        snap("000003", "http://h/b", "", ""),
    ];
    let result = compare_snapshots(&list, &list, &IgnoreRules::default());
    assert_eq!(result.len(), 3);
    for c in &result {
        assert_eq!(c.kind, MatchKind::Matched);
        assert!(c.status_diff.is_none());
        assert!(c.response_diffs.is_empty());
        assert!(c.request_diff.is_none());
    }
    assert!(build_sequence_diff(&result).unwrap().is_identical());
    assert!(build_sequence_diff(&[]).is_none());
}

#[test]
fn differences_are_told_by_field() {
    let base = parse(
        r#"{"data":{"title":"a","list":[{"id":1,"name":"x"}],"token":"T1"},"z":[1,2]}"#,
    )
    .unwrap();
    let curr = parse(
        r#"{"data":{"title":"b","list":[{"id":2,"name":"y"}],"extra":true,"token":"T2"},"z":[1]}"#,
    )
    .unwrap();
    let ignore = rules(&["$.data.token", "$.data.list[*].id"]);
    let found: Vec<(String, DiffKind, Option<String>, Option<String>)> =
        diff_json(&base, &curr, "$", &ignore)
            .into_iter()
            .map(|d| (d.path, d.kind, d.baseline, d.current))
            .collect();
    let some = |s: &str| Some(s.to_string());
    assert_eq!(
        found,
        vec![
            ("$.data.extra".to_string(), DiffKind::Structure, None, some("true")),
            ("$.data.list[0].name".to_string(), DiffKind::Value, some("x"), some("y")),
            ("$.data.title".to_string(), DiffKind::Value, some("a"), some("b")),
            ("$.z[1]".to_string(), DiffKind::Structure, some("2"), None),
        ]
    );
    assert!(diff_json(&base, &curr, "$", &rules(&["$"])).is_empty());
}

#[test]
fn rules_cover_paths() {
    let r = rules(&["$.a", "$.list[*].id", "$.m[*][*]", "$.q[*]x"]);
    assert!(r.matches("$.a"));
    assert!(!r.matches("$.ab"));
    assert!(!r.matches("$.a.b"));
    assert!(r.matches("$.list[0].id"));
    assert!(r.matches("$.list[120].id"));
    assert!(r.matches("$.list[*].id"));
    assert!(!r.matches("$.list[].id"));
    assert!(!r.matches("$.list[a].id"));
    assert!(!r.matches("$.list[1.id"));
    assert!(r.matches("$.m[1][22]"));
    assert!(!r.matches("$.m[1]"));
    assert!(!IgnoreRules::default().matches("$"));
}

#[test]
fn values_are_written_in_short() {
    let short = |s: &str| value_summary(&parse(s).unwrap());
    assert_eq!(short("null"), "null");
    assert_eq!(short("false"), "false");
    assert_eq!(short("1e3"), "1000.0");
    assert_eq!(short("\"x\""), "x");
    assert_eq!(short("[1,2]"), "[2 项]");
    assert_eq!(short(r#"{"a":1}"#), "{1}");
}

#[test]
fn requests_are_compared() {
    let b = call("1", "http://10.1.2.3:8080/api/search?kw=电影", r#"{"kw":"电影"}"#);
    let c = call("2", "http://10.1.2.3:8080/api/search?kw=电视剧", r#"{"kw":"电视剧"}"#);
    assert_eq!(
        request_diff(&b, &c).unwrap(),
        r#"query: kw=电影 → kw=电视剧；body: {"kw":"电影"} → {"kw":"电视剧"}"#
    );
    assert_eq!(request_diff(&b, &b), None);
    let long = call("3", "http://h/p", &"中".repeat(41));
    let other = call("4", "http://h/p", &format!("a{}", "中".repeat(40)));
    assert_eq!(
        request_diff(&long, &other).unwrap(),
        format!("body: {}… → a{}…", "中".repeat(40), "中".repeat(39))
    );
}

#[test]
fn paths_lead_to_values() {
    let v = parse(r#"{"data":{"list":[{"id":1,"name":"a"}],"token":"T"},"":5}"#).unwrap();
    let text = |path: &str| json_path_get(&v, path).map(value_summary);
    assert_eq!(text("$.data.token"), Some("T".to_string()));
    assert_eq!(text("$.data.list[0].name"), Some("a".to_string()));
    assert_eq!(text("$.data.list[0].id"), Some("1".to_string()));
    assert_eq!(text("data.list[+0]id"), Some("1".to_string()));
    assert_eq!(text("$."), Some("5".to_string()));
    assert_eq!(text("$"), Some("{2}".to_string()));
    assert_eq!(text("$.data.missing"), None);
    assert_eq!(text("$.data.list[9]"), None);
    assert_eq!(text("$.data.list[x]"), None);
    assert_eq!(text("$.data.list[0"), None);
    assert_eq!(text("$.data[0]"), None);
}

#[test]
fn assertions_have_operators() {
    let body = parse(r#"{"data":{"list":["a"],"code":0,"msg":"ok"},"token":"T"}"#).unwrap();
    let holds = |path: &str, op: AssertionOp, value: Option<&str>| {
        run_assertion(&body, &assertion(path, op, value, None))
    };
    assert!(holds("$.data.code", AssertionOp::Eq, Some("0")));
    assert!(!holds("$.data.code", AssertionOp::Eq, Some("1")));
    assert!(!holds("$.data.code", AssertionOp::Eq, Some("0.0")));
    assert!(!holds("$.data.code", AssertionOp::Eq, None));
    assert!(holds("$.token", AssertionOp::Exists, None));
    assert!(!holds("$.nope", AssertionOp::Exists, None));
    assert!(holds("$.data.list", AssertionOp::NonEmpty, None));
    assert!(holds("$.data.code", AssertionOp::Gt, Some("-1")));
    assert!(!holds("$.data.code", AssertionOp::Gt, Some("1")));
    assert!(!holds("$.data.code", AssertionOp::Gt, Some("\"0\"")));
    assert!(holds("$.data.msg", AssertionOp::Contains, Some("\"ok\"")));
    assert!(!holds("$.data.msg", AssertionOp::Contains, Some("\"bad\"")));
    let empty = parse(r#"[null,"",[],{},0]"#).unwrap();
    for i in 0..4 {
        let a = assertion(&format!("$[{i}]"), AssertionOp::NonEmpty, None, None);
        assert!(!run_assertion(&empty, &a));
    }
    assert!(run_assertion(&empty, &assertion("$[4]", AssertionOp::NonEmpty, None, None)));
}

#[test]
fn bodies_that_are_no_json_count_as_null() {
    let list = [
        assertion("$", AssertionOp::Exists, None, Some("d")),
        assertion("$.a", AssertionOp::Exists, None, None),
    ];
    for body in [b"text".to_vec(), vec![0xff]] {
        let r = eval_assertions(&body, &list);
        assert!(r[0].passed);
        assert_eq!(r[0].detail, "实际值: null");
        assert_eq!(r[0].desc.as_deref(), Some("d"));
        assert!(!r[1].passed);
        assert_eq!(r[1].detail, "路径不存在");
    }
    let r = eval_assertions(br#"{"a":{"b":[1,"x"]}}"#, &list);
    assert_eq!(r[1].detail, r#"实际值: {"b":[1,"x"]}"#);
}

#[test]
fn json_values_are_compared() {
    let same = |a: &str, b: &str| is_same(&parse(a).unwrap(), &parse(b).unwrap());
    assert!(same(r#"{"a":1,"b":[2]}"#, r#"{"b":[2],"a":1}"#));
    assert!(!same(r#"{"a":1}"#, r#"{"a":1,"b":2}"#));
    assert!(!same(r#"{"a":1,"b":2}"#, r#"{"a":1}"#));
    assert!(!same("[1,2]", "[2,1]"));
    assert!(!same("1", "1.0"));
    assert!(same("0.0", "-0"));
    assert!(!same("0", "0.0"));
    let number = |s: &str| match parse(s).unwrap() {
        Json::Number(n) => n,
        _ => panic!("expected a number"),
    };
    let greater = |a: &str, b: &str| is_greater(&number(a), &number(b));
    for (a, b) in [
        ("2", "1"),
        ("0", "-1"),
        ("-1", "-2.5"),
        ("1e300", "1e-300"),
        ("1e-300", "0"),
        ("0.0", "-1e-300"),
        ("18446744073709551615", "9223372036854775807"),
    ] {
        assert!(greater(a, b), "{a} > {b}");
        assert!(!greater(b, a), "{b} > {a}");
    }
    assert!(!greater("0.0", "-0.0"));
    assert!(!greater("-0.0", "0.0"));
}

#[test]
fn sequences_are_compared() {
    let base = strings(&["POST /api/login", "GET /api/token", "POST /api/order", "GET /api/order/1"]);
    let curr = strings(&["POST /api/login", "GET /api/token", "POST /api/order", "GET /api/balance"]);
    let d = compare_sequences(&base, &curr);
    assert_eq!(d.missing, strings(&["GET /api/order/1"]));
    assert_eq!(d.added, strings(&["GET /api/balance"]));
    assert!(!d.is_identical());
    assert!(compare_sequences(&base, &base).is_identical());
    let d = compare_sequences(&strings(&["a", "b", "c"]), &strings(&["c", "a", "b"]));
    assert_eq!(d.missing, strings(&["c"]));
    assert_eq!(d.added, strings(&["c"]));
    let d = compare_sequences(&[], &strings(&["x"]));
    assert!(d.missing.is_empty());
    assert_eq!(d.added, strings(&["x"]));
}

#[test]
fn reordered_calls_are_reported() {
    let base = [snap("1", "http://h/a", "", ""), snap("2", "http://h/b", "", "")];
    let curr = [snap("1", "http://h/b", "", ""), snap("2", "http://h/a", "", "")];
    let result = compare_snapshots(&base, &curr, &IgnoreRules::default());
    let d = build_sequence_diff(&result).unwrap();
    assert_eq!(d.missing, strings(&["POST /a"]));
    assert_eq!(d.added, strings(&["POST /a"]));
    let md = render_report("a", "b", &result, None, Some(&d), &[]);
    assert!(md.contains("- ❌ 缺失步骤：\n  - POST /a\n- ➕ 新增步骤：\n  - POST /a\n\n"), "{md}");
}

#[test]
fn a_step_that_is_lacking_is_named() {
    let base = [
        snap("1", "http://h/a", "", ""),
        snap("2", "http://h/b", "", ""),
        snap("3", "http://h/c", "", ""),
    ];
    let curr = [
        snap("1", "http://h/a", "", ""),
        snap("2", "http://h/c", "", ""),
        snap("3", "http://h/d", "", ""),
    ];
    let result = compare_snapshots(&base, &curr, &IgnoreRules::default());
    let d = build_sequence_diff(&result).unwrap();
    assert_eq!(d.missing, strings(&["POST /b"]));
    assert_eq!(d.added, strings(&["POST /d"]));
    let only = compare_snapshots(&base, &[], &IgnoreRules::default());
    let d = build_sequence_diff(&only).unwrap();
    assert_eq!(d.missing, strings(&["POST /a", "POST /b", "POST /c"]));
    assert!(d.added.is_empty());
}

#[test]
fn failed_assertions_are_reported() {
    let result = |passed: bool, detail: &str| AssertionResult {
        path: "$.data.list".to_string(),
        desc: Some("列表非空".to_string()),
        passed,
        detail: detail.to_string(),
    };
    let found = vec![FeatureAssertions {
        entry_id: "s".to_string(),
        entry_name: "搜索流程".to_string(),
        baseline: vec![result(true, "ok")],
        current: vec![result(false, "空列表")],
    }];
    let seq = compare_sequences(&strings(&["x"]), &strings(&["x"]));
    let md = render_report("基线", "新版", &[], None, Some(&seq), &found);
    assert!(md.contains("## 业务流验证\n\n### 调用序列\n\n"), "{md}");
    assert!(
        md.contains(
            "- ❌ 搜索流程：基线 1/1 通过，新版 0/1 通过\n  - ❌ `$.data.list` 列表非空：空列表\n"
        ),
        "{md}"
    );
    let without = render_report("基线", "新版", &[], None, None, &found);
    assert!(!without.contains("业务流验证"));
}

#[test]
fn reports_without_a_matrix_list_the_differences() {
    let mut curr = snap("1", "http://h/a", "", r#"{"x":"\"q\""}"#);
    curr.response.status = 500;
    let base = [
        snap("1", "http://h/a", "", r#"{"x":"p"}"#),
        snap("2", "http://h/gone", "", ""),
        snap("3", "http://h/same", "", ""),
    ];
    let list = [curr, snap("2", "http://h/new", "", ""), snap("3", "http://h/same", "", "")];
    let result = compare_snapshots(&base, &list, &IgnoreRules::default());
    let md = render_report("a", "b", &result, None, None, &[]);
    assert_eq!(
        md,
        "# 接口复刻对比报告\n\n基线：a　新版：b\n\n\
         ## 汇总\n\n- 一致：1\n- 变更：1\n- 缺失：1\n- 新增：1\n\n\
         ## 差异详情\n\n\
         - 🔄 变更 `POST /a`\n  - 状态码：200 → 500\n  \
         - 响应 值 `$.x`：Some(\"p\") → Some(\"\\\"q\\\"\")\n\
         - ❌ 缺失 `POST /gone`\n- ➕ 新增 `POST /new`\n"
    );
}

#[test]
fn exports_have_a_line_for_each_snapshot() {
    let out = export::run(&strings(&[r#"{"id":"1"}"#, r#"{"id":"2"}"#]));
    assert_eq!(out, "{\"id\":\"1\"}\n{\"id\":\"2\"}\n");
    assert_eq!(out.lines().count(), 2);
    assert_eq!(export::run(&[]), "");
}

#[test]
fn a_comparison_runs_through() {
    let base = [snap("1", "http://h/a", "", r#"{"n":1}"#), snap("2", "http://h/b", "", "")];
    let curr = [snap("1", "http://h/a", "", r#"{"n":3}"#)];
    let m = matrix(vec![entry(
        "a",
        "A",
        "/a",
        vec![assertion("$.n", AssertionOp::Gt, Some("2"), None)],
    )]);
    let r = run("old", &base, "new", &curr, Some(&m), &IgnoreRules::default());
    assert_eq!(r.summary, "对比完成：一致 0，变更 1，缺失 1，新增 0");
    assert!(r.text.contains("基线：old　新版：new"), "{}", r.text);
    assert!(r.text.contains("- ✅ A：基线 0/1 通过，新版 1/1 通过"), "{}", r.text);
    assert!(r.text.contains("### ❌ A（a）"), "{}", r.text);
    let r = run("old", &base, "new", &curr, None, &rules(&["$.n"]));
    assert_eq!(r.summary, "对比完成：一致 1，变更 0，缺失 1，新增 0");
}
