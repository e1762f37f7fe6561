//! Debug logs that web pages and apps push over HTTP.
//!
//! - `GET /?msg=...&level=warn&tag=...&url=...&line=12`
//! - `POST` of `text/plain`: every line is an entry
//! - `POST` of `application/x-www-form-urlencoded`: parameters as for `GET`
//! - `POST` of `application/json`: `{"level","message","tag","url","line"}`, or an array of such
//!
//! Every answer allows pages of all origins to push.
use crate::clock;
use crate::http;
use crate::http::{HttpHeader, HttpRequest, HttpResponse};
use crate::json;
use crate::json::Json;
use crate::number;
use crate::percent;
use crate::text;
use vstd::prelude::*;

verus! {

/// An entry of the log.
#[derive(Debug)]
pub struct RawEntry {
    pub level: String,
    pub tag: String,
    pub message: String,
}

/// The settings of a receiver of logs.
pub struct IngestParams {
    pub port: u16,
    pub log_dir: String,
    /// The prefix of the log file: `console` or `app`.
    pub prefix: &'static str,
    pub no_color: bool,
}

/// The model of an entry.
pub struct LogLine {
    /// The level, in lower case.
    pub level: Seq<char>,
    /// Where the entry comes from.
    pub tag: Seq<char>,
    /// The message: one line.
    pub message: Seq<char>,
}

impl View for RawEntry {
    type V = LogLine;

    open spec fn view(&self) -> LogLine {
        LogLine { level: self.level@, tag: self.tag@, message: self.message@ }
    }
}

/// The view of a list of entries.
pub open spec fn log_lines(entries: Seq<RawEntry>) -> Seq<LogLine> {
    entries.map_values(|e: RawEntry| e@)
}

/// Appending an entry appends its view.
proof fn lemma_log_lines_push(entries: Seq<RawEntry>, e: RawEntry)
    ensures
        log_lines(entries.push(e)) == log_lines(entries).push(e@),
{
    assert(log_lines(entries.push(e)) =~= log_lines(entries).push(e@));
}

// ---------------------------------------------------------------------------
// Entries from their parts
// ---------------------------------------------------------------------------

/// The tag of an entry: the one that was given, else the page with its line, else none.
pub open spec fn composed_tag(tag: Seq<char>, url: Seq<char>, line: Option<u32>) -> Seq<char> {
    if tag.len() > 0 {
        tag
    } else if url.len() > 0 {
        match line {
            Some(n) => url + ":"@ + number::decimal(n as nat),
            None => url,
        }
    } else {
        Seq::empty()
    }
}

/// The level of an entry: in lower case, `log` where none is given.
pub open spec fn normal_level(level: Seq<char>) -> Seq<char> {
    let l = text::lowered(text::trimmed(level));
    if l.len() == 0 {
        "log"@
    } else {
        l
    }
}

/// The entries that a message makes: one for each line that is not empty.
pub open spec fn part_entries(
    msg: Seq<char>,
    level: Seq<char>,
    tag: Seq<char>,
    url: Seq<char>,
    line: Option<u32>,
) -> Seq<LogLine> {
    text::nonempty(text::lines(msg)).map_values(
        |m: Seq<char>|
            LogLine { level: normal_level(level), tag: composed_tag(tag, url, line), message: m },
    )
}

/// The tag of an entry.
pub fn compose_tag(tag: &str, url: &str, line: Option<u32>) -> (r: String)
    ensures
        r@ == composed_tag(tag@, url@, line),
{
    if !tag.is_empty() {
        return text::owned(tag);
    }
    if url.is_empty() {
        return String::new();
    }
    match line {
        Some(n) => {
            let mut out = text::chars_of(url);
            text::push_str(&mut out, ":");
            text::push_all(&mut out, &number::to_decimal(n as u64));
            text::string_of(&out)
        },
        None => text::owned(url),
    }
}

/// Makes the entries of a message.
pub fn entries_from_parts(
    msg: &str,
    level: &str,
    tag: &str,
    url: &str,
    line: Option<u32>,
) -> (r: Vec<RawEntry>)
    ensures
        log_lines(r@) == part_entries(msg@, level@, tag@, url@, line),
{
    let mut name = text::lower_string(&text::trim_string(level));
    if name.as_str().is_empty() {
        name = text::owned("log");
    }
    let full_tag = compose_tag(tag, url, line);
    let pieces = text::split_lines(&text::chars_of(msg));
    let ghost all = text::lines(msg@);
    let ghost make = |m: Seq<char>|
        LogLine { level: normal_level(level@), tag: composed_tag(tag@, url@, line), message: m };
    let n: usize = pieces.len();
    let mut out: Vec<RawEntry> = Vec::new();
    let mut i: usize = 0;
    assert(log_lines(out@) =~= text::nonempty(all.take(0)).map_values(make));
    while i < n
        invariant
            i <= n == pieces@.len(),
            all == text::pieces(pieces@),
            name@ == normal_level(level@),
            full_tag@ == composed_tag(tag@, url@, line),
            make == (|m: Seq<char>|
                LogLine {
                    level: normal_level(level@),
                    tag: composed_tag(tag@, url@, line),
                    message: m,
                }),
            log_lines(out@) == text::nonempty(all.take(i as int)).map_values(make),
        decreases n - i,
    {
        let ghost front = text::nonempty(all.take(i as int));
        assert(all.take(i + 1).drop_last() =~= all.take(i as int));
        assert(all.take(i + 1).last() == pieces@[i as int]@);
        if pieces[i].len() > 0 {
            let e = RawEntry {
                level: name.clone(),
                tag: full_tag.clone(),
                message: text::string_of(&pieces[i]),
            };
            proof {
                lemma_log_lines_push(out@, e);
                assert(e@ == make(pieces@[i as int]@));
                assert(front.push(pieces@[i as int]@).map_values(make) =~= front.map_values(
                    make,
                ).push(e@));
            }
            out.push(e);
        }
        i += 1;
    }
    assert(all.take(n as int) =~= all);
    out
}

// ---------------------------------------------------------------------------
// Entries from parameters
// ---------------------------------------------------------------------------

/// A parameter: name and value.
pub type Param = (Seq<char>, Seq<char>);

/// The parameter in a piece of a query; `None` where it has no equals sign.
pub open spec fn param_of(piece: Seq<char>) -> Option<Param> {
    match text::cut(piece, '=') {
        Some((k, v)) => Some(
            (percent::percent_decoded(k, true), percent::percent_decoded(v, true)),
        ),
        None => None,
    }
}

/// The parameters of a list of pieces.
pub open spec fn params_of(pieces: Seq<Seq<char>>) -> Seq<Param>
    decreases pieces.len(),
{
    if pieces.len() == 0 {
        seq![]
    } else {
        let front = params_of(pieces.drop_last());
        match param_of(pieces.last()) {
            Some(p) => front.push(p),
            None => front,
        }
    }
}

/// The parameters of a query.
pub open spec fn params(query: Seq<char>) -> Seq<Param> {
    params_of(text::split(query, '&'))
}

/// The view of a list of parameters.
pub open spec fn param_views(list: Seq<(String, String)>) -> Seq<Param> {
    list.map_values(|p: (String, String)| (p.0@, p.1@))
}

/// Reads the parameters of a query: `k=v&k2=v2`, percent-encoded, with a plus sign for a space.
pub fn parse_params(query: &str) -> (r: Vec<(String, String)>)
    ensures
        param_views(r@) == params(query@),
{
    let pieces = text::split_at_char(&text::chars_of(query), '&');
    let ghost all = text::split(query@, '&');
    let n: usize = pieces.len();
    let mut out: Vec<(String, String)> = Vec::new();
    let mut i: usize = 0;
    assert(param_views(out@) =~= params_of(all.take(0)));
    while i < n
        invariant
            i <= n == pieces@.len(),
            all == text::pieces(pieces@),
            param_views(out@) == params_of(all.take(i as int)),
        decreases n - i,
    {
        assert(all.take(i + 1).drop_last() =~= all.take(i as int));
        assert(all.take(i + 1).last() == pieces@[i as int]@);
        if let Some((k, v)) = text::split_once_at(&pieces[i], '=') {
            let key = percent::percent_decode(&text::string_of(k), true);
            let value = percent::percent_decode(&text::string_of(v), true);
            let ghost before = out@;
            let ghost pair = (key, value);
            out.push((key, value));
            assert(param_views(out@) =~= param_views(before).push((pair.0@, pair.1@)));
        }
        i += 1;
    }
    assert(all.take(n as int) =~= all);
    out
}

/// The fields of a message as parameters give them.
#[verifier::ext_equal]
pub struct Fields {
    /// The message.
    pub msg: Seq<char>,
    /// The level.
    pub level: Seq<char>,
    /// The tag.
    pub tag: Seq<char>,
    /// The page.
    pub url: Seq<char>,
    /// The line of the page.
    pub line: Option<u32>,
}

/// The number of a line, where a text is one.
pub open spec fn line_number(v: Seq<char>) -> Option<u32> {
    match number::parsed(v, u32::MAX as nat) {
        Some(n) => Some(n as u32),
        None => None,
    }
}

/// The fields with a parameter taken over. A later parameter comes before an earlier one.
pub open spec fn with_param(f: Fields, k: Seq<char>, v: Seq<char>) -> Fields {
    if k == "msg"@ || k == "message"@ || k == "text"@ || k == "log"@ {
        Fields { msg: v, ..f }
    } else if k == "level"@ || k == "l"@ {
        Fields { level: v, ..f }
    } else if k == "tag"@ || k == "t"@ {
        Fields { tag: v, ..f }
    } else if k == "url"@ || k == "page"@ || k == "src"@ {
        Fields { url: v, ..f }
    } else if k == "line"@ || k == "ln"@ {
        Fields { line: line_number(v), ..f }
    } else {
        f
    }
}

/// The fields that a list of parameters gives.
pub open spec fn fields_of(list: Seq<Param>) -> Fields
    decreases list.len(),
{
    if list.len() == 0 {
        Fields {
            msg: Seq::empty(),
            level: Seq::empty(),
            tag: Seq::empty(),
            url: Seq::empty(),
            line: None,
        }
    } else {
        with_param(fields_of(list.drop_last()), list.last().0, list.last().1)
    }
}

/// The entries that a query makes.
pub open spec fn query_entries(query: Seq<char>) -> Seq<LogLine> {
    let f = fields_of(params(query));
    part_entries(f.msg, f.level, f.tag, f.url, f.line)
}

/// Whether a key is one of the given names.
fn is_one_of(k: &str, a: &str, b: &str, c: &str, d: &str) -> (r: bool)
    ensures
        r == (k@ == a@ || k@ == b@ || k@ == c@ || k@ == d@),
{
    text::same(k, a) || text::same(k, b) || text::same(k, c) || text::same(k, d)
}

/// Makes the entries of a query.
pub fn entries_from_query(query: &str) -> (r: Vec<RawEntry>)
    ensures
        log_lines(r@) == query_entries(query@),
{
    let list = parse_params(query);
    let ghost all = params(query@);
    let n: usize = list.len();
    let mut msg = String::new();
    let mut level = String::new();
    let mut tag = String::new();
    let mut url = String::new();
    let mut line: Option<u32> = None;
    let mut i: usize = 0;
    assert(all.take(0) =~= Seq::<Param>::empty());
    while i < n
        invariant
            i <= n == list@.len(),
            all == param_views(list@),
            fields_of(all.take(i as int)) == (Fields {
                msg: msg@,
                level: level@,
                tag: tag@,
                url: url@,
                line,
            }),
        decreases n - i,
    {
        let k = &list[i].0;
        let v = &list[i].1;
        proof {
            assert(all.take(i + 1).drop_last() =~= all.take(i as int));
            assert(all.take(i + 1).last() == (k@, v@));
        }
        if is_one_of(k, "msg", "message", "text", "log") {
            msg = v.clone();
        } else if is_one_of(k, "level", "l", "l", "l") {
            level = v.clone();
        } else if is_one_of(k, "tag", "t", "t", "t") {
            tag = v.clone();
        } else if is_one_of(k, "url", "page", "src", "src") {
            url = v.clone();
        } else if is_one_of(k, "line", "ln", "ln", "ln") {
            line = match number::parse(&text::chars_of(v), u32::MAX as u64) {
                Some(number) => Some(number as u32),
                None => None,
            };
        }
        i += 1;
    }
    assert(all.take(n as int) =~= all);
    entries_from_parts(&msg, &level, &tag, &url, line)
}

// ---------------------------------------------------------------------------
// Entries from JSON
// ---------------------------------------------------------------------------

/// The lower 32 bits of a number, where there is one.
pub open spec fn low_bits(n: Option<u64>) -> Option<u32> {
    match n {
        Some(n) => Some((n % 0x1_0000_0000) as u32),
        None => None,
    }
}

/// The entries that an object makes. The message may be named `message` or `msg`.
pub open spec fn object_entries(members: Seq<(Seq<char>, json::Tree)>) -> Seq<LogLine> {
    let message = json::member_text(members, "message"@);
    part_entries(
        if message.len() > 0 {
            message
        } else {
            json::member_text(members, "msg"@)
        },
        json::member_text(members, "level"@),
        json::member_text(members, "tag"@),
        json::member_text(members, "url"@),
        low_bits(json::member_number(members, "line"@)),
    )
}

/// The entries that a JSON value makes: those of an object, or of the items of an array.
pub open spec fn json_entries(t: json::Tree) -> Seq<LogLine>
    decreases t,
{
    match t {
        json::Tree::List(items) => list_entries(items),
        json::Tree::Object(members) => object_entries(members),
        _ => seq![],
    }
}

/// The entries that the items of an array make.
pub open spec fn list_entries(items: Seq<json::Tree>) -> Seq<LogLine>
    decreases items,
{
    if items.len() == 0 {
        seq![]
    } else {
        list_entries(items.drop_last()) + json_entries(items.last())
    }
}

/// Makes the entries of an object.
fn entries_from_object(members: &[(String, Json)]) -> (r: Vec<RawEntry>)
    ensures
        log_lines(r@) == object_entries(json::member_trees(members@)),
{
    let mut message = json::read_text(members, "message");
    if message.as_str().is_empty() {
        message = json::read_text(members, "msg");
    }
    let line = match json::read_number(members, "line") {
        Some(n) => {
            assert(n as u32 == (n % 0x1_0000_0000) as u32) by (bit_vector);
            Some(
                #[verifier::truncate]
                (n as u32),
            )
        },
        None => None,
    };
    entries_from_parts(
        &message,
        &json::read_text(members, "level"),
        &json::read_text(members, "tag"),
        &json::read_text(members, "url"),
        line,
    )
}

/// Makes the entries of a JSON value.
pub fn entries_from_json(v: &Json) -> (r: Vec<RawEntry>)
    ensures
        log_lines(r@) == json_entries(json::tree_of(*v)),
    decreases v,
{
    match v {
        Json::List(items) => {
            proof {
                json::lemma_list(*items);
            }
            let ghost trees = json::item_trees(items@);
            let n: usize = items.len();
            let mut out: Vec<RawEntry> = Vec::new();
            let mut i: usize = 0;
            assert(log_lines(out@) =~= list_entries(trees.take(0)));
            while i < n
                invariant
                    i <= n == items@.len(),
                    *v == Json::List(*items),
                    trees == json::item_trees(items@),
                    log_lines(out@) == list_entries(trees.take(i as int)),
                decreases n - i,
            {
                proof {
                    assert(decreases_to!(*v => v->List_0));
                    assert(decreases_to!(*items => items@));
                    assert(decreases_to!(items@ => items@[i as int]));
                }
                let mut more = entries_from_json(&items[i]);
                let ghost before = out@;
                let ghost added = more@;
                out.append(&mut more);
                proof {
                    assert(trees.take(i + 1).drop_last() =~= trees.take(i as int));
                    assert(trees.take(i + 1).last() == json::tree_of(items@[i as int]));
                    assert(log_lines(before + added) =~= log_lines(before) + log_lines(added));
                }
                i += 1;
            }
            assert(trees.take(n as int) =~= trees);
            out
        },
        Json::Object(members) => {
            proof {
                json::lemma_object(*members);
            }
            entries_from_object(members)
        },
        _ => {
            let none: Vec<RawEntry> = Vec::new();
            assert(log_lines(none@) =~= Seq::<LogLine>::empty());
            none
        },
    }
}

// ---------------------------------------------------------------------------
// Entries from a body
// ---------------------------------------------------------------------------

/// The entry for a body that is not valid JSON.
pub open spec fn malformed_entry(error: Seq<char>, body: Seq<char>) -> LogLine {
    LogLine {
        level: "error"@,
        tag: "tape"@,
        message: "JSON 解析失败: "@ + error + ": "@ + body,
    }
}

/// The entries of a JSON body, by the outcome of parsing it.
pub open spec fn parsed_entries(parsed: Result<json::Tree, Seq<char>>, body: Seq<char>) -> Seq<
    LogLine,
> {
    match parsed {
        Ok(t) => json_entries(t),
        Err(e) => seq![malformed_entry(e, body)],
    }
}

/// The text of a body; empty where it is not UTF-8.
pub open spec fn body_text(body: Seq<u8>) -> Seq<char> {
    match text::decoded(body) {
        Some(s) => s,
        None => Seq::empty(),
    }
}

/// The entries that a body makes, by its content type in lower case.
pub open spec fn body_entries(content_type: Seq<char>, body: Seq<u8>) -> Seq<LogLine> {
    let s = body_text(body);
    if text::has(content_type, "application/json"@) {
        parsed_entries(json::json_parsed(s), s)
    } else if text::has(content_type, "application/x-www-form-urlencoded"@) {
        query_entries(s)
    } else {
        part_entries(s, Seq::empty(), Seq::empty(), Seq::empty(), None)
    }
}

/// Makes the entries of a JSON body, by the outcome of parsing it.
pub fn entries_from_parsed(parsed: Result<Json, String>, body: &str) -> (r: Vec<RawEntry>)
    ensures
        log_lines(r@) == parsed_entries(json::outcome(parsed), body@),
{
    match parsed {
        Ok(v) => entries_from_json(&v),
        Err(e) => {
            let mut message = text::chars_of("JSON 解析失败: ");
            text::push_str(&mut message, &e);
            text::push_str(&mut message, ": ");
            text::push_str(&mut message, body);
            let entry = RawEntry {
                level: text::owned("error"),
                tag: text::owned("tape"),
                message: text::string_of(&message),
            };
            let mut out: Vec<RawEntry> = Vec::new();
            out.push(entry);
            assert(log_lines(out@) =~= seq![malformed_entry(e@, body@)]);
            out
        },
    }
}

/// Makes the entries of a body, by its content type in lower case.
pub fn entries_from_body(content_type: &str, body: &[u8]) -> (r: Vec<RawEntry>)
    ensures
        log_lines(r@) == body_entries(content_type@, body@),
{
    let s = match text::utf8(body) {
        Some(s) => text::owned(s),
        None => String::new(),
    };
    if text::str_contains(content_type, "application/json") {
        return entries_from_parsed(json::parse(&s), &s);
    }
    if text::str_contains(content_type, "application/x-www-form-urlencoded") {
        return entries_from_query(&s);
    }
    let empty = String::new();
    entries_from_parts(&s, &empty, &empty, &empty, None)
}

// ---------------------------------------------------------------------------
// Lines of the log
// ---------------------------------------------------------------------------

/// The tag as it stands in a line.
pub open spec fn rendered_tag(tag: Seq<char>) -> Seq<char> {
    if tag.len() == 0 {
        Seq::empty()
    } else {
        "["@ + tag + "] "@
    }
}

/// The line of an entry: `time [level] [tag] message`.
pub open spec fn line_text(ts: Seq<char>, entry: LogLine) -> Seq<char> {
    ts + " ["@ + entry.level + "] "@ + rendered_tag(entry.tag) + entry.message
}

/// The terminal's colour for a level.
pub open spec fn color_of(level: Seq<char>) -> Seq<char> {
    let l = text::lowered(level);
    if l == "debug"@ || l == "verbose"@ {
        "\x1b[32m"@
    } else if l == "log"@ || l == "info"@ {
        "\x1b[34m"@
    } else if l == "warn"@ || l == "warning"@ {
        "\x1b[33m"@
    } else if l == "error"@ || l == "fatal"@ {
        "\x1b[31m"@
    } else {
        Seq::empty()
    }
}

/// The line of an entry for a terminal: the level in its colour.
pub open spec fn colored_text(ts: Seq<char>, entry: LogLine) -> Seq<char> {
    text::first_replaced(
        line_text(ts, entry),
        "["@ + entry.level + "]"@,
        "["@ + color_of(entry.level) + entry.level + "\x1b[0m]"@,
    )
}

/// Writes the line of an entry.
pub fn format_line(ts: &str, entry: &RawEntry) -> (r: String)
    ensures
        r@ == line_text(ts@, entry@),
{
    let mut out = text::chars_of(ts);
    text::push_str(&mut out, " [");
    text::push_str(&mut out, &entry.level);
    text::push_str(&mut out, "] ");
    text::push_str(&mut out, &render_tag(&entry.tag));
    text::push_str(&mut out, &entry.message);
    text::string_of(&out)
}

/// Writes the tag as it stands in a line.
pub fn render_tag(tag: &str) -> (r: String)
    ensures
        r@ == rendered_tag(tag@),
{
    if tag.is_empty() {
        return String::new();
    }
    let mut out = text::chars_of("[");
    text::push_str(&mut out, tag);
    text::push_str(&mut out, "] ");
    text::string_of(&out)
}

/// The terminal's colour for a level.
pub fn level_color(level: &str) -> (r: &'static str)
    ensures
        r@ == color_of(level@),
{
    let l = text::lower_string(level);
    if text::same(&l, "debug") || text::same(&l, "verbose") {
        "\x1b[32m"
    } else if text::same(&l, "log") || text::same(&l, "info") {
        "\x1b[34m"
    } else if text::same(&l, "warn") || text::same(&l, "warning") {
        "\x1b[33m"
    } else if text::same(&l, "error") || text::same(&l, "fatal") {
        "\x1b[31m"
    } else {
        proof {
            reveal_strlit("");
            assert(""@ =~= Seq::<char>::empty());
        }
        ""
    }
}

/// Writes the line of an entry for a terminal.
pub fn format_colored_line(ts: &str, entry: &RawEntry) -> (r: String)
    ensures
        r@ == colored_text(ts@, entry@),
{
    let line = text::chars_of(&format_line(ts, entry));
    let mut plain = text::chars_of("[");
    text::push_str(&mut plain, &entry.level);
    text::push_str(&mut plain, "]");
    let mut colored = text::chars_of("[");
    text::push_str(&mut colored, level_color(&entry.level));
    text::push_str(&mut colored, &entry.level);
    text::push_str(&mut colored, "\x1b[0m]");
    text::string_of(&text::replace_first(&line, &plain, &colored))
}

/// The time of a line that is written now, in local time.
pub fn now_ts() -> (r: String)
    ensures
        exists|t: clock::CivilTime| clock::is_civil(t) && r@ == #[trigger] clock::log_time_text(t),
{
    let t = clock::local_time();
    let r = clock::format_log_time(t);
    assert(clock::is_civil(t) && r@ == clock::log_time_text(t));
    r
}

// ---------------------------------------------------------------------------
// Requests
// ---------------------------------------------------------------------------

/// An answer that allows pages of all origins to push.
pub open spec fn open_reply(status: u16, body: Seq<char>) -> http::Reply {
    http::Reply {
        status,
        headers: seq![
            http::text_header("content-type"@, "text/plain; charset=utf-8"@),
            http::text_header("access-control-allow-origin"@, "*"@),
            http::text_header("access-control-allow-methods"@, "GET, POST, OPTIONS"@),
            http::text_header("access-control-allow-headers"@, "content-type"@),
        ],
        body: vstd::utf8::encode_utf8(body),
    }
}

/// The message that counts the entries that were taken.
pub open spec fn count_message(n: nat) -> Seq<char> {
    "ok: "@ + number::decimal(n) + " line(s) recorded\n"@
}

/// The entries that a request brings; `None` where its method brings none.
pub open spec fn request_entries(
    method: Seq<char>,
    query: Seq<char>,
    content_type: Seq<char>,
    body: Seq<u8>,
) -> Option<Seq<LogLine>> {
    if method == "GET"@ {
        Some(query_entries(query))
    } else if method == "POST"@ {
        Some(body_entries(text::lowered(content_type), body))
    } else {
        None
    }
}

/// The answer to a request that brings the given entries.
pub open spec fn request_reply(method: Seq<char>, entries: Option<Seq<LogLine>>) -> http::Reply {
    match entries {
        Some(lines) => open_reply(200, count_message(lines.len())),
        None => if method == "OPTIONS"@ {
            open_reply(204, Seq::empty())
        } else {
            open_reply(405, "method not allowed\n"@)
        },
    }
}

/// Makes an answer that allows pages of all origins to push.
pub fn response(status: u16, body: &str) -> (r: HttpResponse)
    ensures
        r@ == open_reply(status, body@),
{
    let mut headers: Vec<HttpHeader> = Vec::new();
    headers.push(http::make_header("content-type", "text/plain; charset=utf-8"));
    headers.push(http::make_header("access-control-allow-origin", "*"));
    headers.push(http::make_header("access-control-allow-methods", "GET, POST, OPTIONS"));
    headers.push(http::make_header("access-control-allow-headers", "content-type"));
    let r = HttpResponse { status, headers, body: text::bytes_of(body) };
    assert(r@.headers =~= open_reply(status, body@).headers);
    r
}

/// Answers a request, and hands out the entries that it brings.
pub fn handle_request(req: &HttpRequest) -> (r: (HttpResponse, Vec<RawEntry>))
    ensures
        ({
            let entries = request_entries(
                req.method@,
                http::query_of(req.uri@.path_and_query),
                http::header_text(http::header_views(req.headers@), "content-type"@),
                req.body@,
            );
            &&& r.0@ == request_reply(req.method@, entries)
            &&& log_lines(r.1@) == match entries {
                Some(lines) => lines,
                None => Seq::empty(),
            }
        }),
{
    let entries: Vec<RawEntry>;
    if text::same(&req.method, "GET") {
        entries = entries_from_query(&http::read_query(&req.uri));
    } else if text::same(&req.method, "POST") {
        let content_type = text::lower_string(&http::read_header(&req.headers, "content-type"));
        entries = entries_from_body(&content_type, &req.body);
    } else {
        let none: Vec<RawEntry> = Vec::new();
        assert(log_lines(none@) =~= Seq::<LogLine>::empty());
        if text::same(&req.method, "OPTIONS") {
            return (response(204, &String::new()), none);
        }
        return (response(405, "method not allowed\n"), none);
    }
    let mut message = text::chars_of("ok: ");
    text::push_all(&mut message, &number::to_decimal(entries.len() as u64));
    text::push_str(&mut message, " line(s) recorded\n");
    (response(200, &text::string_of(&message)), entries)
}

// ---------------------------------------------------------------------------
// Laws
// ---------------------------------------------------------------------------

/// No line of a text holds a line feed.
proof fn lemma_lines_hold_no_feed(s: Seq<char>, i: int)
    requires
        0 <= i < text::lines(s).len(),
    ensures
        !text::lines(s)[i].contains('\n'),
    decreases s.len(),
{
    let k = text::upto(s, '\n', '\n');
    text::lemma_upto(s, '\n', '\n');
    if s.len() > 0 && k < s.len() {
        if i == 0 {
            let front = text::without_return(s.take(k));
            assert forall|j: int| 0 <= j < front.len() implies front[j] != '\n' by {
                assert(front[j] == s[j]);
            }
        } else {
            lemma_lines_hold_no_feed(s.skip(k + 1), i - 1);
        }
    }
}

/// An entry as it should be: a level in lower case, and a message of one line that is not empty.
pub open spec fn is_proper(e: LogLine) -> bool {
    &&& e.level.len() > 0
    &&& text::lowered(e.level) == e.level
    &&& e.message.len() > 0
    &&& !e.message.contains('\n')
}

/// What is kept of a list is in it, and not empty.
proof fn lemma_nonempty_member(list: Seq<Seq<char>>, i: int)
    requires
        0 <= i < text::nonempty(list).len(),
    ensures
        text::nonempty(list)[i].len() > 0,
        list.contains(text::nonempty(list)[i]),
    decreases list.len(),
{
    if list.len() > 0 {
        let front = text::nonempty(list.drop_last());
        if i < front.len() {
            lemma_nonempty_member(list.drop_last(), i);
            let t = front[i];
            let j = choose|j: int| 0 <= j < list.drop_last().len() && list.drop_last()[j] == t;
            assert(list[j] == t);
        } else {
            assert(list[list.len() - 1] == text::nonempty(list)[i]);
        }
    }
}

/// Every entry that a message makes has a level in lower case and one line of text.
pub proof fn law_part_entries_are_proper(
    msg: Seq<char>,
    level: Seq<char>,
    tag: Seq<char>,
    url: Seq<char>,
    line: Option<u32>,
)
    ensures
        forall|i: int|
            0 <= i < part_entries(msg, level, tag, url, line).len() ==> is_proper(
                #[trigger] part_entries(msg, level, tag, url, line)[i],
            ),
{
    let entries = part_entries(msg, level, tag, url, line);
    let kept = text::nonempty(text::lines(msg));
    reveal_strlit("log");
    text::lemma_lowered_idempotent(text::trimmed(level));
    assert(text::lowered("log"@) =~= "log"@);
    assert forall|i: int| 0 <= i < entries.len() implies is_proper(#[trigger] entries[i]) by {
        assert(entries[i].message == kept[i]);
        lemma_nonempty_member(text::lines(msg), i);
        let j = choose|j: int| 0 <= j < text::lines(msg).len() && text::lines(msg)[j] == kept[i];
        lemma_lines_hold_no_feed(msg, j);
    }
}

/// Every entry that a query makes has a level in lower case and one line of text.
pub proof fn law_query_entries_are_proper(query: Seq<char>)
    ensures
        forall|i: int|
            0 <= i < query_entries(query).len() ==> is_proper(#[trigger] query_entries(query)[i]),
{
    let f = fields_of(params(query));
    law_part_entries_are_proper(f.msg, f.level, f.tag, f.url, f.line);
}

/// Every entry that a JSON value makes has a level in lower case and one line of text.
pub proof fn law_json_entries_are_proper(t: json::Tree)
    ensures
        forall|i: int|
            0 <= i < json_entries(t).len() ==> is_proper(#[trigger] json_entries(t)[i]),
    decreases t,
{
    match t {
        json::Tree::List(items) => {
            lemma_list_entries_are_proper(items);
            assert(json_entries(t) == list_entries(items)) by {
                reveal_with_fuel(json_entries, 2);
            }
        },
        json::Tree::Object(members) => {
            let message = json::member_text(members, "message"@);
            law_part_entries_are_proper(
                if message.len() > 0 {
                    message
                } else {
                    json::member_text(members, "msg"@)
                },
                json::member_text(members, "level"@),
                json::member_text(members, "tag"@),
                json::member_text(members, "url"@),
                low_bits(json::member_number(members, "line"@)),
            );
        },
        _ => {},
    }
}

/// Every entry that the items of an array make is proper.
proof fn lemma_list_entries_are_proper(items: Seq<json::Tree>)
    ensures
        forall|i: int|
            0 <= i < list_entries(items).len() ==> is_proper(#[trigger] list_entries(items)[i]),
    decreases items,
{
    if items.len() > 0 {
        let front = list_entries(items.drop_last());
        let back = json_entries(items.last());
        lemma_list_entries_are_proper(items.drop_last());
        law_json_entries_are_proper(items.last());
        let all = list_entries(items);
        assert forall|i: int| 0 <= i < all.len() implies is_proper(#[trigger] all[i]) by {
            if i < front.len() {
                assert(all[i] == front[i]);
            } else {
                assert(all[i] == back[i - front.len()]);
            }
        }
    }
}

/// Every answer allows pages of all origins to push.
pub proof fn law_every_answer_is_open(method: Seq<char>, entries: Option<Seq<LogLine>>)
    ensures
        request_reply(method, entries).headers.contains(
            http::text_header("access-control-allow-origin"@, "*"@),
        ),
{
    let headers = request_reply(method, entries).headers;
    assert(headers[1] == http::text_header("access-control-allow-origin"@, "*"@));
}

/// Every entry that an object makes has the tag that the object gives, and only where it gives
/// none the page with its line; the level that it gives; and a line of its message, with one
/// entry for every line that is not empty.
pub proof fn law_object_entries_say_what_was_sent(
    members: Seq<(Seq<char>, json::Tree)>,
    i: int,
)
    ensures
        ({
            let tag = json::member_text(members, "tag"@);
            let url = json::member_text(members, "url"@);
            let line = json::member_number(members, "line"@);
            let level = text::lowered(text::trimmed(json::member_text(members, "level"@)));
            let message = json::member_text(members, "message"@);
            let sent = if message.len() > 0 {
                message
            } else {
                json::member_text(members, "msg"@)
            };
            let own = text::lines(sent).filter(|l: Seq<char>| l.len() > 0);
            let entries = object_entries(members);
            &&& entries.len() == own.len()
            &&& 0 <= i < own.len() ==> {
                &&& entries[i].message == own[i]
                &&& tag.len() > 0 ==> entries[i].tag == tag
                &&& tag.len() == 0 && url.len() == 0 ==> entries[i].tag.len() == 0
                &&& tag.len() == 0 && url.len() > 0 && line is None ==> entries[i].tag == url
                &&& tag.len() == 0 && url.len() > 0 && line is Some ==> entries[i].tag == url + ":"@
                    + number::decimal((line->0 % 0x1_0000_0000) as nat)
                &&& level.len() > 0 ==> entries[i].level == level
                &&& level.len() == 0 ==> entries[i].level == "log"@
            }
        }),
{
    let message = json::member_text(members, "message"@);
    text::law_nonempty(
        text::lines(
            if message.len() > 0 {
                message
            } else {
                json::member_text(members, "msg"@)
            },
        ),
    );
}

/// An array makes the entries of its items, in their order; a value that is neither an array nor
/// an object makes none.
pub proof fn law_array_entries(
    items: Seq<json::Tree>,
    members: Seq<(Seq<char>, json::Tree)>,
    t: json::Tree,
)
    ensures
        json_entries(json::Tree::Object(members)) == object_entries(members),
        json_entries(json::Tree::List(seq![])).len() == 0,
        json_entries(json::Tree::List(items.push(t))) == json_entries(json::Tree::List(items))
            + json_entries(t),
        !(t is List) && !(t is Object) ==> json_entries(t).len() == 0,
{
    reveal_with_fuel(json_entries, 2);
    assert(items.push(t).drop_last() =~= items);
    assert(list_entries(items.push(t)) == list_entries(items) + json_entries(t)) by {
        reveal_with_fuel(list_entries, 2);
    }
    assert(list_entries(seq![]).len() == 0);
}

/// Every entry that a query makes has the tag, the level and a line of the message that the query
/// gives, as those of an object do.
pub proof fn law_query_entries_say_what_was_sent(query: Seq<char>, i: int)
    ensures
        ({
            let f = fields_of(params(query));
            let level = text::lowered(text::trimmed(f.level));
            let own = text::lines(f.msg).filter(|l: Seq<char>| l.len() > 0);
            let entries = query_entries(query);
            &&& entries.len() == own.len()
            &&& 0 <= i < own.len() ==> {
                &&& entries[i].message == own[i]
                &&& f.tag.len() > 0 ==> entries[i].tag == f.tag
                &&& f.tag.len() == 0 && f.url.len() == 0 ==> entries[i].tag.len() == 0
                &&& f.tag.len() == 0 && f.url.len() > 0 && f.line is None ==> entries[i].tag
                    == f.url
                &&& f.tag.len() == 0 && f.url.len() > 0 && f.line is Some ==> entries[i].tag
                    == f.url + ":"@ + number::decimal(f.line->0 as nat)
                &&& level.len() > 0 ==> entries[i].level == level
                &&& level.len() == 0 ==> entries[i].level == "log"@
            }
        }),
{
    text::law_nonempty(text::lines(fields_of(params(query)).msg));
}

/// The parameters of a query are those of its pieces between ampersands, each unescaped on both
/// sides of its first equals sign; a piece without one is none.
pub proof fn law_parameters(k: Seq<char>, v: Seq<char>, rest: Seq<char>)
    requires
        !k.contains('='),
        !k.contains('&'),
        !v.contains('&'),
    ensures
        params(k).len() == 0,
        params(k + "="@ + v) == seq![
            (percent::percent_decoded(k, true), percent::percent_decoded(v, true)),
        ],
        params(k + "&"@ + rest) == params(rest),
        params(k + "="@ + v + "&"@ + rest) == seq![
            (percent::percent_decoded(k, true), percent::percent_decoded(v, true)),
        ] + params(rest),
{
    reveal_strlit("=");
    reveal_strlit("&");
    assert("="@ =~= seq!['=']);
    assert("&"@ =~= seq!['&']);
    let pair = k + "="@ + v;
    assert(!pair.contains('&')) by {
        if pair.contains('&') {
            let j = choose|j: int| 0 <= j < pair.len() && pair[j] == '&';
            if j < k.len() {
                assert(k[j] == '&');
            } else if j > k.len() {
                assert(v[j - k.len() - 1] == '&');
            }
        }
    }
    text::law_split(k, '&', rest);
    text::law_split(pair, '&', rest);
    text::law_cut(k, '=', v);
    assert(text::cut(k, '=') is None) by {
        text::lemma_upto(k, '=', '=');
        let j = text::upto(k, '=', '=');
        if j < k.len() {
            assert(k.contains(k[j]));
        }
    }
    reveal_with_fuel(params_of, 2);
    assert(seq![k].drop_last() =~= Seq::<Seq<char>>::empty());
    assert(seq![pair].drop_last() =~= Seq::<Seq<char>>::empty());
    lemma_params_behind(k, text::split(rest, '&'));
    lemma_params_behind(pair, text::split(rest, '&'));
    assert(params(pair) =~= seq![
        (percent::percent_decoded(k, true), percent::percent_decoded(v, true)),
    ]);
    assert(params(k + "&"@ + rest) =~= params(rest));
    assert(params(k + "="@ + v + "&"@ + rest) =~= params(pair) + params(rest));
}

/// The parameters of a piece come before those of the pieces behind it.
proof fn lemma_params_behind(piece: Seq<char>, list: Seq<Seq<char>>)
    ensures
        params_of(seq![piece] + list) == params_of(seq![piece]) + params_of(list),
    decreases list.len(),
{
    let all = seq![piece] + list;
    if list.len() > 0 {
        lemma_params_behind(piece, list.drop_last());
        assert(all.drop_last() =~= seq![piece] + list.drop_last());
        assert(all.last() == list.last());
        assert(params_of(all) =~= params_of(seq![piece]) + params_of(list));
    } else {
        assert(all =~= seq![piece]);
        assert(params_of(all) =~= params_of(seq![piece]) + params_of(list));
    }
}

/// The names of a parameter for the message.
pub open spec fn message_names() -> Seq<Seq<char>> {
    seq!["msg"@, "message"@, "text"@, "log"@]
}

/// The names of a parameter for the page.
pub open spec fn page_names() -> Seq<Seq<char>> {
    seq!["url"@, "page"@, "src"@]
}

/// What a parameter changes of the fields.
proof fn lemma_with_param(f: Fields, k: Seq<char>, v: Seq<char>)
    ensures
        ({
            let g = with_param(f, k, v);
            &&& g.msg == if message_names().contains(k) {
                v
            } else {
                f.msg
            }
            &&& g.level == if seq!["level"@, "l"@].contains(k) {
                v
            } else {
                f.level
            }
            &&& g.tag == if seq!["tag"@, "t"@].contains(k) {
                v
            } else {
                f.tag
            }
            &&& g.url == if page_names().contains(k) {
                v
            } else {
                f.url
            }
            &&& g.line == if seq!["line"@, "ln"@].contains(k) {
                line_number(v)
            } else {
                f.line
            }
        }),
{
    reveal_strlit("msg");
    reveal_strlit("message");
    reveal_strlit("text");
    reveal_strlit("log");
    reveal_strlit("level");
    reveal_strlit("l");
    reveal_strlit("tag");
    reveal_strlit("t");
    reveal_strlit("url");
    reveal_strlit("page");
    reveal_strlit("src");
    reveal_strlit("line");
    reveal_strlit("ln");
    let a = message_names();
    let b = seq!["level"@, "l"@];
    let c = seq!["tag"@, "t"@];
    let d = page_names();
    let e = seq!["line"@, "ln"@];
    assert(a[0] == "msg"@ && a[1] == "message"@ && a[2] == "text"@ && a[3] == "log"@);
    assert(b[0] == "level"@ && b[1] == "l"@ && c[0] == "tag"@ && c[1] == "t"@);
    assert(d[0] == "url"@ && d[1] == "page"@ && d[2] == "src"@);
    assert(e[0] == "line"@ && e[1] == "ln"@);
    assert("msg"@[0] == 'm' && "message"@[0] == 'm' && "text"@[0] == 't' && "log"@[0] == 'l');
    assert("level"@[0] == 'l' && "l"@[0] == 'l' && "tag"@[0] == 't' && "t"@[0] == 't');
    assert("url"@[0] == 'u' && "page"@[0] == 'p' && "src"@[0] == 's');
    assert("line"@[0] == 'l' && "ln"@[0] == 'l');
    assert("msg"@.len() == 3 && "message"@.len() == 7 && "text"@.len() == 4 && "log"@.len() == 3);
    assert("level"@.len() == 5 && "l"@.len() == 1 && "tag"@.len() == 3 && "t"@.len() == 1);
    assert("url"@.len() == 3 && "page"@.len() == 4 && "src"@.len() == 3);
    assert("line"@.len() == 4 && "ln"@.len() == 2);
    assert(a.contains(k) <==> k == "msg"@ || k == "message"@ || k == "text"@ || k == "log"@);
    assert(b.contains(k) <==> k == "level"@ || k == "l"@);
    assert(c.contains(k) <==> k == "tag"@ || k == "t"@);
    assert(d.contains(k) <==> k == "url"@ || k == "page"@ || k == "src"@);
    assert(e.contains(k) <==> k == "line"@ || k == "ln"@);
}

/// Of the parameters with a name for the same field, the last gives it, whatever comes behind it
/// under other names; a field that no parameter names is empty.
pub proof fn law_last_parameter_counts(list: Seq<Param>, names: Seq<Seq<char>>, i: int)
    requires
        -1 <= i < list.len(),
        i >= 0 ==> names.contains(list[i].0),
        forall|j: int| i < j < list.len() ==> !names.contains((#[trigger] list[j]).0),
    ensures
        ({
            let f = fields_of(list);
            let v = if i >= 0 {
                list[i].1
            } else {
                Seq::empty()
            };
            &&& names == seq!["msg"@, "message"@, "text"@, "log"@] ==> f.msg == v
            &&& names == seq!["level"@, "l"@] ==> f.level == v
            &&& names == seq!["tag"@, "t"@] ==> f.tag == v
            &&& names == seq!["url"@, "page"@, "src"@] ==> f.url == v
            &&& names == seq!["line"@, "ln"@] ==> f.line == match number::parsed(
                v,
                0xffff_ffff,
            ) {
                Some(n) => Some(n as u32),
                None => None,
            }
        }),
    decreases list.len(),
{
    if list.len() > 0 {
        let front = list.drop_last();
        lemma_with_param(fields_of(front), list.last().0, list.last().1);
        if i < front.len() {
            law_last_parameter_counts(front, names, i);
        }
    }
}

/// A body is read as its content type says: as JSON, as parameters, or else as plain text, whose
/// lines are entries without a tag; and one that is no text brings no entry as the latter two.
pub proof fn law_content_type_says_how_a_body_is_read(
    kind: Seq<char>,
    s: Seq<char>,
    body: Seq<u8>,
    i: int,
)
    ensures
        ({
            let bytes = vstd::utf8::encode_utf8(s);
            let is_json = text::has(kind, "application/json"@);
            let form = text::has(kind, "application/x-www-form-urlencoded"@);
            let own = text::lines(s).filter(|l: Seq<char>| l.len() > 0);
            &&& is_json && json::json_parsed(s) is Ok ==> body_entries(kind, bytes) == json_entries(
                json::json_parsed(s)->Ok_0,
            )
            &&& is_json && json::json_parsed(s) is Err ==> body_entries(kind, bytes) == seq![
                LogLine {
                    level: "error"@,
                    tag: "tape"@,
                    message: "JSON 解析失败: "@ + json::json_parsed(s)->Err_0 + ": "@ + s,
                },
            ]
            &&& !is_json && form ==> body_entries(kind, bytes) == query_entries(s)
            &&& !is_json && !form ==> {
                &&& body_entries(kind, bytes).len() == own.len()
                &&& 0 <= i < own.len() ==> body_entries(kind, bytes)[i] == (LogLine {
                    level: "log"@,
                    tag: seq![],
                    message: own[i],
                })
            }
            &&& !is_json && !vstd::utf8::valid_utf8(body) ==> body_entries(kind, body).len() == 0
        }),
{
    vstd::utf8::encode_utf8_valid_utf8(s);
    vstd::utf8::encode_utf8_decode_utf8(s);
    text::law_nonempty(text::lines(s));
    let none = Seq::<char>::empty();
    assert(none =~= none + none + none);
    text::law_trimmed(none, none, none);
    assert(text::lines(none).len() == 0);
    assert(text::nonempty(text::lines(none)).len() == 0);
    if !vstd::utf8::valid_utf8(body) && text::has(kind, "application/x-www-form-urlencoded"@) {
        text::law_split(none, '&', none);
        reveal_with_fuel(params_of, 2);
        assert(text::cut(none, '=') is None);
        assert(params(none).len() == 0);
        assert(query_entries(none).len() == 0);
    }
}

/// A line of the log holds the time, the level, the tag where there is one, and the message; on a
/// terminal it is the same with the level in its colour.
pub proof fn law_line_is_written_whole(ts: Seq<char>, e: LogLine)
    requires
        !ts.contains('['),
    ensures
        ({
            let tag = if e.tag.len() > 0 {
                "["@ + e.tag + "] "@
            } else {
                ""@
            };
            &&& line_text(ts, e) == ts + " ["@ + e.level + "] "@ + tag + e.message
            &&& colored_text(ts, e) == ts + " ["@ + color_of(e.level) + e.level + "\x1b[0m] "@ + tag
                + e.message
        }),
{
    reveal_strlit("");
    assert(""@ =~= Seq::<char>::empty());
    reveal_strlit(" [");
    reveal_strlit("[");
    reveal_strlit("]");
    reveal_strlit("] ");
    reveal_strlit(" ");
    reveal_strlit("\x1b[0m]");
    reveal_strlit("\x1b[0m] ");
    let a = ts + " "@;
    let pat = "["@ + e.level + "]"@;
    let b = " "@ + rendered_tag(e.tag) + e.message;
    let with = "["@ + color_of(e.level) + e.level + "\x1b[0m]"@;
    let line = line_text(ts, e);
    assert(line =~= a + pat + b);
    assert forall|j: int| 0 <= j < a.len() implies !text::occurs_at(a + pat + b, pat, j) by {
        assert((a + pat + b)[j] == a[j]);
        if text::occurs_at(a + pat + b, pat, j) {
            assert((a + pat + b).subrange(j, j + pat.len())[0] == pat[0]);
            assert(pat[0] == '[');
            if j < ts.len() {
                assert(ts[j] == '[');
            }
        }
    }
    text::law_first_replaced(a, pat, b, with);
    assert(colored_text(ts, e) =~= ts + " ["@ + color_of(e.level) + e.level + "\x1b[0m] "@
        + rendered_tag(e.tag) + e.message);
}

/// The colours of the levels, whatever their case.
pub proof fn law_level_colors(level: Seq<char>)
    ensures
        ({
            let l = text::lowered(level);
            &&& l == "debug"@ || l == "verbose"@ ==> color_of(level) == "\x1b[32m"@
            &&& l == "log"@ || l == "info"@ ==> color_of(level) == "\x1b[34m"@
            &&& l == "warn"@ || l == "warning"@ ==> color_of(level) == "\x1b[33m"@
            &&& l == "error"@ || l == "fatal"@ ==> color_of(level) == "\x1b[31m"@
            &&& color_of(level).len() > 0 ==> seq![
                "debug"@,
                "verbose"@,
                "log"@,
                "info"@,
                "warn"@,
                "warning"@,
                "error"@,
                "fatal"@,
            ].contains(l)
        }),
{
    reveal_strlit("debug");
    reveal_strlit("verbose");
    reveal_strlit("log");
    reveal_strlit("info");
    reveal_strlit("warn");
    reveal_strlit("warning");
    reveal_strlit("error");
    reveal_strlit("fatal");
    let list = seq![
        "debug"@,
        "verbose"@,
        "log"@,
        "info"@,
        "warn"@,
        "warning"@,
        "error"@,
        "fatal"@,
    ];
    assert(list[0] == "debug"@ && list[1] == "verbose"@ && list[2] == "log"@);
    assert(list[3] == "info"@ && list[4] == "warn"@ && list[5] == "warning"@);
    assert(list[6] == "error"@ && list[7] == "fatal"@);
    assert("debug"@[0] == 'd' && "verbose"@[0] == 'v' && "log"@[0] == 'l' && "info"@[0] == 'i');
    assert("warn"@[0] == 'w' && "warning"@[0] == 'w' && "error"@[0] == 'e' && "fatal"@[0] == 'f');
}

/// A request is answered by its method: one that reads brings the entries of its query, one that
/// posts those of its body, and both are told how many; any other brings none.
pub proof fn law_answers_to_pushes(
    method: Seq<char>,
    query: Seq<char>,
    kind: Seq<char>,
    body: Seq<u8>,
)
    ensures
        ({
            let entries = request_entries(method, query, kind, body);
            let reply = request_reply(method, entries);
            &&& method == "GET"@ ==> entries == Some(query_entries(query))
            &&& method == "POST"@ ==> entries == Some(body_entries(text::lowered(kind), body))
            &&& method == "GET"@ || method == "POST"@ ==> reply.status == 200 && reply.body
                == vstd::utf8::encode_utf8(
                "ok: "@ + number::decimal(entries->0.len()) + " line(s) recorded\n"@,
            )
            &&& method != "GET"@ && method != "POST"@ ==> entries is None
            &&& method == "OPTIONS"@ ==> reply.status == 204 && reply.body
                == vstd::utf8::encode_utf8(seq![])
            &&& method != "GET"@ && method != "POST"@ && method != "OPTIONS"@ ==> reply.status
                == 405 && reply.body == vstd::utf8::encode_utf8("method not allowed\n"@)
            &&& reply.headers == seq![
                ("content-type"@, vstd::utf8::encode_utf8("text/plain; charset=utf-8"@)),
                ("access-control-allow-origin"@, vstd::utf8::encode_utf8("*"@)),
                ("access-control-allow-methods"@, vstd::utf8::encode_utf8("GET, POST, OPTIONS"@)),
                ("access-control-allow-headers"@, vstd::utf8::encode_utf8("content-type"@)),
            ]
        }),
{
    reveal_strlit("GET");
    reveal_strlit("POST");
    reveal_strlit("OPTIONS");
    assert("GET"@.len() == 3 && "POST"@.len() == 4 && "OPTIONS"@.len() == 7);
}

} // verus!
