//! Logs of Android devices: parsing, filtering and showing them.
use crate::log_file;
use crate::number;
use crate::text;
use vstd::prelude::*;
use vstd::slice::slice_subrange;

verus! {

/// An entry of a device's log, in the format `threadtime`.
#[derive(Debug)]
pub struct LogEntry {
    pub time: String,
    pub pid: String,
    pub tid: String,
    /// One of `V`, `D`, `I`, `W`, `E`, `F`.
    pub level: String,
    pub tag: String,
    pub message: String,
}

/// The model of an entry.
pub struct DeviceLine {
    /// The time of day.
    pub time: Seq<char>,
    /// The process.
    pub pid: Seq<char>,
    /// The thread.
    pub tid: Seq<char>,
    /// The level.
    pub level: Seq<char>,
    /// The tag.
    pub tag: Seq<char>,
    /// The message.
    pub message: Seq<char>,
}

impl View for LogEntry {
    type V = DeviceLine;

    open spec fn view(&self) -> DeviceLine {
        DeviceLine {
            time: self.time@,
            pid: self.pid@,
            tid: self.tid@,
            level: self.level@,
            tag: self.tag@,
            message: self.message@,
        }
    }
}

/// Whether a text is a level.
pub open spec fn is_level(level: Seq<char>) -> bool {
    level == "V"@ || level == "D"@ || level == "I"@ || level == "W"@ || level == "E"@ || level
        == "F"@
}

/// Tag and message of an entry: the parts before and after the first `: `.
pub open spec fn tag_and_message(s: Seq<char>) -> (Seq<char>, Seq<char>) {
    match text::cut_text(s, ": "@) {
        Some(parts) => parts,
        None => (s, Seq::empty()),
    }
}

/// The entry in a line such as `02-03 15:44:41.704  2359  3654 I TagName: Message`; `None`
/// where it has fewer than six words, or no level in its fifth.
pub open spec fn entry_in(line: Seq<char>) -> Option<DeviceLine> {
    let w = text::words(line);
    if w.len() < 6 || !is_level(w[4]) {
        None
    } else {
        let (tag, message) = tag_and_message(text::joined(w.skip(5), " "@));
        Some(DeviceLine { time: w[1], pid: w[2], tid: w[3], level: w[4], tag, message })
    }
}

/// The view of an optional entry.
pub open spec fn opt_entry(o: Option<LogEntry>) -> Option<DeviceLine> {
    match o {
        Some(e) => Some(e@),
        None => None,
    }
}

/// Whether a text is a level.
fn known_level(level: &str) -> (r: bool)
    ensures
        r == is_level(level@),
{
    text::same(level, "V") || text::same(level, "D") || text::same(level, "I") || text::same(
        level,
        "W",
    ) || text::same(level, "E") || text::same(level, "F")
}

/// Parses a line in the format `threadtime`.
pub fn parse_log_line(line: &str) -> (r: Option<LogEntry>)
    ensures
        opt_entry(r) == entry_in(line@),
{
    let parts = text::split_words(&text::chars_of(line));
    let ghost w = text::words(line@);
    let n: usize = parts.len();
    assert(w.len() == n);
    if n < 6 {
        return None;
    }
    assert(w[4] == parts@[4]@);
    let level = text::string_of(&parts[4]);
    if !known_level(&level) {
        return None;
    }
    let rest = slice_subrange(&parts, 5, n);
    assert(text::pieces(rest@) =~= w.skip(5));
    let all = text::join(rest, &text::chars_of(" "));
    let (tag, message) = match text::split_once(&all, ": ") {
        Some((t, m)) => (text::string_of(t), text::string_of(m)),
        None => (text::string_of(&all), String::new()),
    };
    Some(
        LogEntry {
            time: text::string_of(&parts[1]),
            pid: text::string_of(&parts[2]),
            tid: text::string_of(&parts[3]),
            level,
            tag,
            message,
        },
    )
}

// ---------------------------------------------------------------------------
// Levels
// ---------------------------------------------------------------------------

/// The weight of a level.
pub open spec fn rank_of(level: Seq<char>) -> u8 {
    if level == "D"@ {
        1
    } else if level == "I"@ {
        2
    } else if level == "W"@ {
        3
    } else if level == "E"@ {
        4
    } else if level == "F"@ {
        5
    } else {
        0
    }
}

/// The weight of a level: from `V`, the least, to `F`. What is no level weighs least.
pub fn level_rank(level: &str) -> (r: u8)
    ensures
        r == rank_of(level@),
{
    if text::same(level, "D") {
        1
    } else if text::same(level, "I") {
        2
    } else if text::same(level, "W") {
        3
    } else if text::same(level, "E") {
        4
    } else if text::same(level, "F") {
        5
    } else {
        0
    }
}

/// The terminal's colour for a level.
pub open spec fn color_of(level: Seq<char>) -> Seq<char> {
    if level == "V"@ {
        "\x1b[90m"@
    } else if level == "D"@ {
        "\x1b[32m"@
    } else if level == "I"@ {
        "\x1b[34m"@
    } else if level == "W"@ {
        "\x1b[33m"@
    } else if level == "E"@ {
        "\x1b[31m"@
    } else if level == "F"@ {
        "\x1b[35m"@
    } else {
        "\x1b[0m"@
    }
}

/// The terminal's colour for a level.
pub fn level_color(level: &str) -> (r: &'static str)
    ensures
        r@ == color_of(level@),
{
    if text::same(level, "V") {
        "\x1b[90m"
    } else if text::same(level, "D") {
        "\x1b[32m"
    } else if text::same(level, "I") {
        "\x1b[34m"
    } else if text::same(level, "W") {
        "\x1b[33m"
    } else if text::same(level, "E") {
        "\x1b[31m"
    } else if text::same(level, "F") {
        "\x1b[35m"
    } else {
        "\x1b[0m"
    }
}

// ---------------------------------------------------------------------------
// Devices
// ---------------------------------------------------------------------------

/// The serial number in a line of `adb devices`, where the device is online.
pub open spec fn online_serial(line: Seq<char>) -> Option<Seq<char>> {
    let w = text::words(line);
    if w.len() >= 2 && w[1] == "device"@ {
        Some(w[0])
    } else {
        None
    }
}

/// The serial numbers in the given lines.
pub open spec fn serials_in(lines: Seq<Seq<char>>) -> Seq<Seq<char>>
    decreases lines.len(),
{
    if lines.len() == 0 {
        seq![]
    } else {
        let front = serials_in(lines.drop_last());
        match online_serial(lines.last()) {
            Some(serial) => front.push(serial),
            None => front,
        }
    }
}

/// The online devices in the output of `adb devices`, whose first line is a heading.
pub open spec fn devices_in(output: Seq<char>) -> Seq<Seq<char>> {
    let lines = text::lines(output);
    if lines.len() == 0 {
        seq![]
    } else {
        serials_in(lines.skip(1))
    }
}

/// Reads the online devices from the output of `adb devices`.
pub fn parse_devices(output: &str) -> (r: Vec<String>)
    ensures
        text::texts(r@) == devices_in(output@),
{
    let lines = text::split_lines(&text::chars_of(output));
    let ghost all = text::lines(output@).skip(1);
    let n: usize = lines.len();
    let mut out: Vec<String> = Vec::new();
    let mut i: usize = 1;
    assert(all.take(0) =~= Seq::<Seq<char>>::empty());
    assert(text::texts(out@) =~= serials_in(all.take(0)));
    while i < n
        invariant
            n == lines@.len(),
            1 <= i <= n || n == 0,
            n > 0 ==> all == text::pieces(lines@).skip(1),
            n == 0 ==> text::texts(out@) =~= Seq::<Seq<char>>::empty(),
            n > 0 ==> text::texts(out@) == serials_in(all.take(i - 1)),
        decreases n - i,
    {
        proof {
            assert(all.take(i as int).drop_last() =~= all.take(i - 1));
            assert(all.take(i as int).last() == lines@[i as int]@);
        }
        let words = text::split_words(&lines[i]);
        let ghost w = text::words(lines@[i as int]@);
        assert(w.len() == words@.len());
        if words.len() >= 2 {
            assert(w[1] == words@[1]@);
            if text::same(&text::string_of(&words[1]), "device") {
                let serial = text::string_of(&words[0]);
                proof {
                    text::lemma_texts_push(out@, serial);
                }
                out.push(serial);
            }
        }
        i += 1;
    }
    proof {
        if n > 0 {
            assert(all.take(n - 1) =~= all);
        }
    }
    out
}

/// Why no device could be chosen.
#[derive(Debug)]
pub enum DeviceError {
    /// The device that was named is not online.
    NotFound { serial: String },
    /// No device is online.
    NoneOnline,
}

impl DeviceError {
    /// The message for the user.
    pub open spec fn message_text(&self) -> Seq<char> {
        match self {
            DeviceError::NotFound { serial } => "未找到在线设备 "@ + serial@,
            DeviceError::NoneOnline => "未检测到 adb 在线设备（请连接设备并授权）"@,
        }
    }

    /// The message for the user.
    pub fn message(&self) -> (r: String)
        ensures
            r@ == self.message_text(),
    {
        match self {
            DeviceError::NotFound { serial } => {
                let mut out = text::chars_of("未找到在线设备 ");
                text::push_str(&mut out, serial);
                text::string_of(&out)
            },
            DeviceError::NoneOnline => text::owned(
                "未检测到 adb 在线设备（请连接设备并授权）",
            ),
        }
    }
}

/// The device that is chosen: the one that was named, where it is online, or the first that is.
pub open spec fn chosen(devices: Seq<Seq<char>>, serial: Option<Seq<char>>) -> Option<Seq<char>> {
    match serial {
        Some(s) => if devices.contains(s) {
            Some(s)
        } else {
            None
        },
        None => if devices.len() > 0 {
            Some(devices[0])
        } else {
            None
        },
    }
}

/// Chooses the device that was named, where it is online, or the first that is.
pub fn choose_device(devices: &[String], serial: Option<String>) -> (r: Result<
    String,
    DeviceError,
>)
    ensures
        match serial {
            Some(s) => if text::texts(devices@).contains(s@) {
                r matches Ok(d) && d@ == s@
            } else {
                r matches Err(DeviceError::NotFound { serial: name }) && name@ == s@
            },
            None => if devices@.len() > 0 {
                r matches Ok(d) && d@ == devices@[0]@
            } else {
                r matches Err(DeviceError::NoneOnline)
            },
        },
        match r {
            Ok(d) => chosen(text::texts(devices@), text::opt_text(serial)) == Some(d@),
            Err(_) => chosen(text::texts(devices@), text::opt_text(serial)) is None,
        },
{
    match serial {
        Some(s) => if text::listed(devices, &s) {
            Ok(s)
        } else {
            Err(DeviceError::NotFound { serial: s })
        },
        None => if devices.len() > 0 {
            Ok(devices[0].clone())
        } else {
            Err(DeviceError::NoneOnline)
        },
    }
}

// ---------------------------------------------------------------------------
// Filtering and showing
// ---------------------------------------------------------------------------

/// What a keyword is looked for in: tag, message, process and thread.
pub open spec fn searched_text(e: DeviceLine) -> Seq<char> {
    e.tag + " "@ + e.message + " "@ + e.pid + " "@ + e.tid
}

/// Whether an entry is shown: it weighs at least `min_rank`, and the keyword, in lower case,
/// occurs in `haystack`, its searched text in lower case. An empty keyword occurs everywhere.
pub open spec fn is_shown(
    level: Seq<char>,
    haystack: Seq<char>,
    min_rank: u8,
    search: Seq<char>,
) -> bool {
    rank_of(level) >= min_rank && (search.len() == 0 || text::has(haystack, search))
}

/// An entry as a line of the log file.
pub open spec fn plain_line(e: DeviceLine) -> Seq<char> {
    e.time + " "@ + number::padded(e.pid, 5, ' ') + " "@ + number::padded(e.tid, 5, ' ') + " "@
        + e.level + " "@ + e.tag + ": "@ + e.message
}

/// An entry as a line of a terminal: from the level on in the level's colour.
pub open spec fn colored_line(e: DeviceLine) -> Seq<char> {
    e.time + " "@ + number::padded(e.pid, 5, ' ') + " "@ + number::padded(e.tid, 5, ' ') + " "@
        + color_of(e.level) + e.level + " "@ + e.tag + ": "@ + e.message + "\x1b[0m"@
}

/// The keyword as it is looked for: in lower case.
pub fn search_key(search: Option<&str>) -> (r: String)
    ensures
        r@ == match search {
            Some(s) => text::unicode_lowered(s@),
            None => Seq::empty(),
        },
{
    match search {
        Some(s) => text::to_lower_unicode(s),
        None => String::new(),
    }
}

/// Whether an entry is shown, given its searched text in lower case.
pub fn shows(level: &str, haystack: &str, min_rank: u8, search: &str) -> (r: bool)
    ensures
        r == is_shown(level@, haystack@, min_rank, search@),
{
    level_rank(level) >= min_rank && (search.is_empty() || text::str_contains(haystack, search))
}

/// Writes what a keyword is looked for in.
fn write_searched(e: &LogEntry) -> (r: String)
    ensures
        r@ == searched_text(e@),
{
    let mut out = text::chars_of(&e.tag);
    text::push_str(&mut out, " ");
    text::push_str(&mut out, &e.message);
    text::push_str(&mut out, " ");
    text::push_str(&mut out, &e.pid);
    text::push_str(&mut out, " ");
    text::push_str(&mut out, &e.tid);
    text::string_of(&out)
}

/// Writes time, process and thread of an entry.
fn write_front(e: &LogEntry) -> (r: Vec<char>)
    ensures
        r@ == e.time@ + " "@ + number::padded(e.pid@, 5, ' ') + " "@ + number::padded(
            e.tid@,
            5,
            ' ',
        ) + " "@,
{
    let mut out = text::chars_of(&e.time);
    text::push_str(&mut out, " ");
    text::push_all(&mut out, &number::pad(&text::chars_of(&e.pid), 5, ' '));
    text::push_str(&mut out, " ");
    text::push_all(&mut out, &number::pad(&text::chars_of(&e.tid), 5, ' '));
    text::push_str(&mut out, " ");
    out
}

/// Writes level, tag and message of an entry.
fn push_back(out: &mut Vec<char>, e: &LogEntry)
    ensures
        final(out)@ == old(out)@ + e.level@ + " "@ + e.tag@ + ": "@ + e.message@,
{
    text::push_str(out, &e.level);
    text::push_str(out, " ");
    text::push_str(out, &e.tag);
    text::push_str(out, ": ");
    text::push_str(out, &e.message);
}

/// Writes an entry as a line of the log file.
pub fn format_plain(e: &LogEntry) -> (r: String)
    ensures
        r@ == plain_line(e@),
{
    let mut out = write_front(e);
    push_back(&mut out, e);
    text::string_of(&out)
}

/// Writes an entry as a line of a terminal.
pub fn format_colored(e: &LogEntry) -> (r: String)
    ensures
        r@ == colored_line(e@),
{
    let mut out = write_front(e);
    text::push_str(&mut out, level_color(&e.level));
    push_back(&mut out, e);
    text::push_str(&mut out, "\x1b[0m");
    text::string_of(&out)
}

/// What a line of the device's log leads to: nothing, or a line for the terminal and a line for
/// the log file. `search` is in lower case.
pub fn on_line(line: &str, min_rank: u8, search: &str, color: bool) -> (r: Option<
    (String, String),
>)
    ensures
        match entry_in(line@) {
            Some(e) => if is_shown(
                e.level,
                text::unicode_lowered(searched_text(e)),
                min_rank,
                search@,
            ) {
                r matches Some(out) && out.1@ == plain_line(e) && out.0@ == if color {
                    colored_line(e)
                } else {
                    plain_line(e)
                }
            } else {
                r is None
            },
            None => r is None,
        },
{
    let e = match parse_log_line(line) {
        Some(e) => e,
        None => return None,
    };
    let haystack = text::to_lower_unicode(&write_searched(&e));
    if !shows(&e.level, &haystack, min_rank, search) {
        return None;
    }
    let plain = format_plain(&e);
    let shown = if color {
        format_colored(&e)
    } else {
        plain.clone()
    };
    Some((shown, plain))
}

/// The stamp of the log file of a session.
pub fn log_file_stamp() -> (r: String)
    ensures
        exists|t: crate::clock::CivilTime|
            crate::clock::is_civil(t) && r@ == #[trigger] crate::clock::stamp_text(t),
{
    log_file::stamp()
}

// ---------------------------------------------------------------------------
// Laws
// ---------------------------------------------------------------------------

/// The levels weigh from `V` up to `F`, and no two weigh the same.
pub proof fn law_levels_are_ordered()
    ensures
        rank_of("V"@) < rank_of("D"@) < rank_of("I"@) < rank_of("W"@) < rank_of("E"@) < rank_of(
            "F"@,
        ),
{
    reveal_strlit("V");
    reveal_strlit("D");
    reveal_strlit("I");
    reveal_strlit("W");
    reveal_strlit("E");
    reveal_strlit("F");
    assert("V"@[0] == 'V');
    assert("D"@[0] == 'D');
    assert("I"@[0] == 'I');
    assert("W"@[0] == 'W');
    assert("E"@[0] == 'E');
    assert("F"@[0] == 'F');
}

/// A stricter level shows nothing that a looser one does not.
pub proof fn law_stricter_level_shows_less(
    level: Seq<char>,
    haystack: Seq<char>,
    loose: u8,
    strict: u8,
    search: Seq<char>,
)
    requires
        loose <= strict,
        is_shown(level, haystack, strict, search),
    ensures
        is_shown(level, haystack, loose, search),
{
}

/// Every entry that a line holds has a known level.
pub proof fn law_entries_have_a_level(line: Seq<char>)
    ensures
        entry_in(line) matches Some(e) ==> is_level(e.level),
{
}

/// Two texts with a space between them hold what either does.
proof fn lemma_part_is_held(front: Seq<char>, part: Seq<char>, back: Seq<char>, pat: Seq<char>)
    requires
        text::has(part, pat),
    ensures
        text::has(front + part + back, pat),
{
    let i = choose|i: int| text::occurs_at(part, pat, i);
    let all = front + part + back;
    let k = front.len() + i;
    assert(all.subrange(k, k + pat.len()) =~= part.subrange(i, i + pat.len()));
    assert(text::occurs_at(all, pat, k));
}

/// A keyword is looked for in the tag, the message, the process and the thread of an entry: one
/// that occurs in any of them occurs in what is searched.
pub proof fn law_every_field_is_searched(e: DeviceLine, key: Seq<char>)
    requires
        text::has(e.tag, key) || text::has(e.message, key) || text::has(e.pid, key) || text::has(
            e.tid,
            key,
        ),
    ensures
        text::has(searched_text(e), key),
{
    let s = searched_text(e);
    if text::has(e.tag, key) {
        let back = " "@ + e.message + " "@ + e.pid + " "@ + e.tid;
        assert(s =~= Seq::<char>::empty() + e.tag + back);
        lemma_part_is_held(Seq::empty(), e.tag, back, key);
    } else if text::has(e.message, key) {
        let front = e.tag + " "@;
        let back = " "@ + e.pid + " "@ + e.tid;
        assert(s =~= front + e.message + back);
        lemma_part_is_held(front, e.message, back, key);
    } else if text::has(e.pid, key) {
        let front = e.tag + " "@ + e.message + " "@;
        let back = " "@ + e.tid;
        assert(s =~= front + e.pid + back);
        lemma_part_is_held(front, e.pid, back, key);
    } else {
        let front = e.tag + " "@ + e.message + " "@ + e.pid + " "@;
        assert(s =~= front + e.tid + Seq::<char>::empty());
        lemma_part_is_held(front, e.tid, Seq::empty(), key);
    }
}

/// An entry that weighs enough is shown wherever the keyword occurs in the lower case of its tag,
/// message, process or thread, whatever `low` does to letters: only spaces must part what it
/// lowers.
pub proof fn law_keyword_in_a_field_shows_the_entry(
    e: DeviceLine,
    low: spec_fn(Seq<char>) -> Seq<char>,
    min_rank: u8,
    key: Seq<char>,
)
    requires
        forall|a: Seq<char>, b: Seq<char>| #[trigger]
            low(a + " "@ + b) == low(a) + " "@ + low(b),
        rank_of(e.level) >= min_rank,
        text::has(low(e.tag), key) || text::has(low(e.message), key) || text::has(low(e.pid), key)
            || text::has(low(e.tid), key),
    ensures
        is_shown(e.level, low(searched_text(e)), min_rank, key),
{
    let lowered = DeviceLine {
        tag: low(e.tag),
        message: low(e.message),
        pid: low(e.pid),
        tid: low(e.tid),
        ..e
    };
    let two = e.tag + " "@ + e.message;
    let three = two + " "@ + e.pid;
    assert(low(two) == low(e.tag) + " "@ + low(e.message));
    assert(low(three) == low(two) + " "@ + low(e.pid));
    assert(searched_text(e) =~= three + " "@ + e.tid);
    assert(low(three + " "@ + e.tid) == low(three) + " "@ + low(e.tid));
    assert(low(searched_text(e)) =~= searched_text(lowered));
    law_every_field_is_searched(lowered, key);
}

/// An entry that weighs too little is never shown, nor one whose searched text lacks the keyword;
/// without a keyword, every entry that weighs enough is.
pub proof fn law_filter_is_strict(level: Seq<char>, haystack: Seq<char>, min: u8, key: Seq<char>)
    ensures
        rank_of(level) < min ==> !is_shown(level, haystack, min, key),
        key.len() > 0 && !text::has(haystack, key) ==> !is_shown(level, haystack, min, key),
        key.len() == 0 && rank_of(level) >= min ==> is_shown(level, haystack, min, key),
        min == 0 && text::has(haystack, key) ==> is_shown(level, haystack, min, key),
{
}

/// A level of the six is shown under another exactly where it is no lighter, in the order
/// verbose, debug, info, warning, error, fatal; a text that is no level weighs as the lightest.
pub proof fn law_weights(a: int, b: int, other: Seq<char>)
    requires
        0 <= a < 6,
        0 <= b < 6,
        other.len() != 1,
    ensures
        ({
            let levels = seq!["V"@, "D"@, "I"@, "W"@, "E"@, "F"@];
            &&& rank_of(levels[a]) >= rank_of(levels[b]) <==> a >= b
            &&& rank_of(levels[0]) == 0
            &&& rank_of(other) == 0
        }),
{
    law_levels_are_ordered();
    lemma_level_names();
    if rank_of(other) != 0 {
        assert(other == "D"@ || other == "I"@ || other == "W"@ || other == "E"@ || other == "F"@);
    }
}

/// The names of the levels are one letter each, and different.
proof fn lemma_level_names()
    ensures
        "V"@ == seq!['V'],
        "D"@ == seq!['D'],
        "I"@ == seq!['I'],
        "W"@ == seq!['W'],
        "E"@ == seq!['E'],
        "F"@ == seq!['F'],
        rank_of("V"@) == 0,
{
    reveal_strlit("V");
    reveal_strlit("D");
    reveal_strlit("I");
    reveal_strlit("W");
    reveal_strlit("E");
    reveal_strlit("F");
    assert("V"@ =~= seq!['V']);
    assert("D"@ =~= seq!['D']);
    assert("I"@ =~= seq!['I']);
    assert("W"@ =~= seq!['W']);
    assert("E"@ =~= seq!['E']);
    assert("F"@ =~= seq!['F']);
    assert("V"@[0] != "D"@[0] && "V"@[0] != "I"@[0] && "V"@[0] != "W"@[0]);
    assert("V"@[0] != "E"@[0] && "V"@[0] != "F"@[0]);
}

/// An entry is written whole: time, process, thread, level, tag and message, in this order, with
/// process and thread set to the right in five columns; in colour, the part from the level on is
/// the same, between the colour of the level and the end of colour.
pub proof fn law_entry_is_written_whole(e: DeviceLine)
    requires
        e.pid.len() <= 5,
        e.tid.len() <= 5,
    ensures
        ({
            let front = e.time + " "@ + blanks(5 - e.pid.len()) + e.pid + " "@ + blanks(
                5 - e.tid.len(),
            ) + e.tid + " "@;
            let back = e.level + " "@ + e.tag + ": "@ + e.message;
            &&& plain_line(e) == front + back
            &&& colored_line(e) == front + color_of(e.level) + back + "\x1b[0m"@
        }),
{
    lemma_right(e.pid);
    lemma_right(e.tid);
    let front = e.time + " "@ + blanks(5 - e.pid.len()) + e.pid + " "@ + blanks(5 - e.tid.len())
        + e.tid + " "@;
    let back = e.level + " "@ + e.tag + ": "@ + e.message;
    assert(e.time + " "@ + (blanks(5 - e.pid.len()) + e.pid) + " "@ + (blanks(5 - e.tid.len())
        + e.tid) + " "@ =~= front);
    assert(plain_line(e) =~= front + back);
    assert(colored_line(e) =~= front + color_of(e.level) + back + "\x1b[0m"@);
}

/// A short text is set to the right by spaces before it.
proof fn lemma_right(s: Seq<char>)
    requires
        s.len() <= 5,
    ensures
        number::padded(s, 5, ' ') == blanks(5 - s.len()) + s,
{
    assert(number::padded(s, 5, ' ') =~= blanks(5 - s.len()) + s);
}

/// So many spaces.
pub open spec fn blanks(n: int) -> Seq<char> {
    Seq::new(n as nat, |i: int| ' ')
}

/// Different levels have different colours, and what is no level has the end of colour.
pub proof fn law_colors()
    ensures
        color_of("V"@) == "\x1b[90m"@,
        color_of("D"@) == "\x1b[32m"@,
        color_of("I"@) == "\x1b[34m"@,
        color_of("W"@) == "\x1b[33m"@,
        color_of("E"@) == "\x1b[31m"@,
        color_of("F"@) == "\x1b[35m"@,
{
    lemma_level_names();
    assert("V"@[0] == 'V' && "D"@[0] == 'D' && "I"@[0] == 'I');
    assert("W"@[0] == 'W' && "E"@[0] == 'E' && "F"@[0] == 'F');
}

/// The entry in a line is what its words say: time, process, thread and level in their columns,
/// and in the rest the tag up to the first colon with a space, and the message behind it. A line
/// with fewer words, or without a level in its column, holds none.
pub proof fn law_line_is_read(
    columns: Seq<Seq<char>>,
    words: Seq<Seq<char>>,
    tag: Seq<char>,
    message: Seq<char>,
)
    requires
        columns.len() == 5,
        forall|i: int| 0 <= i < columns.len() ==> (#[trigger] columns[i]).len() > 0,
        forall|i: int, j: int|
            0 <= i < columns.len() && 0 <= j < columns[i].len() ==> !text::is_space(
                #[trigger] columns[i][j],
            ),
        forall|i: int| 0 <= i < words.len() ==> (#[trigger] words[i]).len() > 0,
        forall|i: int, j: int|
            0 <= i < words.len() && 0 <= j < words[i].len() ==> !text::is_space(
                #[trigger] words[i][j],
            ),
    ensures
        ({
            let line = text::joined(columns + words, seq![' ']);
            let rest = text::joined(words, seq![' ']);
            let level = seq!["V"@, "D"@, "I"@, "W"@, "E"@, "F"@].contains(columns[4]);
            &&& words.len() == 0 || !level ==> entry_in(line) is None
            &&& words.len() > 0 && level && rest == tag + ": "@ + message && (forall|j: int|
                0 <= j < tag.len() ==> !text::occurs_at(rest, ": "@, j)) ==> entry_in(line) == Some(
                DeviceLine {
                    time: columns[1],
                    pid: columns[2],
                    tid: columns[3],
                    level: columns[4],
                    tag,
                    message,
                },
            )
            &&& words.len() > 0 && level && !text::has(rest, ": "@) ==> entry_in(line) == Some(
                DeviceLine {
                    time: columns[1],
                    pid: columns[2],
                    tid: columns[3],
                    level: columns[4],
                    tag: rest,
                    message: seq![],
                },
            )
        }),
{
    let all = columns + words;
    assert forall|i: int| 0 <= i < all.len() implies (#[trigger] all[i]).len() > 0 by {
        if i < 5 {
            assert(columns[i].len() > 0);
        } else {
            assert(words[i - 5].len() > 0);
        }
    }
    assert forall|i: int, j: int|
        0 <= i < all.len() && 0 <= j < all[i].len() implies !text::is_space(
        #[trigger] all[i][j],
    ) by {
        if i < 5 {
            assert(all[i][j] == columns[i][j]);
        } else {
            assert(all[i][j] == words[i - 5][j]);
        }
    }
    text::law_words_joined(all);
    assert(all.skip(5) =~= words);
    reveal_strlit(" ");
    assert(" "@ =~= seq![' ']);
    let rest = text::joined(words, seq![' ']);
    let l = seq!["V"@, "D"@, "I"@, "W"@, "E"@, "F"@];
    assert(l[0] == "V"@ && l[1] == "D"@ && l[2] == "I"@ && l[3] == "W"@ && l[4] == "E"@);
    assert(l[5] == "F"@);
    assert(all[1] == columns[1] && all[2] == columns[2] && all[3] == columns[3] && all[4]
        == columns[4]);
    if rest == tag + ": "@ + message && (forall|j: int|
        0 <= j < tag.len() ==> !text::occurs_at(rest, ": "@, j)) {
        text::law_cut_text(tag, ": "@, message);
    }
    text::lemma_found_iff_has(rest, ": "@);
}

/// The devices that are online are the serial numbers at the start of the lines behind the heading
/// whose second word says so; a device in another state is none.
pub proof fn law_online_devices(lines: Seq<Seq<char>>, serial: Seq<char>, state: Seq<char>)
    requires
        serial.len() > 0,
        state.len() > 0,
        forall|i: int| 0 <= i < serial.len() ==> !text::is_space(#[trigger] serial[i]),
        forall|i: int| 0 <= i < state.len() ==> !text::is_space(#[trigger] state[i]),
    ensures
        ({
            let line = serial + seq!['\t'] + state;
            &&& serials_in(seq![]).len() == 0
            &&& state == "device"@ ==> serials_in(lines.push(line)) == serials_in(lines).push(serial)
            &&& state != "device"@ ==> serials_in(lines.push(line)) == serials_in(lines)
            &&& serials_in(lines.push(serial)) == serials_in(lines)
        }),
{
    let line = serial + seq!['\t'] + state;
    text::law_ascii_space('\t');
    text::law_words(serial, '\t', state);
    text::law_words(state, '\t', state);
    assert(text::words(line) =~= seq![serial, state]);
    assert(lines.push(line).drop_last() =~= lines);
    assert(lines.push(serial).drop_last() =~= lines);
}

/// The heading above the devices is none of them.
pub proof fn law_heading_is_no_device(heading: Seq<char>, rest: Seq<char>)
    requires
        !heading.contains('\n'),
        heading.len() == 0 || heading.last() != '\r',
    ensures
        devices_in(heading + seq!['\n'] + rest) == serials_in(text::lines(rest)),
        devices_in(heading).len() == 0,
{
    text::law_lines(heading, rest);
    assert((seq![heading] + text::lines(rest)).skip(1) =~= text::lines(rest));
    assert(seq![heading].skip(1) =~= Seq::<Seq<char>>::empty());
    if heading.len() == 0 {
        assert(heading =~= Seq::<char>::empty());
    }
}

/// The messages where there is no device to listen to.
pub proof fn law_device_messages(serial: String)
    ensures
        (DeviceError::NotFound { serial }).message_text() == "未找到在线设备 "@ + serial@,
        DeviceError::NoneOnline.message_text() == "未检测到 adb 在线设备（请连接设备并授权）"@,
{
}

/// A device that is chosen is online, and it is the one that was named where one was; one is chosen
/// wherever the named one, or without a name any, is online, and then it is the first.
pub proof fn law_chosen_device(devices: Seq<Seq<char>>, serial: Option<Seq<char>>)
    ensures
        chosen(devices, serial) matches Some(d) ==> devices.contains(d),
        serial matches Some(s) ==> (chosen(devices, serial) is Some <==> devices.contains(s)),
        serial matches Some(s) ==> (chosen(devices, serial) matches Some(d) ==> d == s),
        serial is None ==> (chosen(devices, serial) is Some <==> devices.len() > 0),
        serial is None && devices.len() > 0 ==> chosen(devices, serial) == Some(devices[0]),
{
}

} // verus!
