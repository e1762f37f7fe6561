//! Names of log files: `{prefix}-YYYYMMDD-HHMMSS.log`.
//!
//! All sources of logs share one directory; the prefix tells them apart: `logcat-` for devices,
//! `console-` for web pages, `app-` for apps on boxes without logcat.
use crate::clock;
use crate::paths;
use crate::text;
use vstd::prelude::*;

verus! {

/// The stamp of the local time, in UTC where that cannot be had.
pub fn stamp() -> (r: String)
    ensures
        exists|t: clock::CivilTime| clock::is_civil(t) && r@ == #[trigger] clock::stamp_text(t),
{
    let t = clock::local_time();
    let r = clock::format_stamp(t);
    assert(clock::is_civil(t) && r@ == clock::stamp_text(t));
    r
}

/// The path of a log file with the given stamp.
pub open spec fn log_path(dir: Seq<char>, prefix: Seq<char>, stamp: Seq<char>) -> Seq<char> {
    paths::joined(dir, prefix + "-"@ + stamp + ".log"@)
}

/// The path of a log file with the given stamp: `{dir}/{prefix}-{stamp}.log`.
pub fn path_with(dir: &str, prefix: &str, stamp: &str) -> (r: String)
    ensures
        r@ == log_path(dir@, prefix@, stamp@),
{
    let mut name = text::chars_of(prefix);
    text::push_str(&mut name, "-");
    text::push_str(&mut name, stamp);
    text::push_str(&mut name, ".log");
    paths::join(dir, &text::string_of(&name))
}

/// The path of a log file that is begun now.
pub fn path(dir: &str, prefix: &str) -> (r: String)
    ensures
        exists|t: clock::CivilTime|
            clock::is_civil(t) && r@ == log_path(dir@, prefix@, #[trigger] clock::stamp_text(t)),
{
    let t = clock::local_time();
    let r = path_with(dir, prefix, &clock::format_stamp(t));
    assert(clock::is_civil(t) && r@ == log_path(dir@, prefix@, clock::stamp_text(t)));
    r
}

/// The path of a log file tells its source and when it was begun.
pub proof fn law_log_path(dir: Seq<char>, prefix: Seq<char>, stamp: Seq<char>)
    requires
        dir.len() > 0,
        dir.last() != '/',
        prefix.len() > 0,
        prefix[0] != '/',
    ensures
        log_path(dir, prefix, stamp) == dir + "/"@ + (prefix + "-"@ + stamp + ".log"@),
{
    let name = prefix + "-"@ + stamp + ".log"@;
    assert(name[0] == prefix[0]);
}

} // verus!
