//! The time of day, and how file names and log lines show it.
use crate::number;
use crate::text;
use vstd::prelude::*;

verus! {

/// A date and time of day.
#[derive(Debug, Clone, Copy)]
pub struct CivilTime {
    pub year: i32,
    pub month: u8,
    pub day: u8,
    pub hour: u8,
    pub minute: u8,
    pub second: u8,
}

/// Whether the parts of a time lie in their ranges.
pub open spec fn is_civil(t: CivilTime) -> bool {
    &&& -9999 <= t.year <= 9999
    &&& 1 <= t.month <= 12
    &&& 1 <= t.day <= 31
    &&& t.hour < 24
    &&& t.minute < 60
    &&& t.second < 60
}

/// The local time, by `time::OffsetDateTime::now_local`; `None` where the offset from UTC cannot
/// be determined.
///
/// Trusted: the parts lie in their ranges. Which time it is rests on the clock and is not stated.
#[verifier::external_body]
fn now_local() -> (r: Option<CivilTime>)
    ensures
        r matches Some(t) ==> is_civil(t),
{
    let t = time::OffsetDateTime::now_local().ok()?;
    Some(
        CivilTime {
            year: t.year(),
            month: t.month().into(),
            day: t.day(),
            hour: t.hour(),
            minute: t.minute(),
            second: t.second(),
        },
    )
}

/// The time in UTC, by `time::OffsetDateTime::now_utc`.
///
/// Trusted: the parts lie in their ranges. Which time it is rests on the clock and is not stated.
#[verifier::external_body]
fn now_utc() -> (r: CivilTime)
    ensures
        is_civil(r),
{
    let t = time::OffsetDateTime::now_utc();
    CivilTime {
        year: t.year(),
        month: t.month().into(),
        day: t.day(),
        hour: t.hour(),
        minute: t.minute(),
        second: t.second(),
    }
}

/// Whether all characters of a text from `a` on, up to `b`, are digits.
pub open spec fn digits_between(s: Seq<char>, a: int, b: int) -> bool {
    forall|i: int| a <= i < b ==> text::is_digit(#[trigger] s[i])
}

/// Whether a text is a time in UTC in the format of RFC 3339: `YYYY-MM-DDTHH:MM:SSZ`, where a
/// point and digits may stand before the `Z`.
pub open spec fn is_rfc3339_utc(s: Seq<char>) -> bool {
    let n = s.len() as int;
    &&& n >= 20
    &&& digits_between(s, 0, 4)
    &&& s[4] == '-'
    &&& digits_between(s, 5, 7)
    &&& s[7] == '-'
    &&& digits_between(s, 8, 10)
    &&& s[10] == 'T'
    &&& digits_between(s, 11, 13)
    &&& s[13] == ':'
    &&& digits_between(s, 14, 16)
    &&& s[16] == ':'
    &&& digits_between(s, 17, 19)
    &&& n > 20 ==> n > 21 && s[19] == '.' && digits_between(s, 20, n - 1)
    &&& s[n - 1] == 'Z'
}

/// The time in UTC in the format of RFC 3339, by `time::OffsetDateTime::format`; `None` where the
/// year has no four digits.
///
/// Trusted: the text has the shape that the format prescribes for UTC. Which time it is rests on
/// the clock and is not stated.
#[verifier::external_body]
fn rfc3339() -> (r: Option<String>)
    ensures
        r matches Some(s) ==> is_rfc3339_utc(s@),
{
    time::OffsetDateTime::now_utc().format(&time::format_description::well_known::Rfc3339).ok()
}

/// The local time; in UTC where that cannot be had.
pub fn local_time() -> (r: CivilTime)
    ensures
        is_civil(r),
{
    match now_local() {
        Some(t) => t,
        None => now_utc(),
    }
}

/// A number with at least two digits.
pub open spec fn two_digits(n: u8) -> Seq<char> {
    number::padded(number::decimal(n as nat), 2, '0')
}

/// A year with at least four digits, and a sign where it is negative.
pub open spec fn year_text(year: i32) -> Seq<char> {
    if year < 0 {
        "-"@ + number::padded(number::decimal((-year) as nat), 4, '0')
    } else {
        number::padded(number::decimal(year as nat), 4, '0')
    }
}

/// The stamp of a file name: `YYYYMMDD-HHMMSS`.
pub open spec fn stamp_text(t: CivilTime) -> Seq<char> {
    year_text(t.year) + two_digits(t.month) + two_digits(t.day) + "-"@ + two_digits(t.hour)
        + two_digits(t.minute) + two_digits(t.second)
}

/// The time of a log line: `YYYY-MM-DD HH:MM:SS`.
pub open spec fn log_time_text(t: CivilTime) -> Seq<char> {
    year_text(t.year) + "-"@ + two_digits(t.month) + "-"@ + two_digits(t.day) + " "@ + two_digits(
        t.hour,
    ) + ":"@ + two_digits(t.minute) + ":"@ + two_digits(t.second)
}

/// Appends a number with at least two digits.
fn push_two(out: &mut Vec<char>, n: u8)
    ensures
        final(out)@ == old(out)@ + two_digits(n),
{
    let d = number::pad(&number::to_decimal(n as u64), 2, '0');
    text::push_all(out, &d);
}

/// Writes a year.
fn write_year(year: i32) -> (r: Vec<char>)
    requires
        year > i32::MIN,
    ensures
        r@ == year_text(year),
{
    let mut out: Vec<char> = Vec::new();
    let n: u64 = if year < 0 {
        text::push_str(&mut out, "-");
        (-year) as u64
    } else {
        year as u64
    };
    let d = number::pad(&number::to_decimal(n), 4, '0');
    text::push_all(&mut out, &d);
    proof {
        assert(Seq::<char>::empty() + d@ =~= d@);
        assert(Seq::<char>::empty() + "-"@ =~= "-"@);
    }
    out
}

/// Writes the stamp of a file name.
pub fn format_stamp(t: CivilTime) -> (r: String)
    requires
        is_civil(t),
    ensures
        r@ == stamp_text(t),
{
    let mut out = write_year(t.year);
    push_two(&mut out, t.month);
    push_two(&mut out, t.day);
    text::push_str(&mut out, "-");
    push_two(&mut out, t.hour);
    push_two(&mut out, t.minute);
    push_two(&mut out, t.second);
    text::string_of(&out)
}

/// Writes the time of a log line.
pub fn format_log_time(t: CivilTime) -> (r: String)
    requires
        is_civil(t),
    ensures
        r@ == log_time_text(t),
{
    let mut out = write_year(t.year);
    text::push_str(&mut out, "-");
    push_two(&mut out, t.month);
    text::push_str(&mut out, "-");
    push_two(&mut out, t.day);
    text::push_str(&mut out, " ");
    push_two(&mut out, t.hour);
    text::push_str(&mut out, ":");
    push_two(&mut out, t.minute);
    text::push_str(&mut out, ":");
    push_two(&mut out, t.second);
    text::string_of(&out)
}

/// A formatted time; the epoch where formatting failed.
pub open spec fn or_epoch(formatted: Option<Seq<char>>) -> Seq<char> {
    match formatted {
        Some(t) => t,
        None => "1970-01-01T00:00:00Z"@,
    }
}

/// A formatted time; the epoch where formatting failed.
pub fn time_or_epoch(formatted: Option<String>) -> (r: String)
    ensures
        r@ == or_epoch(text::opt_text(formatted)),
{
    match formatted {
        Some(t) => t,
        None => text::owned("1970-01-01T00:00:00Z"),
    }
}

/// The time in UTC, in the format of RFC 3339; the epoch where the clock's time cannot be written
/// in it.
pub fn now_rfc3339() -> (r: String)
    ensures
        is_rfc3339_utc(r@),
{
    proof {
        reveal_strlit("1970-01-01T00:00:00Z");
    }
    time_or_epoch(rfc3339())
}

/// A number below a hundred, in at least two digits, has exactly two.
proof fn lemma_two_digits(n: u8)
    requires
        n < 100,
    ensures
        two_digits(n).len() == 2,
        number::all_digits(two_digits(n)),
{
    reveal_with_fuel(number::decimal, 3);
    number::lemma_decimal_digits(n as nat);
    number::lemma_padded_value(number::decimal(n as nat), 2);
}

/// A year below ten thousand, in at least four digits, has exactly four.
proof fn lemma_year(year: i32)
    requires
        0 <= year <= 9999,
    ensures
        year_text(year).len() == 4,
        number::all_digits(year_text(year)),
{
    reveal_with_fuel(number::decimal, 5);
    number::lemma_decimal_digits(year as nat);
    number::lemma_padded_value(number::decimal(year as nat), 4);
}

/// Of any year of our era, the stamp has eight digits, a hyphen, and six digits.
pub proof fn law_stamp_shape(t: CivilTime)
    requires
        is_civil(t),
        t.year >= 0,
    ensures
        stamp_text(t).len() == 15,
        stamp_text(t)[8] == '-',
        forall|i: int|
            0 <= i < 15 && i != 8 ==> text::is_digit(#[trigger] stamp_text(t)[i]),
{
    lemma_year(t.year);
    lemma_two_digits(t.month);
    lemma_two_digits(t.day);
    lemma_two_digits(t.hour);
    lemma_two_digits(t.minute);
    lemma_two_digits(t.second);
    reveal_strlit("-");
    let s = stamp_text(t);
    let y = year_text(t.year);
    assert forall|i: int| 0 <= i < 15 && i != 8 implies text::is_digit(#[trigger] s[i]) by {
        if i < 4 {
            assert(s[i] == y[i]);
        } else if i < 6 {
            assert(s[i] == two_digits(t.month)[i - 4]);
        } else if i < 8 {
            assert(s[i] == two_digits(t.day)[i - 6]);
        } else if i < 11 {
            assert(s[i] == two_digits(t.hour)[i - 9]);
        } else if i < 13 {
            assert(s[i] == two_digits(t.minute)[i - 11]);
        } else {
            assert(s[i] == two_digits(t.second)[i - 13]);
        }
    }
}

/// What a stamp and the time of a log line say is read back: year, month and day, hour, minute and
/// second.
pub proof fn law_times_are_read_back(t: CivilTime)
    requires
        is_civil(t),
        t.year >= 0,
    ensures
        ({
            let s = stamp_text(t);
            &&& s.len() == 15
            &&& number::parsed(s.subrange(0, 4), 9999) == Some(t.year as nat)
            &&& number::parsed(s.subrange(4, 6), 99) == Some(t.month as nat)
            &&& number::parsed(s.subrange(6, 8), 99) == Some(t.day as nat)
            &&& s[8] == '-'
            &&& number::parsed(s.subrange(9, 11), 99) == Some(t.hour as nat)
            &&& number::parsed(s.subrange(11, 13), 99) == Some(t.minute as nat)
            &&& number::parsed(s.subrange(13, 15), 99) == Some(t.second as nat)
        }),
        ({
            let s = log_time_text(t);
            &&& s.len() == 19
            &&& number::parsed(s.subrange(0, 4), 9999) == Some(t.year as nat)
            &&& number::parsed(s.subrange(5, 7), 99) == Some(t.month as nat)
            &&& number::parsed(s.subrange(8, 10), 99) == Some(t.day as nat)
            &&& number::parsed(s.subrange(11, 13), 99) == Some(t.hour as nat)
            &&& number::parsed(s.subrange(14, 16), 99) == Some(t.minute as nat)
            &&& number::parsed(s.subrange(17, 19), 99) == Some(t.second as nat)
            &&& s[4] == '-' && s[7] == '-' && s[10] == ' ' && s[13] == ':' && s[16] == ':'
        }),
{
    reveal_strlit("-");
    reveal_strlit(" ");
    reveal_strlit(":");
    lemma_year(t.year);
    lemma_two_digits(t.month);
    lemma_two_digits(t.day);
    lemma_two_digits(t.hour);
    lemma_two_digits(t.minute);
    lemma_two_digits(t.second);
    number::lemma_padded_decimal_parsed(t.year as nat, 4, 9999);
    number::lemma_padded_decimal_parsed(t.month as nat, 2, 99);
    number::lemma_padded_decimal_parsed(t.day as nat, 2, 99);
    number::lemma_padded_decimal_parsed(t.hour as nat, 2, 99);
    number::lemma_padded_decimal_parsed(t.minute as nat, 2, 99);
    number::lemma_padded_decimal_parsed(t.second as nat, 2, 99);
    let s = stamp_text(t);
    assert(s.subrange(0, 4) =~= year_text(t.year));
    assert(s.subrange(4, 6) =~= two_digits(t.month));
    assert(s.subrange(6, 8) =~= two_digits(t.day));
    assert(s.subrange(9, 11) =~= two_digits(t.hour));
    assert(s.subrange(11, 13) =~= two_digits(t.minute));
    assert(s.subrange(13, 15) =~= two_digits(t.second));
    let l = log_time_text(t);
    assert(l.subrange(0, 4) =~= year_text(t.year));
    assert(l.subrange(5, 7) =~= two_digits(t.month));
    assert(l.subrange(8, 10) =~= two_digits(t.day));
    assert(l.subrange(11, 13) =~= two_digits(t.hour));
    assert(l.subrange(14, 16) =~= two_digits(t.minute));
    assert(l.subrange(17, 19) =~= two_digits(t.second));
}

/// A time that was formatted is taken as it is; the epoch stands in for one that was not.
pub proof fn law_epoch_stands_in(t: Seq<char>)
    ensures
        or_epoch(Some(t)) == t,
        or_epoch(None) == "1970-01-01T00:00:00Z"@,
{
}

} // verus!
