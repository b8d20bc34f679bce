//! HTTP dates and modification times.

use crate::calendar;
use crate::calendar::Day;
use crate::number;
use crate::text;
use chrono::DateTime;
use chrono::NaiveDateTime;
use chrono::Utc;
use std::time::SystemTime;
use std::time::UNIX_EPOCH;
use vstd::prelude::*;
use vstd::slice::slice_subrange;

verus! {

/// The layout of an HTTP date (IMF-fixdate), in the notation of `strftime`.
pub const HTTP_DATE_FORMAT: &'static str = "%a, %d %b %Y %H:%M:%S GMT";

/// The first second that the calendar covers: the start of the year -262143.
pub const FIRST_SECOND: i64 = -8_334_601_228_800;

/// The last second that the calendar covers: the end of the year 262142.
pub const LAST_SECOND: i64 = 8_210_266_876_799;

/// A point in time, as the operating system hands it out.
#[verifier::external_type_specification]
#[verifier::external_body]
pub struct ExSystemTime(SystemTime);

/// The error of a date that does not follow its layout.
#[verifier::external_type_specification]
#[verifier::external_body]
pub struct ExParseError(chrono::ParseError);

/// The nanoseconds from the Unix epoch to `t`, negative for a time before it:
/// what `SystemTime::duration_since` tells of `t` and the epoch.
pub uninterp spec fn unix_nanos(t: SystemTime) -> int;

/// Whether `s` is the short name of a weekday.
pub open spec fn weekday_name(s: Seq<char>) -> bool {
    s == "Mon"@ || s == "Tue"@ || s == "Wed"@ || s == "Thu"@ || s == "Fri"@ || s == "Sat"@ || s
        == "Sun"@
}

/// Whether `s` is the short name of a month.
pub open spec fn month_name(s: Seq<char>) -> bool {
    s == "Jan"@ || s == "Feb"@ || s == "Mar"@ || s == "Apr"@ || s == "May"@ || s == "Jun"@ || s
        == "Jul"@ || s == "Aug"@ || s == "Sep"@ || s == "Oct"@ || s == "Nov"@ || s == "Dec"@
}

/// Whether `s` is a year: four digits, or a `+` and a number beyond 9999.
pub open spec fn year_numeral(s: Seq<char>) -> bool {
    ||| s.len() == 4 && number::all_decimal_digits(s)
    ||| s.len() > 5 && s[0] == '+' && s[1] != '0' && number::all_decimal_digits(s.skip(1))
}

/// Whether `s` is a time of day: `hh:mm:ss`, in digits.
pub open spec fn clock(s: Seq<char>) -> bool {
    &&& s.len() == 8
    &&& number::all_decimal_digits(s.subrange(0, 2))
    &&& s[2] == ':'
    &&& number::all_decimal_digits(s.subrange(3, 5))
    &&& s[5] == ':'
    &&& number::all_decimal_digits(s.subrange(6, 8))
}

/// Whether `s` has the form of an IMF-fixdate, such as
/// `Sat, 06 Jun 2026 08:49:37 GMT`: a weekday, a day of two digits, a month, a
/// year, a time of day, and `GMT`.
pub open spec fn imf_layout(s: Seq<char>) -> bool {
    let n = s.len() as int;
    &&& n >= 29
    &&& weekday_name(s.subrange(0, 3))
    &&& s.subrange(3, 5) == ", "@
    &&& number::all_decimal_digits(s.subrange(5, 7))
    &&& s[7] == ' '
    &&& month_name(s.subrange(8, 11))
    &&& s[11] == ' '
    &&& year_numeral(s.subrange(12, n - 13))
    &&& s[n - 13] == ' '
    &&& clock(s.subrange(n - 12, n - 4))
    &&& s.subrange(n - 4, n) == " GMT"@
}

/// The short name of the weekday on which a day falls. The first one counted, 1
/// January 1970, was a Thursday.
pub open spec fn weekday_text(number: int) -> Seq<char> {
    seq!["Thu"@, "Fri"@, "Sat"@, "Sun"@, "Mon"@, "Tue"@, "Wed"@][number % 7]
}

/// The short name of a month.
pub open spec fn month_text(month: int) -> Seq<char> {
    seq![
        "Jan"@,
        "Feb"@,
        "Mar"@,
        "Apr"@,
        "May"@,
        "Jun"@,
        "Jul"@,
        "Aug"@,
        "Sep"@,
        "Oct"@,
        "Nov"@,
        "Dec"@,
    ][month - 1]
}

/// A number below a hundred, in two digits.
pub open spec fn two_digits(n: int) -> Seq<char> {
    seq![number::digit_char((n / 10) as nat), number::digit_char((n % 10) as nat)]
}

/// A number in at least four digits.
pub open spec fn four_digits(n: int) -> Seq<char> {
    if n < 10_000 {
        two_digits(n / 100) + two_digits(n % 100)
    } else {
        number::decimal(n as nat)
    }
}

/// A year in at least four digits, with a sign where it does not lie between 0
/// and 9999.
pub open spec fn year_text(year: int) -> Seq<char> {
    if year < 0 {
        seq!['-'] + four_digits(-year)
    } else if year < 10_000 {
        four_digits(year)
    } else {
        seq!['+'] + four_digits(year)
    }
}

/// What an HTTP date holds before its year.
pub open spec fn date_front(day: Day) -> Seq<char> {
    weekday_text(day.number()) + ", "@ + two_digits(day.day) + seq![' '] + month_text(day.month)
        + seq![' ']
}

/// What an HTTP date holds behind its year.
pub open spec fn date_back(hour: int, minute: int, second: int) -> Seq<char> {
    seq![' '] + two_digits(hour) + seq![':'] + two_digits(minute) + seq![':'] + two_digits(second)
        + " GMT"@
}

/// The HTTP date of a day and a time of day.
pub open spec fn written_date(day: Day, hour: int, minute: int, second: int) -> Seq<char> {
    date_front(day) + year_text(day.year) + date_back(hour, minute, second)
}

/// The HTTP date of the second that starts `secs` seconds behind the Unix epoch.
pub open spec fn imf_fixdate(secs: int) -> Seq<char> {
    written_date(
        calendar::day_of(secs / 86_400),
        secs % 86_400 / 3_600,
        secs % 3_600 / 60,
        secs % 60,
    )
}

/// Whether a day and a time of day exist. A minute may have a leap second, its
/// sixty-first.
pub open spec fn valid_time(day: Day, hour: int, minute: int, second: int) -> bool {
    day.valid() && 0 <= hour < 24 && 0 <= minute < 60 && 0 <= second <= 60
}

/// The seconds from the Unix epoch to a time; a leap second counts as the one
/// before it.
pub open spec fn time_seconds(day: Day, hour: int, minute: int, second: int) -> int {
    day.number() * 86_400 + hour * 3_600 + minute * 60 + if second == 60 {
        59
    } else {
        second
    }
}

/// Whether `s` is the HTTP date of a time in the calendar, `secs` seconds behind
/// the Unix epoch.
pub open spec fn stands_for(s: Seq<char>, secs: int) -> bool {
    &&& in_calendar(secs)
    &&& exists|day: Day, hour: int, minute: int, second: int|
        valid_time(day, hour, minute, second) && time_seconds(day, hour, minute, second) == secs
            && s == #[trigger] written_date(day, hour, minute, second)
}

/// The whole seconds from the Unix epoch to `t`, rounded down.
pub open spec fn unix_seconds(t: SystemTime) -> int {
    unix_nanos(t) / 1_000_000_000
}

/// Whether the calendar covers the second that starts `secs` seconds behind
/// the Unix epoch.
pub open spec fn in_calendar(secs: int) -> bool {
    FIRST_SECOND <= secs <= LAST_SECOND
}

/// The seconds from the Unix epoch to `t`; zero for a time before it.
pub open spec fn seconds_or_zero(t: SystemTime) -> int {
    if unix_nanos(t) < 0 {
        0
    } else {
        unix_seconds(t)
    }
}

/// The seconds that an HTTP date, with or without white space around it,
/// stands for; `None` where it is none or lies before the Unix epoch.
pub open spec fn http_date_seconds(s: Seq<char>) -> Option<u64> {
    if exists|secs: int| 0 <= secs && stands_for(text::trimmed(s), secs) {
        Some((choose|secs: int| 0 <= secs && stands_for(text::trimmed(s), secs)) as u64)
    } else {
        None
    }
}

/// The Unix epoch, `std::time::UNIX_EPOCH`.
#[verifier::external_body]
pub(crate) fn unix_epoch() -> (r: SystemTime)
    ensures
        unix_nanos(r) == 0,
{
    UNIX_EPOCH
}

/// Calls `SystemTime::duration_since` with the Unix epoch. `Ok` holds the seconds
/// and the nanoseconds from the epoch to `t`; `Err` those from `t`, which
/// lies before it, to the epoch.
#[verifier::external_body]
fn since_epoch(t: SystemTime) -> (r: Result<(u64, u32), (u64, u32)>)
    ensures
        match r {
            Ok((secs, nanos)) => nanos < 1_000_000_000 && unix_nanos(t) == secs * 1_000_000_000
                + nanos,
            Err((secs, nanos)) => nanos < 1_000_000_000 && unix_nanos(t) < 0 && unix_nanos(t)
                == -(secs * 1_000_000_000 + nanos),
        },
{
    match t.duration_since(UNIX_EPOCH) {
        Ok(d) => Ok((d.as_secs(), d.subsec_nanos())),
        Err(e) => Err((e.duration().as_secs(), e.duration().subsec_nanos())),
    }
}

/// Converts `t` to a `chrono::DateTime<Utc>` and calls its `format`. In the one
/// layout admitted here the text gives the weekday, the day, the month and the
/// year of `t` in the Gregorian calendar, and its time of day in UTC, down to the
/// second. Outside the calendar of `chrono` the conversion would panic.
#[verifier::external_body]
fn format_utc(t: SystemTime, format: &str) -> (r: String)
    requires
        format@ == HTTP_DATE_FORMAT@,
        in_calendar(unix_seconds(t)),
    ensures
        r@ == imf_fixdate(unix_seconds(t)),
{
    let dt: DateTime<Utc> = t.into();
    dt.format(format).to_string()
}

/// Calls `chrono::NaiveDateTime::parse_from_str` and takes the timestamp of
/// the result in UTC. In the one layout admitted here, a text of the form of an
/// IMF-fixdate is read as the time that it stands for, and refused where there is
/// no such time: a field out of its range, a day that the month does not have, a
/// weekday that is not that of the day, a year beyond the calendar of `chrono`.
#[verifier::external_body]
fn parse_naive(s: &str, format: &str) -> (r: Result<i64, chrono::ParseError>)
    requires
        format@ == HTTP_DATE_FORMAT@,
        imf_layout(s@),
    ensures
        match r {
            Ok(secs) => stands_for(s@, secs as int),
            Err(_) => forall|secs: int| !stands_for(s@, secs),
        },
{
    match NaiveDateTime::parse_from_str(s, format) {
        Ok(d) => Ok(d.and_utc().timestamp()),
        Err(e) => Err(e),
    }
}

/// The HTTP date (IMF-fixdate) of `t`, such as `Sat, 06 Jun 2026 08:49:37 GMT`.
pub fn http_date(t: SystemTime) -> (r: String)
    requires
        in_calendar(unix_seconds(t)),
    ensures
        r@ == imf_fixdate(unix_seconds(t)),
{
    format_utc(t, HTTP_DATE_FORMAT)
}

/// The whole seconds from the Unix epoch to `t`, rounded down, where the
/// calendar covers them.
pub fn calendar_second(t: SystemTime) -> (r: Option<i64>)
    ensures
        match r {
            Some(secs) => in_calendar(secs as int) && secs == unix_seconds(t),
            None => !in_calendar(unix_seconds(t)),
        },
        r matches Some(secs) ==> secs * 1_000_000_000 <= unix_nanos(t) < (secs + 1) * 1_000_000_000,
{
    match since_epoch(t) {
        Ok((secs, _)) => {
            if secs <= LAST_SECOND as u64 {
                Some(secs as i64)
            } else {
                None
            }
        },
        Err((secs, nanos)) => {
            let limit: u64 = (-FIRST_SECOND) as u64;
            if secs > limit || (secs == limit && nanos > 0) {
                None
            } else if nanos == 0 {
                Some(-(secs as i64))
            } else {
                Some(-(secs as i64) - 1)
            }
        },
    }
}

/// The HTTP date of `t`; `None` where the calendar does not cover `t`.
pub fn checked_http_date(t: SystemTime) -> (r: Option<String>)
    ensures
        match r {
            Some(date) => in_calendar(unix_seconds(t)) && date@ == imf_fixdate(unix_seconds(t)),
            None => !in_calendar(unix_seconds(t)),
        },
{
    match calendar_second(t) {
        Some(_) => Some(http_date(t)),
        None => None,
    }
}

fn is_weekday(s: &[char]) -> (r: bool)
    requires
        s@.len() == 3,
    ensures
        r == weekday_name(s@),
{
    text::is_text(s, "Mon") || text::is_text(s, "Tue") || text::is_text(s, "Wed") || text::is_text(
        s,
        "Thu",
    ) || text::is_text(s, "Fri") || text::is_text(s, "Sat") || text::is_text(s, "Sun")
}

fn is_month(s: &[char]) -> (r: bool)
    requires
        s@.len() == 3,
    ensures
        r == month_name(s@),
{
    text::is_text(s, "Jan") || text::is_text(s, "Feb") || text::is_text(s, "Mar") || text::is_text(
        s,
        "Apr",
    ) || text::is_text(s, "May") || text::is_text(s, "Jun") || text::is_text(s, "Jul")
        || text::is_text(s, "Aug") || text::is_text(s, "Sep") || text::is_text(s, "Oct")
        || text::is_text(s, "Nov") || text::is_text(s, "Dec")
}

fn is_year(s: &[char]) -> (r: bool)
    ensures
        r == year_numeral(s@),
{
    if s.len() == 4 {
        number::are_digits(s)
    } else if s.len() > 5 && s[0] == '+' && s[1] != '0' {
        let digits: &[char] = slice_subrange(s, 1, s.len());
        assert(digits@ == s@.skip(1));
        number::are_digits(digits)
    } else {
        false
    }
}

fn is_clock(s: &[char]) -> (r: bool)
    requires
        s@.len() == 8,
    ensures
        r == clock(s@),
{
    number::are_digits(slice_subrange(s, 0, 2)) && s[2] == ':' && number::are_digits(
        slice_subrange(s, 3, 5),
    ) && s[5] == ':' && number::are_digits(slice_subrange(s, 6, 8))
}

/// Whether a text has the form of an IMF-fixdate.
pub fn is_imf_fixdate(s: &[char]) -> (r: bool)
    ensures
        r == imf_layout(s@),
{
    let n: usize = s.len();
    if n < 29 {
        return false;
    }
    is_weekday(slice_subrange(s, 0, 3)) && text::is_text(slice_subrange(s, 3, 5), ", ")
        && number::are_digits(slice_subrange(s, 5, 7)) && s[7] == ' ' && is_month(
        slice_subrange(s, 8, 11),
    ) && s[11] == ' ' && is_year(slice_subrange(s, 12, n - 13)) && s[n - 13] == ' ' && is_clock(
        slice_subrange(s, n - 12, n - 4),
    ) && text::is_text(slice_subrange(s, n - 4, n), " GMT")
}

/// Parses an HTTP date into whole seconds since the Unix epoch. `None` where it
/// is no IMF-fixdate, where there is no such time, and where it lies before the
/// epoch.
pub fn parse_http_date(s: &str) -> (r: Option<u64>)
    ensures
        r == http_date_seconds(s@),
{
    let chars: Vec<char> = text::chars_of(s);
    let (start, end) = text::trim_bounds(chars.as_slice());
    let ghost date = text::trimmed(s@);
    if !is_imf_fixdate(slice_subrange(chars.as_slice(), start, end)) {
        proof {
            assert forall|secs: int| 0 <= secs implies !stands_for(date, secs) by {
                if stands_for(date, secs) {
                    law_accepted_dates_are_imf_fixdates(date, secs);
                }
            }
        }
        return None;
    }
    match parse_naive(s.substring_char(start, end), HTTP_DATE_FORMAT) {
        Ok(secs) => {
            proof {
                assert forall|other: int| stands_for(date, other) implies other == secs by {
                    law_date_stands_for_one_second(date, secs as int, other);
                }
            }
            if secs >= 0 {
                Some(secs as u64)
            } else {
                None
            }
        },
        Err(_) => None,
    }
}

/// The whole seconds from the Unix epoch to `t`; zero for a time before it.
pub fn system_time_secs(t: SystemTime) -> (r: u64)
    ensures
        r == seconds_or_zero(t),
        unix_nanos(t) >= 0 ==> r * 1_000_000_000 <= unix_nanos(t) < (r + 1) * 1_000_000_000,
        unix_nanos(t) < 0 ==> r == 0,
{
    match since_epoch(t) {
        Ok((secs, _)) => secs,
        Err(_) => 0,
    }
}

/// The names of weekdays are such names.
proof fn lemma_weekday_text(number: int)
    ensures
        weekday_text(number).len() == 3,
        weekday_name(weekday_text(number)),
        vstd::utf8::is_ascii_chars(weekday_text(number)),
        !text::white_space(weekday_text(number)[0]),
{
    reveal_strlit("Mon");
    reveal_strlit("Tue");
    reveal_strlit("Wed");
    reveal_strlit("Thu");
    reveal_strlit("Fri");
    reveal_strlit("Sat");
    reveal_strlit("Sun");
}

/// The names of months are such names, and differ.
proof fn lemma_month_text(month: int, other: int)
    requires
        1 <= month <= 12,
        1 <= other <= 12,
    ensures
        month_text(month).len() == 3,
        month_name(month_text(month)),
        vstd::utf8::is_ascii_chars(month_text(month)),
        month_text(month) == month_text(other) ==> month == other,
{
    reveal_strlit("Jan");
    reveal_strlit("Feb");
    reveal_strlit("Mar");
    reveal_strlit("Apr");
    reveal_strlit("May");
    reveal_strlit("Jun");
    reveal_strlit("Jul");
    reveal_strlit("Aug");
    reveal_strlit("Sep");
    reveal_strlit("Oct");
    reveal_strlit("Nov");
    reveal_strlit("Dec");
    let a = month_text(month);
    let b = month_text(other);
    if month != other {
        assert(a[0] != b[0] || a[1] != b[1] || a[2] != b[2]);
    }
}

/// Two digits are digits, and tell numbers apart.
proof fn lemma_two_digits(n: int, other: int)
    requires
        0 <= n < 100,
        0 <= other < 100,
    ensures
        number::all_decimal_digits(two_digits(n)),
        vstd::utf8::is_ascii_chars(two_digits(n)),
        two_digits(n) == two_digits(other) ==> n == other,
{
    let a = two_digits(n);
    let b = two_digits(other);
    assert(a[0] == number::digit_char((n / 10) as nat));
    assert(a[1] == number::digit_char((n % 10) as nat));
    assert(b[0] == number::digit_char((other / 10) as nat));
    assert(b[1] == number::digit_char((other % 10) as nat));
}

/// A year has at least four digits and is ASCII; from the year 0 on it is a year
/// numeral.
proof fn lemma_year_text(year: int)
    ensures
        year_text(year).len() >= 4,
        0 <= year < 10_000 ==> year_text(year).len() == 4,
        year >= 0 ==> year_numeral(year_text(year)),
        vstd::utf8::is_ascii_chars(year_text(year)),
{
    let n = if year < 0 {
        -year
    } else {
        year
    };
    lemma_four_digits(n, n);
    let s = year_text(year);
    if year < 0 || year >= 10_000 {
        assert(s.skip(1) == four_digits(n));
        assert forall|i: int| 0 <= i < s.len() implies '\0' <= #[trigger] s[i] <= '\u{7f}' by {
            if i > 0 {
                assert(s[i] == four_digits(n)[i - 1]);
            }
        }
    }
}

/// Four digits or more are digits, and tell numbers apart.
proof fn lemma_four_digits(n: int, other: int)
    requires
        0 <= n,
        0 <= other,
    ensures
        four_digits(n).len() >= 4,
        n < 10_000 ==> four_digits(n).len() == 4,
        n >= 10_000 ==> four_digits(n).len() >= 5 && four_digits(n)[0] != '0',
        number::all_decimal_digits(four_digits(n)),
        vstd::utf8::is_ascii_chars(four_digits(n)),
        four_digits(n) == four_digits(other) ==> n == other,
{
    let a = four_digits(n);
    let b = four_digits(other);
    if n >= 10_000 {
        number::lemma_decimal_digits(n as nat);
        lemma_long_decimal(n as nat);
    } else {
        lemma_two_digits(n / 100, n % 100);
        lemma_two_digits(n % 100, n % 100);
        assert(a.subrange(0, 2) == two_digits(n / 100));
        assert(a.subrange(2, 4) == two_digits(n % 100));
        assert forall|i: int| 0 <= i < a.len() implies number::decimal_digit(#[trigger] a[i]) by {
            if i < 2 {
                assert(a[i] == two_digits(n / 100)[i]);
            } else {
                assert(a[i] == two_digits(n % 100)[i - 2]);
            }
        }
    }
    if other >= 10_000 {
        number::lemma_decimal_digits(other as nat);
        lemma_long_decimal(other as nat);
    } else {
        assert(b.subrange(0, 2) == two_digits(other / 100));
        assert(b.subrange(2, 4) == two_digits(other % 100));
    }
    if a == b {
        if n < 10_000 && other < 10_000 {
            lemma_two_digits(n / 100, other / 100);
            lemma_two_digits(n % 100, other % 100);
        } else {
            assert(n >= 10_000 && other >= 10_000);
            number::lemma_numeral_injective(n as nat, other as nat, 10);
        }
    }
}

/// The numeral of a number from 10000 on has five digits or more, and the first is
/// no zero.
proof fn lemma_long_decimal(n: nat)
    requires
        n >= 10_000,
    ensures
        number::decimal(n).len() >= 5,
        number::decimal(n)[0] != '0',
    decreases n,
{
    reveal_with_fuel(number::numeral, 6);
    let shorter = number::decimal(n / 10);
    assert(number::decimal(n) == shorter.push(number::digit_char(n % 10)));
    if n >= 100_000 {
        lemma_long_decimal(n / 10);
    } else {
        assert(1 <= n / 10_000 <= 9);
        assert(n / 10 / 10 / 10 / 10 == n / 10_000);
        assert(number::decimal(n)[0] == number::digit_char(n / 10_000));
    }
}

/// The years of different texts differ.
proof fn lemma_year_text_injective(a: int, b: int)
    requires
        year_text(a) == year_text(b),
    ensures
        a == b,
{
    let m = if a < 0 {
        -a
    } else {
        a
    };
    let n = if b < 0 {
        -b
    } else {
        b
    };
    lemma_four_digits(m, n);
    lemma_four_digits(n, m);
    let s = year_text(a);
    let t = year_text(b);
    if a < 0 || a >= 10_000 {
        assert(s.skip(1) == four_digits(m));
        assert(!number::decimal_digit(s[0]));
    } else {
        assert(number::decimal_digit(s[0]));
    }
    if b < 0 || b >= 10_000 {
        assert(t.skip(1) == four_digits(n));
        assert(!number::decimal_digit(t[0]));
    } else {
        assert(number::decimal_digit(t[0]));
    }
}

/// The parts of an HTTP date, and where they stand.
#[verifier::spinoff_prover]
#[verifier::rlimit(40)]
proof fn lemma_written_parts(day: Day, hour: int, minute: int, second: int)
    requires
        valid_time(day, hour, minute, second),
    ensures
        ({
            let s = written_date(day, hour, minute, second);
            let n = s.len() as int;
            &&& n == 25 + year_text(day.year).len()
            &&& s.subrange(0, 3) == weekday_text(day.number())
            &&& s.subrange(3, 5) == ", "@
            &&& s.subrange(5, 7) == two_digits(day.day)
            &&& s[7] == ' '
            &&& s.subrange(8, 11) == month_text(day.month)
            &&& s[11] == ' '
            &&& s.subrange(12, n - 13) == year_text(day.year)
            &&& s[n - 13] == ' '
            &&& s.subrange(n - 12, n - 10) == two_digits(hour)
            &&& s[n - 10] == ':'
            &&& s.subrange(n - 9, n - 7) == two_digits(minute)
            &&& s[n - 7] == ':'
            &&& s.subrange(n - 6, n - 4) == two_digits(second)
            &&& s.subrange(n - 4, n) == " GMT"@
        }),
{
    reveal_strlit(", ");
    reveal_strlit(" GMT");
    lemma_weekday_text(day.number());
    lemma_month_text(day.month, day.month);
    let s = written_date(day, hour, minute, second);
    let n = s.len() as int;
    let front = date_front(day);
    let year = year_text(day.year);
    let back = date_back(hour, minute, second);
    assert(front.len() == 12);
    assert(back.len() == 13);
    assert(s == front + (year + back));
    assert(s.subrange(0, 12) == front);
    assert(s.subrange(12, n - 13) == year);
    assert(s.subrange(n - 13, n) == back);
    assert(s.subrange(0, 3) == weekday_text(day.number()));
    assert(s.subrange(3, 5) == ", "@);
    assert(s.subrange(5, 7) == two_digits(day.day));
    assert(s.subrange(8, 11) == month_text(day.month));
    assert(s.subrange(n - 12, n - 10) == two_digits(hour));
    assert(s.subrange(n - 9, n - 7) == two_digits(minute));
    assert(s.subrange(n - 6, n - 4) == two_digits(second));
    assert(s.subrange(n - 4, n) == " GMT"@);
    assert(s[n - 13] == back[0]);
    assert(s[n - 10] == back[3]);
    assert(s[n - 7] == back[6]);
}

/// An HTTP date stands for one day and one time of day.
#[verifier::spinoff_prover]
#[verifier::rlimit(40)]
proof fn lemma_written_date_injective(
    a: Day,
    hour_a: int,
    minute_a: int,
    second_a: int,
    b: Day,
    hour_b: int,
    minute_b: int,
    second_b: int,
)
    requires
        valid_time(a, hour_a, minute_a, second_a),
        valid_time(b, hour_b, minute_b, second_b),
        written_date(a, hour_a, minute_a, second_a) == written_date(
            b,
            hour_b,
            minute_b,
            second_b,
        ),
    ensures
        a == b,
        hour_a == hour_b,
        minute_a == minute_b,
        second_a == second_b,
{
    lemma_written_parts(a, hour_a, minute_a, second_a);
    lemma_written_parts(b, hour_b, minute_b, second_b);
    lemma_two_digits(a.day, b.day);
    lemma_month_text(a.month, b.month);
    lemma_year_text_injective(a.year, b.year);
    lemma_two_digits(hour_a, hour_b);
    lemma_two_digits(minute_a, minute_b);
    lemma_two_digits(second_a, second_b);
}

/// An HTTP date stands for one second.
pub proof fn law_date_stands_for_one_second(s: Seq<char>, a: int, b: int)
    requires
        stands_for(s, a),
        stands_for(s, b),
    ensures
        a == b,
{
    let (x, hour_x, minute_x, second_x) = choose|
        day: Day,
        hour: int,
        minute: int,
        second: int,
    |
        valid_time(day, hour, minute, second) && time_seconds(day, hour, minute, second) == a
            && s == #[trigger] written_date(day, hour, minute, second);
    let (y, hour_y, minute_y, second_y) = choose|
        day: Day,
        hour: int,
        minute: int,
        second: int,
    |
        valid_time(day, hour, minute, second) && time_seconds(day, hour, minute, second) == b
            && s == #[trigger] written_date(day, hour, minute, second);
    lemma_written_date_injective(
        x,
        hour_x,
        minute_x,
        second_x,
        y,
        hour_y,
        minute_y,
        second_y,
    );
}

/// The date that is written for a second in the calendar stands for it.
#[verifier::spinoff_prover]
#[verifier::rlimit(40)]
pub proof fn law_written_date_stands_for_its_second(secs: int)
    requires
        in_calendar(secs),
    ensures
        stands_for(imf_fixdate(secs), secs),
{
    let day = calendar::day_of(secs / 86_400);
    calendar::law_every_number_is_a_day(secs / 86_400);
    let hour = secs % 86_400 / 3_600;
    let minute = secs % 3_600 / 60;
    let second = secs % 60;
    assert(valid_time(day, hour, minute, second));
    assert(time_seconds(day, hour, minute, second) == secs);
    assert(imf_fixdate(secs) == written_date(day, hour, minute, second));
}

/// A date that was written for a second from the Unix epoch on is read back as
/// that second, also with white space around it.
pub proof fn law_written_date_reads_back(secs: int, s: Seq<char>)
    requires
        0 <= secs <= LAST_SECOND,
        text::trimmed(s) == imf_fixdate(secs),
    ensures
        http_date_seconds(s) == Some(secs as u64),
{
    law_written_date_stands_for_its_second(secs);
    let read = choose|n: int| 0 <= n && stands_for(text::trimmed(s), n);
    law_date_stands_for_one_second(text::trimmed(s), secs, read);
}

/// A written date is an IMF-fixdate from the year 0 on.
proof fn lemma_written_layout(day: Day, hour: int, minute: int, second: int)
    requires
        valid_time(day, hour, minute, second),
        day.year >= 0,
    ensures
        imf_layout(written_date(day, hour, minute, second)),
{
    let s = written_date(day, hour, minute, second);
    let n = s.len() as int;
    lemma_written_parts(day, hour, minute, second);
    lemma_weekday_text(day.number());
    lemma_month_text(day.month, day.month);
    lemma_year_text(day.year);
    lemma_two_digits(day.day, day.day);
    lemma_two_digits(hour, hour);
    lemma_two_digits(minute, minute);
    lemma_two_digits(second, second);
    let time = s.subrange(n - 12, n - 4);
    assert(time.subrange(0, 2) == two_digits(hour));
    assert(time.subrange(3, 5) == two_digits(minute));
    assert(time.subrange(6, 8) == two_digits(second));
    assert(clock(time));
}

/// Every date that is accepted has the form of an IMF-fixdate.
pub proof fn law_accepted_dates_are_imf_fixdates(s: Seq<char>, secs: int)
    requires
        stands_for(s, secs),
        0 <= secs,
    ensures
        imf_layout(s),
{
    let (day, hour, minute, second) = choose|day: Day, hour: int, minute: int, second: int|
        valid_time(day, hour, minute, second) && time_seconds(day, hour, minute, second) == secs
            && s == #[trigger] written_date(day, hour, minute, second);
    calendar::lemma_year_of_day(day, 0);
    lemma_written_layout(day, hour, minute, second);
}

/// A written date is ASCII, without white space at its ends. From the year 0 on it
/// is an IMF-fixdate, up to the year 9999 one of 29 characters.
#[verifier::spinoff_prover]
#[verifier::rlimit(40)]
pub proof fn law_form_of_written_dates(secs: int)
    ensures
        ({
            let s = imf_fixdate(secs);
            let year = calendar::day_of(secs / 86_400).year;
            &&& vstd::utf8::is_ascii_chars(s)
            &&& text::trimmed(s) == s
            &&& year >= 0 ==> imf_layout(s)
            &&& 0 <= year <= 9_999 ==> s.len() == 29
        }),
{
    let s = imf_fixdate(secs);
    let n = s.len() as int;
    let day = calendar::day_of(secs / 86_400);
    calendar::law_every_number_is_a_day(secs / 86_400);
    let hour = secs % 86_400 / 3_600;
    let minute = secs % 3_600 / 60;
    let second = secs % 60;
    lemma_written_parts(day, hour, minute, second);
    lemma_weekday_text(day.number());
    lemma_month_text(day.month, day.month);
    lemma_year_text(day.year);
    lemma_two_digits(day.day, day.day);
    lemma_two_digits(hour, hour);
    lemma_two_digits(minute, minute);
    lemma_two_digits(second, second);
    reveal_strlit(", ");
    reveal_strlit(" GMT");
    if day.year >= 0 {
        lemma_written_layout(day, hour, minute, second);
    }
    assert forall|i: int| 0 <= i < n implies '\0' <= #[trigger] s[i] <= '\u{7f}' by {
        if i < 3 {
            assert(s[i] == s.subrange(0, 3)[i]);
        } else if i < 5 {
            assert(s[i] == s.subrange(3, 5)[i - 3]);
        } else if 5 <= i < 7 {
            assert(s[i] == s.subrange(5, 7)[i - 5]);
        } else if 8 <= i < 11 {
            assert(s[i] == s.subrange(8, 11)[i - 8]);
        } else if 12 <= i < n - 13 {
            assert(s[i] == s.subrange(12, n - 13)[i - 12]);
        } else if n - 12 <= i < n - 10 {
            assert(s[i] == s.subrange(n - 12, n - 10)[i - (n - 12)]);
        } else if n - 9 <= i < n - 7 {
            assert(s[i] == s.subrange(n - 9, n - 7)[i - (n - 9)]);
        } else if n - 6 <= i < n - 4 {
            assert(s[i] == s.subrange(n - 6, n - 4)[i - (n - 6)]);
        } else if n - 4 <= i {
            assert(s[i] == s.subrange(n - 4, n)[i - (n - 4)]);
        }
    }
    assert(s[0] == s.subrange(0, 3)[0]);
    assert(s.last() == s.subrange(n - 4, n)[3]);
    text::lemma_trimmed_start(s, 0);
    assert(s.skip(0) == s);
    text::lemma_trimmed_end(s, n);
    assert(s.take(n) == s);
}

/// The calendar covers the years from -262143 to 262142.
pub proof fn law_years_of_the_calendar(secs: int)
    ensures
        in_calendar(secs) <==> -262_143 <= calendar::day_of(secs / 86_400).year <= 262_142,
{
    let day = calendar::day_of(secs / 86_400);
    calendar::law_every_number_is_a_day(secs / 86_400);
    calendar::lemma_year_of_day(day, -262_143);
    calendar::lemma_year_of_day(day, 262_143);
}

/// A time lies in the second that it is counted to.
pub proof fn law_seconds_of_a_time(t: SystemTime)
    ensures
        unix_seconds(t) * 1_000_000_000 <= unix_nanos(t) < (unix_seconds(t) + 1) * 1_000_000_000,
{
}

/// Two digits are read as their number.
proof fn lemma_two_digits_value(n: int)
    requires
        0 <= n < 100,
    ensures
        number::numeral_value(two_digits(n)) == Some(n as nat),
{
    lemma_two_digits(n, n);
    let s = two_digits(n);
    reveal_with_fuel(number::decimal_value, 3);
    assert(s.drop_last() == seq![s[0]]);
    assert(s.drop_last().drop_last() == Seq::<char>::empty());
}

/// Four digits or more are read as their number.
proof fn lemma_four_digits_value(n: int)
    requires
        0 <= n,
    ensures
        number::numeral_value(four_digits(n)) == Some(n as nat),
{
    lemma_four_digits(n, n);
    let s = four_digits(n);
    if n >= 10_000 {
        number::law_decimal_reads_back(n as nat);
    } else {
        reveal_with_fuel(number::decimal_value, 5);
        assert(s[0] == number::digit_char((n / 1_000) as nat)) by {
            assert(n / 100 / 10 == n / 1_000);
        }
        assert(s[1] == number::digit_char((n / 100 % 10) as nat));
        assert(s[2] == number::digit_char((n % 100 / 10) as nat));
        assert(s[3] == number::digit_char((n % 10) as nat)) by {
            assert(n % 100 % 10 == n % 10);
        }
        let three = s.drop_last();
        let two = three.drop_last();
        let one = two.drop_last();
        assert(one.drop_last() == Seq::<char>::empty());
        assert(one.last() == s[0] && two.last() == s[1] && three.last() == s[2]);
    }
}

/// The date that is written for a time starts with its weekday, its day and its
/// month.
#[verifier::spinoff_prover]
#[verifier::rlimit(40)]
pub proof fn law_day_of_written_dates(day: Day, hour: int, minute: int, second: int)
    requires
        day.valid(),
        0 <= hour < 24,
        0 <= minute < 60,
        0 <= second < 60,
    ensures
        ({
            let s = imf_fixdate(day.number() * 86_400 + hour * 3_600 + minute * 60 + second);
            &&& s.len() >= 29
            &&& s.subrange(0, 3) == seq!["Thu"@, "Fri"@, "Sat"@, "Sun"@, "Mon"@, "Tue"@, "Wed"@][
                day.number() % 7
            ]
            &&& s.subrange(3, 5) == seq![',', ' ']
            &&& number::numeral_value(s.subrange(5, 7)) == Some(day.day as nat)
            &&& s[7] == ' '
            &&& s.subrange(8, 11) == seq![
                "Jan"@,
                "Feb"@,
                "Mar"@,
                "Apr"@,
                "May"@,
                "Jun"@,
                "Jul"@,
                "Aug"@,
                "Sep"@,
                "Oct"@,
                "Nov"@,
                "Dec"@,
            ][day.month - 1]
            &&& s[11] == ' '
        }),
{
    lemma_fixdate_of_time(day, hour, minute, second);
    lemma_written_parts(day, hour, minute, second);
    lemma_two_digits_value(day.day);
    lemma_year_text(day.year);
    reveal_strlit(", ");
    assert(", "@ =~= seq![',', ' ']);
}

/// The date that is written for a time goes on with its year: in four digits, and
/// with a sign where it does not lie between 0 and 9999.
#[verifier::spinoff_prover]
#[verifier::rlimit(40)]
pub proof fn law_year_of_written_dates(day: Day, hour: int, minute: int, second: int)
    requires
        day.valid(),
        0 <= hour < 24,
        0 <= minute < 60,
        0 <= second < 60,
    ensures
        ({
            let s = imf_fixdate(day.number() * 86_400 + hour * 3_600 + minute * 60 + second);
            let n = s.len() as int;
            if 0 <= day.year <= 9_999 {
                n == 29 && number::numeral_value(s.subrange(12, 16)) == Some(day.year as nat)
            } else if day.year > 9_999 {
                s[12] == '+' && number::numeral_value(s.subrange(13, n - 13)) == Some(
                    day.year as nat,
                )
            } else {
                n >= 30 && s[12] == '-' && number::numeral_value(s.subrange(13, n - 13)) == Some(
                    (-day.year) as nat,
                ) && (day.year > -10_000 ==> n == 30)
            }
        }),
{
    lemma_fixdate_of_time(day, hour, minute, second);
    lemma_written_parts(day, hour, minute, second);
    lemma_year_text(day.year);
    let s = written_date(day, hour, minute, second);
    let n = s.len() as int;
    let year = s.subrange(12, n - 13);
    assert(year == year_text(day.year));
    if 0 <= day.year <= 9_999 {
        lemma_four_digits_value(day.year);
    } else {
        let size = if day.year < 0 {
            -day.year
        } else {
            day.year
        };
        lemma_four_digits(size, size);
        lemma_four_digits_value(size);
        assert(s[12] == year[0]);
        assert(s.subrange(13, n - 13) == year.skip(1));
        assert(year_text(day.year).skip(1) == four_digits(size));
    }
}

/// The date that is written for a time ends with its hour, minute and second, and
/// `GMT`.
#[verifier::spinoff_prover]
#[verifier::rlimit(40)]
pub proof fn law_time_of_written_dates(day: Day, hour: int, minute: int, second: int)
    requires
        day.valid(),
        0 <= hour < 24,
        0 <= minute < 60,
        0 <= second < 60,
    ensures
        ({
            let s = imf_fixdate(day.number() * 86_400 + hour * 3_600 + minute * 60 + second);
            let n = s.len() as int;
            &&& s[n - 13] == ' '
            &&& number::numeral_value(s.subrange(n - 12, n - 10)) == Some(hour as nat)
            &&& s[n - 10] == ':'
            &&& number::numeral_value(s.subrange(n - 9, n - 7)) == Some(minute as nat)
            &&& s[n - 7] == ':'
            &&& number::numeral_value(s.subrange(n - 6, n - 4)) == Some(second as nat)
            &&& s.subrange(n - 4, n) == seq![' ', 'G', 'M', 'T']
        }),
{
    lemma_fixdate_of_time(day, hour, minute, second);
    lemma_written_parts(day, hour, minute, second);
    lemma_two_digits_value(hour);
    lemma_two_digits_value(minute);
    lemma_two_digits_value(second);
    reveal_strlit(" GMT");
    assert(" GMT"@ =~= seq![' ', 'G', 'M', 'T']);
}

/// The date of a second is written for the day and the time of day of that second.
#[verifier::spinoff_prover]
#[verifier::rlimit(40)]
proof fn lemma_fixdate_of_time(day: Day, hour: int, minute: int, second: int)
    requires
        day.valid(),
        0 <= hour < 24,
        0 <= minute < 60,
        0 <= second < 60,
    ensures
        imf_fixdate(day.number() * 86_400 + hour * 3_600 + minute * 60 + second) == written_date(
            day,
            hour,
            minute,
            second,
        ),
{
    lemma_time_of_day(day.number(), hour, minute, second);
    calendar::law_day_of_its_number(day);
}

/// The day and the time of day of a second.
proof fn lemma_time_of_day(number: int, hour: int, minute: int, second: int)
    requires
        0 <= hour < 24,
        0 <= minute < 60,
        0 <= second < 60,
    ensures
        ({
            let secs = number * 86_400 + hour * 3_600 + minute * 60 + second;
            &&& secs / 86_400 == number
            &&& secs % 86_400 / 3_600 == hour
            &&& secs % 3_600 / 60 == minute
            &&& secs % 60 == second
        }),
{
    let secs = number * 86_400 + hour * 3_600 + minute * 60 + second;
    let in_day = hour * 3_600 + minute * 60 + second;
    let in_hour = minute * 60 + second;
    vstd::arithmetic::div_mod::lemma_fundamental_div_mod_converse(secs, 86_400, number, in_day);
    vstd::arithmetic::div_mod::lemma_fundamental_div_mod_converse(in_day, 3_600, hour, in_hour);
    vstd::arithmetic::div_mod::lemma_fundamental_div_mod_converse(secs, 3_600, number * 24 + hour, in_hour);
    vstd::arithmetic::div_mod::lemma_fundamental_div_mod_converse(in_hour, 60, minute, second);
    vstd::arithmetic::div_mod::lemma_fundamental_div_mod_converse(secs, 60, number * 1_440 + hour * 60 + minute, second);
}

/// What is read as a second is the date that is written for it; or it is that date
/// with a leap second, `:60`, in place of the last second of a minute.
#[verifier::spinoff_prover]
#[verifier::rlimit(40)]
pub proof fn law_read_dates_are_written_dates(s: Seq<char>, secs: u64)
    requires
        http_date_seconds(s) == Some(secs),
    ensures
        ({
            let t = text::trimmed(s);
            let n = t.len() as int;
            let date = imf_fixdate(secs as int);
            t == date || (n >= 29 && date.len() == n && t.take(n - 6) == date.take(n - 6)
                && date.skip(n - 6) == "59 GMT"@ && t.skip(n - 6) == "60 GMT"@)
        }),
{
    let t = text::trimmed(s);
    let found = choose|n: int| 0 <= n && stands_for(t, n);
    assert(stands_for(t, found) && found == secs);
    let (day, hour, minute, second) = choose|day: Day, hour: int, minute: int, second: int|
        valid_time(day, hour, minute, second) && time_seconds(day, hour, minute, second) == found
            && t == #[trigger] written_date(day, hour, minute, second);
    if second < 60 {
        lemma_fixdate_of_time(day, hour, minute, second);
    } else {
        lemma_fixdate_of_time(day, hour, minute, 59);
        lemma_leap_second(day, hour, minute);
    }
}

/// A leap second and the second before it differ in two digits.
#[verifier::spinoff_prover]
#[verifier::rlimit(40)]
proof fn lemma_leap_second(day: Day, hour: int, minute: int)
    requires
        valid_time(day, hour, minute, 60),
    ensures
        ({
            let leap = written_date(day, hour, minute, 60);
            let last = written_date(day, hour, minute, 59);
            let n = leap.len() as int;
            &&& n >= 29
            &&& last.len() == n
            &&& leap.take(n - 6) == last.take(n - 6)
            &&& leap.skip(n - 6) == "60 GMT"@
            &&& last.skip(n - 6) == "59 GMT"@
        }),
{
    reveal_strlit("60 GMT");
    reveal_strlit("59 GMT");
    reveal_strlit(" GMT");
    lemma_year_text(day.year);
    lemma_written_parts(day, hour, minute, 60);
    lemma_written_parts(day, hour, minute, 59);
    let leap = written_date(day, hour, minute, 60);
    let last = written_date(day, hour, minute, 59);
    let n = leap.len() as int;
    assert(two_digits(60) =~= seq!['6', '0']);
    assert(two_digits(59) =~= seq!['5', '9']);
    assert(leap.skip(n - 6) =~= leap.subrange(n - 6, n - 4) + leap.subrange(n - 4, n));
    assert(last.skip(n - 6) =~= last.subrange(n - 6, n - 4) + last.subrange(n - 4, n));
    assert(leap.skip(n - 6) =~= "60 GMT"@);
    assert(last.skip(n - 6) =~= "59 GMT"@);
    let front = date_front(day) + year_text(day.year);
    let a = date_back(hour, minute, 60);
    let b = date_back(hour, minute, 59);
    assert(a.take(7) =~= b.take(7));
    assert(leap.take(n - 6) =~= front + a.take(7));
    assert(last.take(n - 6) =~= front + b.take(7));
}

/// A date with a leap second is read as the second before it.
#[verifier::spinoff_prover]
#[verifier::rlimit(40)]
pub proof fn law_leap_second_is_read(s: Seq<char>, secs: int)
    requires
        0 <= secs <= LAST_SECOND,
        ({
            let t = text::trimmed(s);
            let n = t.len() as int;
            let date = imf_fixdate(secs);
            date.len() == n && t.take(n - 6) == date.take(n - 6) && date.skip(n - 6) == "59 GMT"@
                && t.skip(n - 6) == "60 GMT"@
        }),
    ensures
        http_date_seconds(s) == Some(secs as u64),
{
    let t = text::trimmed(s);
    let day = calendar::day_of(secs / 86_400);
    calendar::law_every_number_is_a_day(secs / 86_400);
    let hour = secs % 86_400 / 3_600;
    let minute = secs % 3_600 / 60;
    let second = secs % 60;
    let date = imf_fixdate(secs);
    assert(date == written_date(day, hour, minute, second));
    lemma_year_text(day.year);
    lemma_written_parts(day, hour, minute, second);
    lemma_leap_second(day, hour, minute);
    let n = date.len() as int;
    assert(second == 59) by {
        reveal_strlit("59 GMT");
        assert(date.subrange(n - 6, n - 4) =~= date.skip(n - 6).take(2));
        assert(date.subrange(n - 6, n - 4) =~= two_digits(59)) by {
            assert(two_digits(59) =~= seq!['5', '9']);
        }
        lemma_two_digits(second, 59);
    }
    let leap = written_date(day, hour, minute, 60);
    assert(t =~= t.take(n - 6) + t.skip(n - 6));
    assert(leap =~= leap.take(n - 6) + leap.skip(n - 6));
    assert(t == leap);
    assert(valid_time(day, hour, minute, 60));
    assert(time_seconds(day, hour, minute, 60) == secs);
    assert(stands_for(t, secs));
    let read = choose|n: int| 0 <= n && stands_for(t, n);
    law_date_stands_for_one_second(t, secs, read);
}

/// A text has the form of an IMF-fixdate where it is made of the parts of one.
#[verifier::spinoff_prover]
#[verifier::rlimit(40)]
pub proof fn law_form_of_imf_fixdates(s: Seq<char>)
    ensures
        imf_layout(s) <==> ({
            let n = s.len() as int;
            &&& n >= 29
            &&& seq!["Mon"@, "Tue"@, "Wed"@, "Thu"@, "Fri"@, "Sat"@, "Sun"@].contains(
                s.subrange(0, 3),
            )
            &&& s.subrange(3, 5) == seq![',', ' ']
            &&& number::numeral_value(s.subrange(5, 7)) is Some
            &&& s[7] == ' '
            &&& seq![
                "Jan"@,
                "Feb"@,
                "Mar"@,
                "Apr"@,
                "May"@,
                "Jun"@,
                "Jul"@,
                "Aug"@,
                "Sep"@,
                "Oct"@,
                "Nov"@,
                "Dec"@,
            ].contains(s.subrange(8, 11))
            &&& s[11] == ' '
            &&& if n == 29 {
                number::numeral_value(s.subrange(12, 16)) is Some
            } else {
                n >= 31 && s[12] == '+' && s[13] != '0' && number::numeral_value(
                    s.subrange(13, n - 13),
                ) is Some
            }
            &&& s[n - 13] == ' '
            &&& number::numeral_value(s.subrange(n - 12, n - 10)) is Some
            &&& s[n - 10] == ':'
            &&& number::numeral_value(s.subrange(n - 9, n - 7)) is Some
            &&& s[n - 7] == ':'
            &&& number::numeral_value(s.subrange(n - 6, n - 4)) is Some
            &&& s.subrange(n - 4, n) == seq![' ', 'G', 'M', 'T']
        }),
{
    reveal_strlit(", ");
    reveal_strlit(" GMT");
    let n = s.len() as int;
    let weekdays = seq!["Mon"@, "Tue"@, "Wed"@, "Thu"@, "Fri"@, "Sat"@, "Sun"@];
    let months = seq![
        "Jan"@,
        "Feb"@,
        "Mar"@,
        "Apr"@,
        "May"@,
        "Jun"@,
        "Jul"@,
        "Aug"@,
        "Sep"@,
        "Oct"@,
        "Nov"@,
        "Dec"@,
    ];
    assert(weekdays[0] == "Mon"@ && weekdays[1] == "Tue"@ && weekdays[2] == "Wed"@ && weekdays[3]
        == "Thu"@ && weekdays[4] == "Fri"@ && weekdays[5] == "Sat"@ && weekdays[6] == "Sun"@);
    assert(months[0] == "Jan"@ && months[1] == "Feb"@ && months[2] == "Mar"@ && months[3] == "Apr"@
        && months[4] == "May"@ && months[5] == "Jun"@ && months[6] == "Jul"@ && months[7] == "Aug"@
        && months[8] == "Sep"@ && months[9] == "Oct"@ && months[10] == "Nov"@ && months[11]
        == "Dec"@);
    if n >= 29 {
        let year = s.subrange(12, n - 13);
        let time = s.subrange(n - 12, n - 4);
        assert(s[12] == year[0]);
        if n > 29 {
            assert(s[13] == year[1]);
            assert(s.subrange(13, n - 13) == year.skip(1));
        }
        assert(s.subrange(n - 12, n - 10) == time.subrange(0, 2));
        assert(s.subrange(n - 9, n - 7) == time.subrange(3, 5));
        assert(s.subrange(n - 6, n - 4) == time.subrange(6, 8));
        assert(s[n - 10] == time[2]);
        assert(s[n - 7] == time[5]);
        assert(weekday_name(s.subrange(0, 3)) <==> weekdays.contains(s.subrange(0, 3)));
        assert(month_name(s.subrange(8, 11)) <==> months.contains(s.subrange(8, 11)));
        assert(", "@ =~= seq![',', ' ']);
        assert(" GMT"@ =~= seq![' ', 'G', 'M', 'T']);
        assert(year_numeral(year) <==> if n == 29 {
            number::numeral_value(s.subrange(12, 16)) is Some
        } else {
            n >= 31 && s[12] == '+' && s[13] != '0' && number::numeral_value(s.subrange(13, n - 13))
                is Some
        });
        assert(clock(time) <==> number::numeral_value(s.subrange(n - 12, n - 10)) is Some
            && s[n - 10] == ':' && number::numeral_value(s.subrange(n - 9, n - 7)) is Some
            && s[n - 7] == ':' && number::numeral_value(s.subrange(n - 6, n - 4)) is Some);
    }
}

} // verus!
