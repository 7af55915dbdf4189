//! Dates and times: the calendar, the text form that names snapshots, and the
//! machine's clock and time zone.
use crate::number::{digit_char, nat_text};
use crate::text::{lex_lt, lex_total};
use chrono::{Datelike, Timelike};
use vstd::prelude::*;

verus! {

/// The form of snapshot names and event times: zero-padded, most significant
/// field first, so that the order of the texts is the order of the times.
pub const SNAPSHOT_FMT: &'static str = "%Y-%m-%dT%H-%M-%S";

/// The form of a date alone.
pub const DATE_FMT: &'static str = "%Y-%m-%d";

/// The first year that a date can have.
pub const MIN_YEAR: i32 = -262143;

/// The last year that a date can have.
pub const MAX_YEAR: i32 = 262142;

/// The first day that a date can have, counted from the first of January
/// 1970.
pub const MIN_DAY: i64 = -96465292;

/// The first second that an instant can have, counted from the beginning of
/// 1970 in universal time.
pub const MIN_SECS: i64 = -8334601228800;

/// The last second that an instant can have.
pub const MAX_SECS: i64 = 8210266876799;

// ---------------------------------------------------------------------
// Dates
// ---------------------------------------------------------------------
/// A day of the calendar.
#[derive(Debug, Clone, Copy, PartialEq, Eq, Structural)]
pub struct CivilDate {
    pub year: i32,
    pub month: u32,
    pub day: u32,
}

/// Is the year a leap year?
pub open spec fn is_leap(y: int) -> bool {
    y % 4 == 0 && (y % 100 != 0 || y % 400 == 0)
}

/// How many days a month has.
pub open spec fn month_len(y: int, m: int) -> int {
    if m == 2 {
        if is_leap(y) {
            29
        } else {
            28
        }
    } else if m == 4 || m == 6 || m == 9 || m == 11 {
        30
    } else {
        31
    }
}

/// Is this a day of the calendar?
pub open spec fn valid_date(d: CivilDate) -> bool {
    &&& MIN_YEAR <= d.year <= MAX_YEAR
    &&& 1 <= d.month <= 12
    &&& 1 <= d.day <= month_len(d.year as int, d.month as int)
}

/// How many leap days the years up to `y` have, counted from year zero.
pub open spec fn leap_days(y: int) -> int {
    y / 4 - y / 100 + y / 400
}

/// The number of the first day of a year, where the first of January 1970 has
/// the number zero.
pub open spec fn year_start(y: int) -> int {
    365 * (y - 1970) + leap_days(y - 1) - leap_days(1969)
}

/// How many days of the year are before a month.
pub open spec fn days_before_month(y: int, m: int) -> int
    decreases m,
{
    if m <= 1 {
        0
    } else {
        days_before_month(y, m - 1) + month_len(y, m - 1)
    }
}

/// The number of a day, where the first of January 1970 has the number zero.
pub open spec fn day_number(d: CivilDate) -> int {
    year_start(d.year as int) + days_before_month(d.year as int, d.month as int) + d.day - 1
}

/// Does `a` come before `b` by year, month and day?
pub open spec fn date_before(a: CivilDate, b: CivilDate) -> bool {
    a.year < b.year || a.year == b.year && (a.month < b.month || a.month == b.month && a.day
        < b.day)
}

/// A year has 365 days, a leap year one more.
proof fn lemma_year_len(y: int)
    ensures
        year_start(y + 1) == year_start(y) + days_before_month(y, 13),
        days_before_month(y, 13) == if is_leap(y) {
            366int
        } else {
            365int
        },
{
    assert(days_before_month(y, 1) == 0);
    assert(days_before_month(y, 2) == 31);
    assert(days_before_month(y, 3) == 31 + month_len(y, 2));
    assert(days_before_month(y, 4) == 62 + month_len(y, 2));
    assert(days_before_month(y, 5) == 92 + month_len(y, 2));
    assert(days_before_month(y, 6) == 123 + month_len(y, 2));
    assert(days_before_month(y, 7) == 153 + month_len(y, 2));
    assert(days_before_month(y, 8) == 184 + month_len(y, 2));
    assert(days_before_month(y, 9) == 215 + month_len(y, 2));
    assert(days_before_month(y, 10) == 245 + month_len(y, 2));
    assert(days_before_month(y, 11) == 276 + month_len(y, 2));
    assert(days_before_month(y, 12) == 306 + month_len(y, 2));
    assert(days_before_month(y, 13) == 337 + month_len(y, 2));
    lemma_step(y, 4);
    lemma_step(y, 100);
    lemma_step(y, 400);
    assert(y % 400 == 0 ==> y % 100 == 0) by (nonlinear_arith);
    assert(y % 100 == 0 ==> y % 4 == 0) by (nonlinear_arith);
}

/// A quotient grows by one at every multiple of the divisor.
proof fn lemma_step(y: int, k: int)
    requires
        k == 4 || k == 100 || k == 400,
    ensures
        y / k - (y - 1) / k == if y % k == 0 {
            1int
        } else {
            0int
        },
{
}

/// Later years start later.
proof fn lemma_years_grow(a: int, b: int)
    requires
        a <= b,
    ensures
        year_start(a) <= year_start(b),
    decreases b - a,
{
    if a < b {
        lemma_year_len(b - 1);
        lemma_years_grow(a, b - 1);
    }
}

/// Later months begin later.
proof fn lemma_months_grow(y: int, a: int, b: int)
    requires
        1 <= a <= b <= 13,
    ensures
        days_before_month(y, a) <= days_before_month(y, b),
        a < b ==> days_before_month(y, a) + month_len(y, a) <= days_before_month(y, b),
    decreases b - a,
{
    if a < b {
        lemma_months_grow(y, a, b - 1);
    }
}

/// The numbers of the days are in the order of the dates.
pub proof fn days_are_numbered_in_order(a: CivilDate, b: CivilDate)
    requires
        valid_date(a),
        valid_date(b),
    ensures
        day_number(a) < day_number(b) <==> date_before(a, b),
        day_number(a) == day_number(b) <==> a == b,
{
    lemma_order_of_days(a, b);
    lemma_order_of_days(b, a);
}

/// No day of the calendar comes before the first one.
pub proof fn first_day_is_first()
    ensures
        day_number((CivilDate { year: MIN_YEAR, month: 1, day: 1 })) == MIN_DAY,
{
    assert(days_before_month(MIN_YEAR as int, 1) == 0);
}

proof fn lemma_order_of_days(a: CivilDate, b: CivilDate)
    requires
        valid_date(a),
        valid_date(b),
    ensures
        date_before(a, b) ==> day_number(a) < day_number(b),
{
    let (ya, yb) = (a.year as int, b.year as int);
    if ya < yb {
        lemma_months_grow(ya, a.month as int, 13);
        lemma_year_len(ya);
        lemma_years_grow(ya + 1, yb);
        lemma_months_grow(yb, 1, b.month as int);
    } else if ya == yb && a.month < b.month {
        lemma_months_grow(ya, a.month as int, b.month as int);
    }
}

/// The day `n` days before another.
pub open spec fn days_back(d: CivilDate, n: int) -> CivilDate {
    choose|e: CivilDate| valid_date(e) && day_number(e) == day_number(d) - n
}

/// Calls `NaiveDate - Duration::days(n)` of chrono. It is claimed that this
/// is the day that is `n` days earlier in the calendar. The subtraction
/// panics where there is no such day, which the precondition leaves out.
#[verifier::external_body]
fn subtract_days(d: CivilDate, n: i64) -> (r: CivilDate)
    requires
        valid_date(d),
        0 <= n,
        day_number(d) - n >= MIN_DAY,
    ensures
        valid_date(r),
        day_number(r) == day_number(d) - n,
{
    let date = chrono::NaiveDate::from_ymd_opt(d.year, d.month, d.day).unwrap();
    let e = date - chrono::Duration::days(n);
    CivilDate { year: e.year(), month: e.month(), day: e.day() }
}

/// The day `n` days before another.
pub fn day_before(d: CivilDate, n: i64) -> (r: CivilDate)
    requires
        valid_date(d),
        0 <= n,
        day_number(d) - n >= MIN_DAY,
    ensures
        r == days_back(d, n as int),
        valid_date(r),
        day_number(r) == day_number(d) - n,
{
    let r = subtract_days(d, n);
    proof {
        let e = days_back(d, n as int);
        assert(valid_date(e) && day_number(e) == day_number(d) - n);
        days_are_numbered_in_order(r, e);
    }
    r
}

/// The same day `n` months earlier, or the last day of that month where the
/// month is shorter; nothing before the first year.
pub open spec fn months_back(d: CivilDate, n: int) -> Option<CivilDate> {
    let total = d.year * 12 + d.month - 1 - n;
    let year = total / 12;
    let month = total % 12 + 1;
    if year < MIN_YEAR {
        None
    } else {
        Some(
            CivilDate {
                year: year as i32,
                month: month as u32,
                day: if d.day <= month_len(year, month) {
                    d.day
                } else {
                    month_len(year, month) as u32
                },
            },
        )
    }
}

/// Calls `NaiveDate::checked_sub_months` of chrono. It is claimed that this
/// counts the months back, keeps the day where the month has it and takes the
/// month's last day otherwise, and gives nothing where the year is out of
/// range.
#[verifier::external_body]
pub(crate) fn subtract_months(d: CivilDate, n: u32) -> (r: Option<CivilDate>)
    requires
        valid_date(d),
    ensures
        r == months_back(d, n as int),
{
    let date = chrono::NaiveDate::from_ymd_opt(d.year, d.month, d.day).unwrap();
    date.checked_sub_months(chrono::Months::new(n)).map(
        |e| CivilDate { year: e.year(), month: e.month(), day: e.day() },
    )
}

/// Counting months back leads to a day of the calendar.
pub proof fn months_back_is_a_date(d: CivilDate, n: int)
    requires
        valid_date(d),
        0 <= n,
    ensures
        months_back(d, n) matches Some(e) ==> valid_date(e) && e.day <= d.day,
{
    let total = d.year * 12 + d.month - 1 - n;
    assert(total / 12 <= d.year);
}

// ---------------------------------------------------------------------
// Weekdays
// ---------------------------------------------------------------------
/// A day of the week.
#[derive(Debug, Clone, Copy, PartialEq, Eq, Structural)]
pub enum Weekday {
    Mon,
    Tue,
    Wed,
    Thu,
    Fri,
    Sat,
    Sun,
}

/// The weekday with this number, Monday being zero.
pub open spec fn weekday_at(n: int) -> Weekday {
    if n == 0 {
        Weekday::Mon
    } else if n == 1 {
        Weekday::Tue
    } else if n == 2 {
        Weekday::Wed
    } else if n == 3 {
        Weekday::Thu
    } else if n == 4 {
        Weekday::Fri
    } else if n == 5 {
        Weekday::Sat
    } else {
        Weekday::Sun
    }
}

/// The number of a weekday, Monday being zero.
pub open spec fn weekday_number(w: Weekday) -> int {
    match w {
        Weekday::Mon => 0,
        Weekday::Tue => 1,
        Weekday::Wed => 2,
        Weekday::Thu => 3,
        Weekday::Fri => 4,
        Weekday::Sat => 5,
        Weekday::Sun => 6,
    }
}

/// The weekday of a day. The first of January 1970 was a Thursday.
pub open spec fn weekday_of(d: CivilDate) -> Weekday {
    weekday_at((day_number(d) + 3) % 7)
}

/// Calls `NaiveDate::weekday` of chrono. It is claimed that the days of the
/// week follow each other in the calendar, from a Thursday on the first of
/// January 1970.
#[verifier::external_body]
pub(crate) fn read_weekday(d: CivilDate) -> (r: Weekday)
    requires
        valid_date(d),
    ensures
        r == weekday_of(d),
{
    match chrono::NaiveDate::from_ymd_opt(d.year, d.month, d.day).unwrap().weekday() {
        chrono::Weekday::Mon => Weekday::Mon,
        chrono::Weekday::Tue => Weekday::Tue,
        chrono::Weekday::Wed => Weekday::Wed,
        chrono::Weekday::Thu => Weekday::Thu,
        chrono::Weekday::Fri => Weekday::Fri,
        chrono::Weekday::Sat => Weekday::Sat,
        chrono::Weekday::Sun => Weekday::Sun,
    }
}

// ---------------------------------------------------------------------
// Times of day
// ---------------------------------------------------------------------
/// A time as a clock on the wall shows it. A leap second is second 59 with a
/// billion nanoseconds or more.
#[derive(Debug, Clone, Copy, PartialEq, Eq, Structural)]
pub struct CivilTime {
    pub date: CivilDate,
    pub hour: u32,
    pub minute: u32,
    pub second: u32,
    pub nanos: u32,
}

/// Can a clock show this?
pub open spec fn valid_time(c: CivilTime) -> bool {
    &&& valid_date(c.date)
    &&& c.hour < 24
    &&& c.minute < 60
    &&& c.second < 60
    &&& c.nanos < 2_000_000_000
    &&& c.nanos >= 1_000_000_000 ==> c.second == 59
}

/// The seconds from the beginning of 1970 that the clock has counted.
pub open spec fn clock_seconds(c: CivilTime) -> int {
    day_number(c.date) * 86400 + c.hour * 3600 + c.minute * 60 + c.second
}

/// The last second of a day.
pub open spec fn end_of_day(d: CivilDate) -> CivilTime {
    CivilTime { date: d, hour: 23, minute: 59, second: 59, nanos: 0 }
}

/// The time of a day after so many seconds of it.
pub open spec fn at_second(d: CivilDate, s: int) -> CivilTime {
    CivilTime {
        date: d,
        hour: (s / 3600) as u32,
        minute: (s % 3600 / 60) as u32,
        second: (s % 60) as u32,
        nanos: 0,
    }
}

/// How many seconds of its day the clock has counted.
pub open spec fn second_of_day(c: CivilTime) -> int {
    c.hour * 3600 + c.minute * 60 + c.second
}

/// What the clock showed `n` seconds before, at most a day; the beginning of
/// the calendar where that does not reach so far.
pub open spec fn clock_back(c: CivilTime, n: int) -> CivilTime {
    if second_of_day(c) >= n {
        at_second(c.date, second_of_day(c) - n)
    } else if day_number(c.date) > MIN_DAY {
        at_second(days_back(c.date, 1), second_of_day(c) + 86400 - n)
    } else {
        at_second(c.date, 0)
    }
}

/// What the clock showed `n` seconds before.
pub fn turn_back(c: CivilTime, n: u32) -> (r: CivilTime)
    requires
        valid_time(c),
        n <= 86400,
    ensures
        r == clock_back(c, n as int),
        valid_time(r),
        day_number(c.date) > MIN_DAY ==> clock_seconds(r) == clock_seconds(c) - n,
{
    let s: u32 = c.hour * 3600 + c.minute * 60 + c.second;
    let first = CivilDate { year: MIN_YEAR, month: 1, day: 1 };
    proof {
        first_day_is_first();
        days_are_numbered_in_order(c.date, first);
    }
    let (date, left): (CivilDate, u32) = if s >= n {
        (c.date, s - n)
    } else if c.date.year != MIN_YEAR || c.date.month != 1 || c.date.day != 1 {
        proof {
            days_are_numbered_in_order(first, c.date);
        }
        (day_before(c.date, 1), s + 86400 - n)
    } else {
        (c.date, 0)
    };
    CivilTime {
        date,
        hour: left / 3600,
        minute: left % 3600 / 60,
        second: left % 60,
        nanos: 0,
    }
}

// ---------------------------------------------------------------------
// Instants
// ---------------------------------------------------------------------
/// An instant: seconds since the beginning of 1970 in universal time, and
/// nanoseconds within the second.
#[derive(Debug, Clone, Copy, PartialEq, Eq, Structural)]
pub struct Moment {
    pub secs: i64,
    pub nanos: u32,
}

/// Is `a` before `b`?
pub open spec fn earlier(a: Moment, b: Moment) -> bool {
    a.secs < b.secs || a.secs == b.secs && a.nanos < b.nanos
}

/// Is `a` before `b`?
pub fn is_earlier(a: Moment, b: Moment) -> (r: bool)
    ensures
        r == earlier(a, b),
{
    a.secs < b.secs || (a.secs == b.secs && a.nanos < b.nanos)
}

/// Can the instant `m` be what a clock in some time zone shows as `c`? A zone
/// is less than a day ahead of universal time or behind it.
pub open spec fn is_shown_as(m: Moment, c: CivilTime) -> bool {
    m.nanos == c.nanos && -86400 < m.secs - clock_seconds(c) < 86400
}

/// An instant with what the local clock shows.
#[derive(Debug, Clone, Copy)]
pub struct LocalTime {
    pub moment: Moment,
    pub civil: CivilTime,
}

/// Is this a time that a clock can show, with a possible instant?
pub open spec fn valid_local(t: LocalTime) -> bool {
    &&& valid_time(t.civil)
    &&& t.civil.nanos < 1_000_000_000
    &&& is_shown_as(t.moment, t.civil)
    &&& MIN_SECS <= t.moment.secs <= MAX_SECS
}

/// Calls `Local::now` of chrono. Which time it is and which zone the machine
/// is in is left open; it is claimed that the clock shows a valid time,
/// without a leap second, less than a day away from universal time.
#[verifier::external_body]
pub(crate) fn local_now() -> (r: LocalTime)
    ensures
        valid_local(r),
{
    let t = chrono::Local::now();
    LocalTime {
        moment: Moment { secs: t.timestamp(), nanos: t.timestamp_subsec_nanos() },
        civil: CivilTime {
            date: CivilDate { year: t.year(), month: t.month(), day: t.day() },
            hour: t.hour(),
            minute: t.minute(),
            second: t.second(),
            nanos: t.nanosecond(),
        },
    }
}

/// Calls `NaiveDateTime::and_local_timezone(Local).single()` of chrono: the
/// instant at which the local clock shows `c`, if there is exactly one. Which
/// instant that is, and whether there is one, rests on the machine's time
/// zone and is left open. It is claimed that the instant is less than a day
/// away from what universal time makes of `c`.
#[verifier::external_body]
pub(crate) fn local_moment(c: CivilTime) -> (r: Option<Moment>)
    requires
        valid_time(c),
    ensures
        r matches Some(m) ==> is_shown_as(m, c),
{
    let date = chrono::NaiveDate::from_ymd_opt(c.date.year, c.date.month, c.date.day).unwrap();
    let naive = date.and_hms_nano_opt(c.hour, c.minute, c.second, c.nanos).unwrap();
    naive.and_local_timezone(chrono::Local).single().map(
        |t| Moment { secs: t.timestamp(), nanos: t.timestamp_subsec_nanos() },
    )
}

// ---------------------------------------------------------------------
// Text form
// ---------------------------------------------------------------------
/// Two digits.
pub open spec fn two_digits(n: int) -> Seq<char> {
    seq![digit_char(n / 10), digit_char(n % 10)]
}

/// Four digits.
pub open spec fn four_digits(n: int) -> Seq<char> {
    two_digits(n / 100) + two_digits(n % 100)
}

/// A year: four digits, or a sign and at least four digits where four do not
/// suffice.
pub open spec fn year_text(y: int) -> Seq<char> {
    if 0 <= y <= 9999 {
        four_digits(y)
    } else if y > 9999 {
        seq!['+'] + nat_text(y as nat)
    } else if y >= -9999 {
        seq!['-'] + four_digits(-y)
    } else {
        seq!['-'] + nat_text((-y) as nat)
    }
}

/// A date as text.
pub open spec fn date_text(d: CivilDate) -> Seq<char> {
    year_text(d.year as int) + seq!['-'] + two_digits(d.month as int) + seq!['-'] + two_digits(
        d.day as int,
    )
}

/// The second that the text form shows: 60 in a leap second.
pub open spec fn shown_second(c: CivilTime) -> int {
    if c.nanos >= 1_000_000_000 {
        c.second + 1
    } else {
        c.second as int
    }
}

/// A time as text: the name of a snapshot taken then.
pub open spec fn snapshot_name(c: CivilTime) -> Seq<char> {
    date_text(c.date) + seq!['T'] + two_digits(c.hour as int) + seq!['-'] + two_digits(
        c.minute as int,
    ) + seq!['-'] + two_digits(shown_second(c))
}

/// Calls `NaiveDateTime::format` of chrono with the form of snapshot names.
/// It is claimed that this writes the fields in that form.
#[verifier::external_body]
fn format_time(c: CivilTime, fmt: &str) -> (r: String)
    requires
        valid_time(c),
        fmt@ == SNAPSHOT_FMT@,
    ensures
        r@ == snapshot_name(c),
{
    let date = chrono::NaiveDate::from_ymd_opt(c.date.year, c.date.month, c.date.day).unwrap();
    let naive = date.and_hms_nano_opt(c.hour, c.minute, c.second, c.nanos).unwrap();
    naive.format(fmt).to_string()
}

/// Is this one of the characters of a date or a time in text form, or white
/// space? No letter is, but the one between date and time.
pub open spec fn is_time_char(c: char) -> bool {
    '0' <= c <= '9' || c == '+' || c == '-' || c == 'T' || crate::text::is_white(c)
}

/// Does the text consist of characters of a time in text form?
pub open spec fn is_time_like(s: Seq<char>) -> bool {
    forall|i: int| 0 <= i < s.len() ==> is_time_char(#[trigger] s[i])
}

/// The time that a text in the form `fmt` writes, as
/// `NaiveDateTime::parse_from_str` of chrono reads it.
pub uninterp spec fn parsed_time(text: Seq<char>, fmt: Seq<char>) -> Option<CivilTime>;

/// Calls `NaiveDateTime::parse_from_str` of chrono with the form of snapshot
/// names. It is claimed that the result depends on the two texts alone, that
/// the name of a time without a fraction of a second is read as that time,
/// and that what is read is a valid time without such a fraction, from a text
/// with the letter between date and time and no other letter. Which other
/// texts are read (single digits, white space before a number) is left to the
/// name.
#[verifier::external_body]
pub(crate) fn parse_time(text: &str, fmt: &str) -> (r: Option<CivilTime>)
    requires
        fmt@ == SNAPSHOT_FMT@,
    ensures
        r == parsed_time(text@, fmt@),
        forall|c: CivilTime|
            valid_time(c) && c.nanos % 1_000_000_000 == 0 && text@ == #[trigger] snapshot_name(c)
                ==> r == Some(c),
        r matches Some(c) ==> valid_time(c) && c.nanos % 1_000_000_000 == 0 && is_time_like(text@)
            && text@.contains('T'),
{
    let t = chrono::NaiveDateTime::parse_from_str(text, fmt).ok()?;
    Some(
        CivilTime {
            date: CivilDate { year: t.year(), month: t.month(), day: t.day() },
            hour: t.hour(),
            minute: t.minute(),
            second: t.second(),
            nanos: t.nanosecond(),
        },
    )
}

/// The day that a text in the form `fmt` writes, as
/// `NaiveDate::parse_from_str` of chrono reads it.
pub uninterp spec fn parsed_date(text: Seq<char>, fmt: Seq<char>) -> Option<CivilDate>;

/// Calls `NaiveDate::parse_from_str` of chrono with the form of a date. It is
/// claimed that the result depends on the two texts alone, that the text of a
/// day is read as that day, and that what is read is a day of the calendar,
/// from a text without letters. Which other texts are read is left to the
/// name.
#[verifier::external_body]
pub(crate) fn parse_date(text: &str, fmt: &str) -> (r: Option<CivilDate>)
    requires
        fmt@ == DATE_FMT@,
    ensures
        r == parsed_date(text@, fmt@),
        forall|d: CivilDate|
            valid_date(d) && text@ == #[trigger] date_text(d) ==> r == Some(d),
        r matches Some(d) ==> valid_date(d) && is_time_like(text@) && !text@.contains('T'),
{
    let d = chrono::NaiveDate::parse_from_str(text, fmt).ok()?;
    Some(CivilDate { year: d.year(), month: d.month(), day: d.day() })
}

/// The name of a snapshot taken when the clock showed this.
pub fn name_of_time(c: CivilTime) -> (r: String)
    requires
        valid_time(c),
    ensures
        r@ == snapshot_name(c),
{
    format_time(c, SNAPSHOT_FMT)
}

/// The name of a snapshot taken at a time.
pub fn format_snapshot_name(t: &LocalTime) -> (r: String)
    requires
        valid_local(*t),
    ensures
        r@ == snapshot_name(t.civil),
{
    name_of_time(t.civil)
}

/// The current time, in the form of a snapshot's name. Event times use the
/// same form, so that they can be compared with names as texts.
pub fn now_ts() -> (r: String)
    ensures
        exists|c: CivilTime|
            #![trigger snapshot_name(c)]
            valid_time(c) && c.nanos < 1_000_000_000 && r@ == snapshot_name(c),
{
    let t = local_now();
    format_snapshot_name(&t)
}

// ---------------------------------------------------------------------
// Laws
// ---------------------------------------------------------------------
/// Does the clock show `a` in an earlier second than `b`?
pub open spec fn shown_before(a: CivilTime, b: CivilTime) -> bool {
    ||| date_before(a.date, b.date)
    ||| a.date == b.date && (a.hour < b.hour || a.hour == b.hour && (a.minute < b.minute
        || a.minute == b.minute && shown_second(a) < shown_second(b)))
}

/// Texts of the same length are ordered by their first parts, and where these
/// are the same by the rest.
proof fn lemma_lex_parts(p: Seq<char>, q: Seq<char>, a: Seq<char>, b: Seq<char>)
    requires
        p.len() == q.len(),
    ensures
        lex_lt(p + a, q + b) == (lex_lt(p, q) || p == q && lex_lt(a, b)),
    decreases p.len(),
{
    if p.len() == 0 {
        assert(p + a =~= a);
        assert(q + b =~= b);
        assert(p =~= q);
    } else {
        assert((p + a).drop_first() =~= p.drop_first() + a);
        assert((q + b).drop_first() =~= q.drop_first() + b);
        lemma_lex_parts(p.drop_first(), q.drop_first(), a, b);
        if p[0] == q[0] {
            assert(p == q <==> p.drop_first() == q.drop_first()) by {
                if p.drop_first() == q.drop_first() {
                    assert(p =~= seq![p[0]] + p.drop_first());
                    assert(q =~= seq![q[0]] + q.drop_first());
                }
            }
        }
    }
}

/// The order of one character.
proof fn lemma_lex_one(a: char, b: char)
    ensures
        lex_lt(seq![a], seq![b]) == (a < b),
{
    assert(seq![a].drop_first() =~= Seq::<char>::empty());
    assert(seq![b].drop_first() =~= Seq::<char>::empty());
    assert(!lex_lt(Seq::<char>::empty(), Seq::<char>::empty()));
}

/// Two digits are ordered like the numbers.
proof fn lemma_two_digits(m: int, n: int)
    requires
        0 <= m < 100,
        0 <= n < 100,
    ensures
        lex_lt(two_digits(m), two_digits(n)) == (m < n),
        two_digits(m) == two_digits(n) <==> m == n,
{
    let (a, b) = (digit_char(m / 10), digit_char(m % 10));
    let (c, d) = (digit_char(n / 10), digit_char(n % 10));
    assert(two_digits(m) =~= seq![a] + seq![b]);
    assert(two_digits(n) =~= seq![c] + seq![d]);
    lemma_lex_parts(seq![a], seq![c], seq![b], seq![d]);
    lemma_lex_one(a, c);
    lemma_lex_one(b, d);
    assert(seq![a] == seq![c] <==> a == c) by {
        assert(seq![a][0] == a && seq![c][0] == c);
    }
    if two_digits(m) == two_digits(n) {
        assert(two_digits(m)[0] == two_digits(n)[0]);
        assert(two_digits(m)[1] == two_digits(n)[1]);
    }
}

/// Four digits are ordered like the numbers.
proof fn lemma_four_digits(m: int, n: int)
    requires
        0 <= m < 10000,
        0 <= n < 10000,
    ensures
        lex_lt(four_digits(m), four_digits(n)) == (m < n),
        four_digits(m) == four_digits(n) <==> m == n,
{
    lemma_two_digits(m / 100, n / 100);
    lemma_two_digits(m % 100, n % 100);
    lemma_lex_parts(
        two_digits(m / 100),
        two_digits(n / 100),
        two_digits(m % 100),
        two_digits(n % 100),
    );
    if four_digits(m) == four_digits(n) {
        assert(four_digits(m).take(2) =~= two_digits(m / 100));
        assert(four_digits(n).take(2) =~= two_digits(n / 100));
        assert(four_digits(m).skip(2) =~= two_digits(m % 100));
        assert(four_digits(n).skip(2) =~= two_digits(n % 100));
    }
}

/// A separator and two digits behind texts of the same length order the texts
/// by the number where what is before is the same.
proof fn lemma_next_field(p: Seq<char>, q: Seq<char>, sep: char, m: int, n: int)
    requires
        p.len() == q.len(),
        0 <= m < 100,
        0 <= n < 100,
    ensures
        lex_lt(p + seq![sep] + two_digits(m), q + seq![sep] + two_digits(n)) == (lex_lt(p, q) || p
            == q && m < n),
        p + seq![sep] + two_digits(m) == q + seq![sep] + two_digits(n) <==> p == q && m == n,
{
    let s = seq![sep];
    lemma_lex_parts(p, q, s, s);
    lex_total(s, s);
    lemma_lex_parts(p + s, q + s, two_digits(m), two_digits(n));
    lemma_two_digits(m, n);
    assert(p + s == q + s <==> p == q) by {
        assert((p + s).take(p.len() as int) =~= p);
        assert((q + s).take(q.len() as int) =~= q);
    }
    let x = p + s + two_digits(m);
    let y = q + s + two_digits(n);
    if x == y {
        assert(x.take(p.len() as int) =~= p);
        assert(y.take(q.len() as int) =~= q);
        assert(x.skip(p.len() as int + 1) =~= two_digits(m));
        assert(y.skip(q.len() as int + 1) =~= two_digits(n));
    }
}

/// Snapshot names sort like the times they name: for years of four digits the
/// order of the texts is the order of what the clock showed, and two names
/// are the same exactly if the clock showed the same second.
pub proof fn names_sort_like_times(a: CivilTime, b: CivilTime)
    requires
        valid_time(a),
        valid_time(b),
        0 <= a.date.year <= 9999,
        0 <= b.date.year <= 9999,
    ensures
        lex_lt(snapshot_name(a), snapshot_name(b)) <==> shown_before(a, b),
        snapshot_name(a) == snapshot_name(b) <==> a.date == b.date && a.hour == b.hour && a.minute
            == b.minute && shown_second(a) == shown_second(b),
{
    let (ya, yb) = (four_digits(a.date.year as int), four_digits(b.date.year as int));
    lemma_four_digits(a.date.year as int, b.date.year as int);
    let ma = ya + seq!['-'] + two_digits(a.date.month as int);
    let mb = yb + seq!['-'] + two_digits(b.date.month as int);
    lemma_next_field(ya, yb, '-', a.date.month as int, b.date.month as int);
    let da = ma + seq!['-'] + two_digits(a.date.day as int);
    let db = mb + seq!['-'] + two_digits(b.date.day as int);
    lemma_next_field(ma, mb, '-', a.date.day as int, b.date.day as int);
    let ha = da + seq!['T'] + two_digits(a.hour as int);
    let hb = db + seq!['T'] + two_digits(b.hour as int);
    lemma_next_field(da, db, 'T', a.hour as int, b.hour as int);
    let na = ha + seq!['-'] + two_digits(a.minute as int);
    let nb = hb + seq!['-'] + two_digits(b.minute as int);
    lemma_next_field(ha, hb, '-', a.minute as int, b.minute as int);
    lemma_next_field(na, nb, '-', shown_second(a), shown_second(b));
}

/// Every day but the first has a day before it.
proof fn lemma_day_before(d: CivilDate) -> (e: CivilDate)
    requires
        valid_date(d),
        day_number(d) > MIN_DAY,
    ensures
        valid_date(e),
        day_number(e) == day_number(d) - 1,
{
    let y = d.year as int;
    let m = d.month as int;
    if d.day > 1 {
        CivilDate { day: (d.day - 1) as u32, ..d }
    } else if m > 1 {
        CivilDate { year: d.year, month: (m - 1) as u32, day: month_len(y, m - 1) as u32 }
    } else {
        first_day_is_first();
        if y == MIN_YEAR {
            assert(d == (CivilDate { year: MIN_YEAR, month: 1, day: 1 }));
        }
        lemma_year_len(y - 1);
        let e = CivilDate { year: (y - 1) as i32, month: 12, day: 31 };
        assert(days_before_month(y - 1, 13) == days_before_month(y - 1, 12) + 31);
        e
    }
}

/// Counting days back leads to the day that has so many days between it and
/// the other.
pub proof fn days_back_is_so_many_days_before(d: CivilDate, n: nat)
    requires
        valid_date(d),
        day_number(d) - n >= MIN_DAY,
    ensures
        valid_date(days_back(d, n as int)),
        day_number(days_back(d, n as int)) == day_number(d) - n,
    decreases n,
{
    if n == 0 {
        assert(valid_date(d) && day_number(d) == day_number(d) - 0);
    } else {
        days_back_is_so_many_days_before(d, (n - 1) as nat);
        let e = lemma_day_before(days_back(d, n - 1));
        assert(valid_date(e) && day_number(e) == day_number(d) - n);
    }
}

/// The day of the next number is the next day of the month, or the first of
/// the next month, or the first of the next year; months have the lengths that
/// they have, and February one day more in a leap year.
pub proof fn days_follow_each_other(d: CivilDate)
    requires
        valid_date(d),
    ensures
        d.day < month_len(d.year as int, d.month as int) ==> day_number(d) + 1 == day_number(
            (CivilDate { day: (d.day + 1) as u32, ..d }),
        ),
        d.day == month_len(d.year as int, d.month as int) && d.month < 12 ==> day_number(d) + 1
            == day_number((CivilDate { year: d.year, month: (d.month + 1) as u32, day: 1 })),
        d.day == 31 && d.month == 12 && d.year < MAX_YEAR ==> day_number(d) + 1 == day_number(
            (CivilDate { year: (d.year + 1) as i32, month: 1, day: 1 }),
        ),
        (d.month == 4 || d.month == 6 || d.month == 9 || d.month == 11) ==> d.day <= 30,
        d.month == 2 ==> d.day <= 29,
        d.month == 2 && d.day == 29 ==> d.year % 4 == 0,
        d.month == 2 && d.day == 29 && d.year % 100 == 0 ==> d.year % 400 == 0,
{
    let y = d.year as int;
    if d.month == 12 {
        lemma_year_len(y);
        assert(days_before_month(y, 13) == days_before_month(y, 12) + 31);
    }
}

/// Counting months back changes the count of months by so many, and keeps the
/// day as far as the month has it.
pub proof fn months_back_is_so_many_months_before(d: CivilDate, n: nat)
    requires
        valid_date(d),
    ensures
        match months_back(d, n as int) {
            Some(e) => {
                &&& valid_date(e)
                &&& e.year * 12 + e.month == d.year * 12 + d.month - n
                &&& e.day <= d.day
                &&& e.day < d.day ==> e.day == month_len(e.year as int, e.month as int)
            },
            None => d.year * 12 + d.month - n <= MIN_YEAR * 12,
        },
{
    months_back_is_a_date(d, n as int);
    let total = d.year * 12 + d.month - 1 - n;
    assert(total == total / 12 * 12 + total % 12);
}

/// The days of the week follow each other, and come again after seven days.
pub proof fn weekdays_follow_each_other(a: CivilDate, b: CivilDate)
    ensures
        (weekday_number(weekday_of(b)) - weekday_number(weekday_of(a)) - (day_number(b) - day_number(
            a,
        ))) % 7 == 0,
        weekday_of(a) == weekday_of(b) <==> (day_number(b) - day_number(a)) % 7 == 0,
{
    lemma_weekday_numbers(day_number(a));
    lemma_weekday_numbers(day_number(b));
    lemma_sevens(day_number(a), day_number(b));
}

/// The number of the weekday with a number is that number.
proof fn lemma_weekday_numbers(n: int)
    ensures
        weekday_number(weekday_at((n + 3) % 7)) == (n + 3) % 7,
{
}

proof fn lemma_sevens(m: int, n: int)
    ensures
        ((n + 3) % 7 - (m + 3) % 7 - (n - m)) % 7 == 0,
        (m + 3) % 7 == (n + 3) % 7 <==> (n - m) % 7 == 0,
{
}

/// The end of a day is its last second: the next one is the first of the next
/// day.
pub proof fn the_end_of_a_day_is_its_last_second(d: CivilDate)
    requires
        valid_date(d),
    ensures
        valid_time(end_of_day(d)),
        end_of_day(d).date == d,
        clock_seconds(end_of_day(d)) + 1 == (day_number(d) + 1) * 86400,
        end_of_day(d).nanos == 0,
{
}

/// What the clock counts are the seconds of the day, in hours of sixty minutes
/// of sixty seconds.
pub proof fn a_day_has_its_seconds(c: CivilTime)
    requires
        valid_time(c),
    ensures
        0 <= second_of_day(c) < 24 * 60 * 60,
        clock_seconds(c) == day_number(c.date) * (24 * 60 * 60) + second_of_day(c),
        second_of_day(c) / 3600 == c.hour,
        second_of_day(c) / 60 % 60 == c.minute,
        second_of_day(c) % 60 == c.second,
{
}

/// The months have the lengths that they have.
pub proof fn months_have_their_lengths(d: CivilDate)
    requires
        MIN_YEAR <= d.year <= MAX_YEAR,
    ensures
        valid_date(d) <==> 1 <= d.day && {
            ||| (d.month == 1 || d.month == 3 || d.month == 5 || d.month == 7 || d.month == 8
                || d.month == 10 || d.month == 12) && d.day <= 31
            ||| (d.month == 4 || d.month == 6 || d.month == 9 || d.month == 11) && d.day <= 30
            ||| d.month == 2 && d.day <= 28
            ||| d.month == 2 && d.day == 29 && d.year % 4 == 0 && d.year % 100 != 0
            ||| d.month == 2 && d.day == 29 && d.year % 400 == 0
        },
{
}

/// The day with the number zero was a Thursday.
pub proof fn the_count_of_days_begins_on_a_thursday(d: CivilDate)
    requires
        day_number(d) == 0,
    ensures
        weekday_of(d) == Weekday::Thu,
{
}

/// Instants are ordered by their seconds, and within a second by its parts;
/// of two instants exactly one is earlier, or they are the same.
pub proof fn instants_are_in_order(a: Moment, b: Moment, c: Moment)
    ensures
        a.secs < b.secs ==> earlier(a, b),
        a.secs == b.secs ==> (earlier(a, b) <==> a.nanos < b.nanos),
        earlier(a, b) && earlier(b, c) ==> earlier(a, c),
        !(earlier(a, b) && earlier(b, a)),
        earlier(a, b) || earlier(b, a) || a == b,
{
}

} // verus!
