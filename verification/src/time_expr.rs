//! Time expressions: what `yesterday`, `3-days-ago` or `2026-08-01` means, and
//! which snapshot it leads to.
use crate::calendar::{
    day_before, day_number, days_are_numbered_in_order, days_back, end_of_day, is_earlier,
    is_shown_as, is_time_char, is_time_like, local_moment, local_now, months_back,
    months_back_is_a_date, parse_date, parse_time, parsed_date, parsed_time, read_weekday,
    subtract_months, valid_date, valid_local, valid_time, weekday_at, weekday_number, weekday_of,
    CivilDate, CivilTime, LocalTime, Moment, Weekday, DATE_FMT, MIN_DAY, MIN_SECS,
};
use crate::calendar::{date_text, earlier, snapshot_name};
use crate::number::{is_digit, parse_i64, text_int};
use crate::path::{join_path, joined_path};
use crate::text::{
    begins_with, chars_of, ends_with, opt_text, part_stands_at, same_text, starts_with, string_of,
};
use vstd::prelude::*;

pub use crate::calendar::{format_snapshot_name, SNAPSHOT_FMT};

verus! {

// ---------------------------------------------------------------------
// Words
// ---------------------------------------------------------------------
/// A letter of the ASCII alphabet in lower case; any other character as it
/// is.
pub open spec fn lower_char(c: char) -> char {
    if 'A' <= c <= 'Z' {
        (c as int + 32) as char
    } else {
        c
    }
}

/// A text with its ASCII letters in lower case.
pub open spec fn lowered(s: Seq<char>) -> Seq<char> {
    s.map_values(|c: char| lower_char(c))
}

/// The weekday of a name in lower case.
pub open spec fn weekday_named(s: Seq<char>) -> Option<Weekday> {
    if s == "mon"@ || s == "monday"@ {
        Some(Weekday::Mon)
    } else if s == "tue"@ || s == "tues"@ || s == "tuesday"@ {
        Some(Weekday::Tue)
    } else if s == "wed"@ || s == "wednesday"@ {
        Some(Weekday::Wed)
    } else if s == "thu"@ || s == "thur"@ || s == "thursday"@ {
        Some(Weekday::Thu)
    } else if s == "fri"@ || s == "friday"@ {
        Some(Weekday::Fri)
    } else if s == "sat"@ || s == "saturday"@ {
        Some(Weekday::Sat)
    } else if s == "sun"@ || s == "sunday"@ {
        Some(Weekday::Sun)
    } else {
        None
    }
}

fn lower(c: char) -> (r: char)
    ensures
        r == lower_char(c),
{
    if 'A' <= c && c <= 'Z' {
        (c as u8 + 32) as char
    } else {
        c
    }
}

/// The weekday of a name, in any mixture of upper and lower case.
///
/// No letter outside ASCII can be part of a weekday's name, whatever its
/// lower case is.
pub fn weekday_from_str(s: &str) -> (r: Option<Weekday>)
    ensures
        r == weekday_named(lowered(s@)),
{
    let x = chars_of(s);
    let mut name = String::new();
    let mut i: usize = 0;
    while i < x.len()
        invariant
            i <= x@.len(),
            name@ == lowered(x@.take(i as int)),
        decreases x@.len() - i,
    {
        name.push(lower(x[i]));
        assert(lowered(x@.take(i + 1)) =~= lowered(x@.take(i as int)).push(lower_char(x@[i as int])));
        i += 1;
    }
    assert(x@.take(x@.len() as int) =~= x@);
    let n = name.as_str();
    if same_text(n, "mon") || same_text(n, "monday") {
        Some(Weekday::Mon)
    } else if same_text(n, "tue") || same_text(n, "tues") || same_text(n, "tuesday") {
        Some(Weekday::Tue)
    } else if same_text(n, "wed") || same_text(n, "wednesday") {
        Some(Weekday::Wed)
    } else if same_text(n, "thu") || same_text(n, "thur") || same_text(n, "thursday") {
        Some(Weekday::Thu)
    } else if same_text(n, "fri") || same_text(n, "friday") {
        Some(Weekday::Fri)
    } else if same_text(n, "sat") || same_text(n, "saturday") {
        Some(Weekday::Sat)
    } else if same_text(n, "sun") || same_text(n, "sunday") {
        Some(Weekday::Sun)
    } else {
        None
    }
}

/// A unit of time.
#[derive(Debug, Clone, Copy, PartialEq, Eq, Structural)]
pub enum Unit {
    Minute,
    Hour,
    Day,
    Week,
    Month,
}

/// The unit of a name.
pub open spec fn unit_named(s: Seq<char>) -> Option<Unit> {
    if s == "minute"@ || s == "minutes"@ || s == "min"@ || s == "m"@ {
        Some(Unit::Minute)
    } else if s == "hour"@ || s == "hours"@ || s == "hr"@ || s == "h"@ {
        Some(Unit::Hour)
    } else if s == "day"@ || s == "days"@ || s == "d"@ {
        Some(Unit::Day)
    } else if s == "week"@ || s == "weeks"@ || s == "w"@ {
        Some(Unit::Week)
    } else if s == "month"@ || s == "months"@ || s == "mo"@ {
        Some(Unit::Month)
    } else {
        None
    }
}

/// The unit of a name.
pub fn parse_unit(unit: &str) -> (r: Option<Unit>)
    ensures
        r == unit_named(unit@),
{
    if same_text(unit, "minute") || same_text(unit, "minutes") || same_text(unit, "min")
        || same_text(unit, "m") {
        Some(Unit::Minute)
    } else if same_text(unit, "hour") || same_text(unit, "hours") || same_text(unit, "hr")
        || same_text(unit, "h") {
        Some(Unit::Hour)
    } else if same_text(unit, "day") || same_text(unit, "days") || same_text(unit, "d") {
        Some(Unit::Day)
    } else if same_text(unit, "week") || same_text(unit, "weeks") || same_text(unit, "w") {
        Some(Unit::Week)
    } else if same_text(unit, "month") || same_text(unit, "months") || same_text(unit, "mo") {
        Some(Unit::Month)
    } else {
        None
    }
}

// ---------------------------------------------------------------------
// Relative expressions
// ---------------------------------------------------------------------
/// How many characters at the beginning of `s` are not a dash.
pub open spec fn dash_at(s: Seq<char>) -> int
    decreases s.len(),
{
    if s.len() == 0 || s[0] == '-' {
        0
    } else {
        1 + dash_at(s.skip(1))
    }
}

/// How many characters at the beginning of `s` are digits.
pub open spec fn digits_at(s: Seq<char>) -> int
    decreases s.len(),
{
    if s.len() == 0 || !is_digit(s[0]) {
        0
    } else {
        1 + digits_at(s.skip(1))
    }
}

/// The number that a text writes, if it is one of 64 bits.
pub open spec fn count_of(s: Seq<char>) -> Option<int> {
    match text_int(s) {
        Some(v) => if i64::MIN <= v <= i64::MAX {
            Some(v)
        } else {
            None
        },
        None => None,
    }
}

/// A count and a unit, written around position `k`.
pub open spec fn amount(s: Seq<char>, k: int, gap: int) -> Option<(int, Unit)> {
    match (count_of(s.take(k)), unit_named(s.skip(k + gap))) {
        (Some(n), Some(u)) => Some((n, u)),
        _ => None,
    }
}

/// The count and the unit of a text such as `3-days`, or such as `2h`.
pub open spec fn amount_of(head: Seq<char>) -> Option<(int, Unit)> {
    let dash = dash_at(head);
    let digits = digits_at(head);
    if dash < head.len() && amount(head, dash, 1) is Some {
        amount(head, dash, 1)
    } else if digits < head.len() {
        amount(head, digits, 0)
    } else {
        None
    }
}

/// The count and the unit of a relative expression, such as `3-days-ago`.
pub open spec fn relative_amount(expr: Seq<char>) -> Option<(int, Unit)> {
    if ends_with(expr, "-ago"@) {
        amount_of(expr.take(expr.len() - 4))
    } else {
        None
    }
}

/// The runs at the beginning of a text lie within it, and a digit run is made
/// of digits.
proof fn lemma_runs(s: Seq<char>)
    ensures
        0 <= dash_at(s) <= s.len(),
        0 <= digits_at(s) <= s.len(),
        forall|i: int| 0 <= i < dash_at(s) ==> s[i] != '-',
        forall|i: int| 0 <= i < digits_at(s) ==> is_digit(s[i]),
    decreases s.len(),
{
    if s.len() > 0 {
        let tail = s.skip(1);
        lemma_runs(tail);
        assert forall|i: int| 0 <= i < dash_at(s) implies s[i] != '-' by {
            if i > 0 {
                assert(s[i] == tail[i - 1]);
            }
        }
        assert forall|i: int| 0 <= i < digits_at(s) implies is_digit(s[i]) by {
            if i > 0 {
                assert(s[i] == tail[i - 1]);
            }
        }
    }
}

/// A relative expression counts back, never forward.
pub proof fn a_relative_amount_is_not_negative(expr: Seq<char>)
    ensures
        relative_amount(expr) matches Some((n, u)) ==> 0 <= n <= i64::MAX,
{
    if ends_with(expr, "-ago"@) {
        let head = expr.take(expr.len() - 4);
        lemma_runs(head);
        let a = head.take(dash_at(head));
        let b = head.take(digits_at(head));
        if a.len() > 0 {
            assert(a[0] == head[0]);
        }
        if b.len() > 0 {
            assert(b[0] == head[0]);
        }
    }
}

fn find_dash(x: &Vec<char>) -> (r: usize)
    ensures
        r == dash_at(x@),
        r <= x@.len(),
{
    let mut i: usize = 0;
    assert(x@.skip(0) =~= x@);
    while i < x.len() && x[i] != '-'
        invariant
            i <= x@.len(),
            dash_at(x@) == i + dash_at(x@.skip(i as int)),
        decreases x@.len() - i,
    {
        assert(x@.skip(i as int)[0] == x@[i as int]);
        assert(x@.skip(i as int).skip(1) =~= x@.skip(i + 1));
        i += 1;
    }
    assert(i < x@.len() ==> x@.skip(i as int)[0] == x@[i as int]);
    i
}

fn find_non_digit(x: &Vec<char>) -> (r: usize)
    ensures
        r == digits_at(x@),
        r <= x@.len(),
{
    let mut i: usize = 0;
    assert(x@.skip(0) =~= x@);
    while i < x.len() && '0' <= x[i] && x[i] <= '9'
        invariant
            i <= x@.len(),
            digits_at(x@) == i + digits_at(x@.skip(i as int)),
        decreases x@.len() - i,
    {
        assert(x@.skip(i as int)[0] == x@[i as int]);
        assert(x@.skip(i as int).skip(1) =~= x@.skip(i + 1));
        i += 1;
    }
    assert(i < x@.len() ==> x@.skip(i as int)[0] == x@[i as int]);
    i
}

fn read_amount(x: &Vec<char>, k: usize, gap: usize) -> (r: Option<(i64, Unit)>)
    requires
        k + gap <= x@.len(),
        gap <= 1,
    ensures
        match r {
            Some((n, u)) => amount(x@, k as int, gap as int) == Some((n as int, u)),
            None => amount(x@, k as int, gap as int) is None,
        },
{
    let len = x.len();
    let num = string_of(x, 0, k);
    let unit = string_of(x, k + gap, len);
    assert(num@ =~= x@.take(k as int));
    assert(unit@ =~= x@.skip(k + gap));
    match (parse_i64(num.as_str()), parse_unit(unit.as_str())) {
        (Some(n), Some(u)) => Some((n, u)),
        _ => None,
    }
}

/// The count and the unit of a relative expression.
pub fn parse_relative(expr: &str) -> (r: Option<(i64, Unit)>)
    ensures
        match r {
            Some((n, u)) => relative_amount(expr@) == Some((n as int, u)) && n >= 0,
            None => relative_amount(expr@) is None,
        },
{
    proof {
        reveal_strlit("-ago");
        a_relative_amount_is_not_negative(expr@);
    }
    let all = chars_of(expr);
    let suffix = chars_of("-ago");
    if all.len() < 4 || !part_stands_at(&all, &suffix, all.len() - 4) {
        return None;
    }
    let head_text = string_of(&all, 0, all.len() - 4);
    let head = chars_of(head_text.as_str());
    assert(head@ =~= expr@.take(expr@.len() - 4));
    let dash = find_dash(&head);
    if dash < head.len() {
        match read_amount(&head, dash, 1) {
            Some(a) => {
                return Some(a);
            },
            None => {},
        }
    }
    let digits = find_non_digit(&head);
    if digits < head.len() {
        read_amount(&head, digits, 0)
    } else {
        None
    }
}

// ---------------------------------------------------------------------
// Readings
// ---------------------------------------------------------------------
/// What a time expression means, before the time zone is asked.
#[derive(Debug, Clone, Copy, PartialEq, Eq, Structural)]
pub enum Reading {
    /// An instant.
    Instant(Moment),
    /// The end of a day.
    DayEnd(CivilDate),
    /// No time expression.
    Nothing,
}

/// How many seconds a unit has. Months are counted on the calendar.
pub open spec fn unit_seconds(u: Unit) -> int {
    match u {
        Unit::Minute => 60,
        Unit::Hour => 3600,
        Unit::Day => 86400,
        Unit::Week => 604800,
        Unit::Month => 0,
    }
}

/// The instant some seconds before.
pub open spec fn seconds_back(m: Moment, n: int) -> Moment {
    Moment { secs: (m.secs - n) as i64, nanos: m.nanos }
}

/// What a count of units back means. Counting months leads to the end of a
/// day, or to nothing where the calendar does not reach that far.
pub open spec fn amount_reading(n: int, u: Unit, now: LocalTime) -> Option<Reading> {
    if u == Unit::Month {
        match months_back(now.civil.date, n) {
            Some(d) => Some(Reading::DayEnd(d)),
            None => None,
        }
    } else {
        Some(Reading::Instant(seconds_back(now.moment, n * unit_seconds(u))))
    }
}

/// What a relative expression means.
pub open spec fn relative_reading(expr: Seq<char>, now: LocalTime) -> Option<Reading> {
    match relative_amount(expr) {
        Some((n, u)) => amount_reading(n, u, now),
        None => None,
    }
}

/// How many days ago the weekday was, not counting today: one to seven.
pub open spec fn days_since(d: CivilDate, w: Weekday) -> int {
    1 + (weekday_number(weekday_of(d)) - weekday_number(w) - 1) % 7
}

/// The weekday that an expression names, with `last-` before it or without.
pub open spec fn weekday_of_expr(expr: Seq<char>) -> Option<Weekday> {
    if starts_with(expr, "last-"@) && weekday_named(lowered(expr.skip(5))) is Some {
        weekday_named(lowered(expr.skip(5)))
    } else {
        weekday_named(lowered(expr))
    }
}

/// The end of the day `n` days ago.
pub open spec fn days_ago(now: LocalTime, n: int) -> Reading {
    Reading::DayEnd(days_back(now.civil.date, n))
}

/// The end of the same day `n` months ago, if the calendar reaches that far.
pub open spec fn months_ago(now: LocalTime, n: int) -> Reading {
    match months_back(now.civil.date, n) {
        Some(d) => Reading::DayEnd(d),
        None => Reading::Nothing,
    }
}

/// What an expression in words means.
pub open spec fn word_reading(expr: Seq<char>, now: LocalTime) -> Reading {
    if expr == "now"@ || expr == "today"@ {
        Reading::Instant(now.moment)
    } else if expr == "yesterday"@ {
        days_ago(now, 1)
    } else if expr == "last-week"@ {
        days_ago(now, 7)
    } else if expr == "last-month"@ {
        months_ago(now, 1)
    } else if expr == "last-year"@ {
        months_ago(now, 12)
    } else {
        match relative_reading(expr, now) {
            Some(r) => r,
            None => match weekday_of_expr(expr) {
                Some(w) => days_ago(now, days_since(now.civil.date, w)),
                None => Reading::Nothing,
            },
        }
    }
}

/// Does the calendar reach as far back as an expression in words asks?
pub open spec fn is_in_reach(expr: Seq<char>, now: LocalTime) -> bool {
    let today = day_number(now.civil.date);
    if expr == "now"@ || expr == "today"@ || expr == "last-month"@ || expr == "last-year"@ {
        true
    } else if expr == "yesterday"@ {
        today - 1 >= MIN_DAY
    } else if expr == "last-week"@ {
        today - 7 >= MIN_DAY
    } else {
        &&& match relative_amount(expr) {
            Some((n, u)) => u == Unit::Month || now.moment.secs - n * unit_seconds(u) >= MIN_SECS,
            None => true,
        }
        &&& relative_reading(expr, now) is None ==> match weekday_of_expr(expr) {
            Some(w) => today - days_since(now.civil.date, w) >= MIN_DAY,
            None => true,
        }
    }
}

/// What an expression means: a date, or words.
pub open spec fn reading_of(expr: Seq<char>, now: LocalTime) -> Reading {
    match parsed_date(expr, DATE_FMT@) {
        Some(d) => Reading::DayEnd(d),
        None => word_reading(expr, now),
    }
}

fn weekday_in(expr: &str) -> (r: Option<Weekday>)
    ensures
        r == weekday_of_expr(expr@),
{
    proof {
        reveal_strlit("last-");
    }
    if begins_with(expr, "last-") {
        let x = chars_of(expr);
        let rest = string_of(&x, 5, x.len());
        assert(rest@ =~= expr@.skip(5));
        let w = weekday_from_str(rest.as_str());
        if w.is_some() {
            return w;
        }
    }
    weekday_from_str(expr)
}

/// How many days ago the weekday was.
fn count_days_since(d: CivilDate, w: Weekday) -> (r: i64)
    requires
        valid_date(d),
    ensures
        r == days_since(d, w),
        1 <= r <= 7,
{
    let today = read_weekday(d);
    proof {
        assert(weekday_number(weekday_at((day_number(d) + 3) % 7)) == (day_number(d) + 3) % 7);
    }
    let a = number_of(today);
    let b = number_of(w);
    // Counted from a week further on, so that the difference is positive.
    let ahead = a - b + 6;
    assert((a - b + 6) % 7 == (a - b - 1) % 7);
    1 + ahead % 7
}

fn number_of(w: Weekday) -> (r: i64)
    ensures
        r == weekday_number(w),
        0 <= r <= 6,
{
    match w {
        Weekday::Mon => 0,
        Weekday::Tue => 1,
        Weekday::Wed => 2,
        Weekday::Thu => 3,
        Weekday::Fri => 4,
        Weekday::Sat => 5,
        Weekday::Sun => 6,
    }
}

/// Counting back to a weekday leads to it.
proof fn lemma_week_back(t: int, w: int)
    requires
        0 <= w < 7,
    ensures
        (t - (1 + (t % 7 - w - 1) % 7)) % 7 == w,
{
}

/// The last day before today that was the weekday: today never counts.
pub fn most_recent_past(weekday: Weekday, today: CivilDate) -> (r: CivilDate)
    requires
        valid_date(today),
        day_number(today) - days_since(today, weekday) >= MIN_DAY,
    ensures
        r == days_back(today, days_since(today, weekday)),
        valid_date(r),
        weekday_of(r) == weekday,
        day_number(today) - 7 <= day_number(r) < day_number(today),
{
    let n = count_days_since(today, weekday);
    let r = day_before(today, n);
    proof {
        let t = day_number(today) + 3;
        let w = weekday_number(weekday);
        assert(weekday_number(weekday_at(t % 7)) == t % 7);
        lemma_week_back(t, w);
        assert(weekday_at(w) == weekday);
    }
    r
}

fn months_reading(now: &LocalTime, n: u32) -> (r: Reading)
    requires
        valid_local(*now),
    ensures
        r == months_ago(*now, n as int),
        r matches Reading::DayEnd(d) ==> valid_date(d),
{
    proof {
        months_back_is_a_date(now.civil.date, n as int);
    }
    match subtract_months(now.civil.date, n) {
        Some(d) => Reading::DayEnd(d),
        None => Reading::Nothing,
    }
}

/// What a count of units back means.
fn read_back(n: i64, u: Unit, now: &LocalTime) -> (r: Option<Reading>)
    requires
        valid_local(*now),
        n >= 0,
        u != Unit::Month ==> now.moment.secs - n * unit_seconds(u) >= MIN_SECS,
    ensures
        r == amount_reading(n as int, u, *now),
        r matches Some(Reading::DayEnd(d)) ==> valid_date(d),
{
    let each: i64 = match u {
        Unit::Minute => 60,
        Unit::Hour => 3600,
        Unit::Day => 86400,
        Unit::Week => 604800,
        Unit::Month => {
            if n > 0xffff_ffff {
                // More months than the calendar has.
                assert(months_back(now.civil.date, n as int) is None);
                return None;
            }
            return match months_reading(now, n as u32) {
                Reading::DayEnd(d) => Some(Reading::DayEnd(d)),
                _ => None,
            };
        },
    };
    proof {
        assert(0 <= n * each <= now.moment.secs - MIN_SECS) by (nonlinear_arith)
            requires
                n >= 0,
                each >= 60,
                now.moment.secs - n * each >= MIN_SECS,
        ;
    }
    Some(
        Reading::Instant(
            Moment { secs: now.moment.secs - n * each, nanos: now.moment.nanos },
        ),
    )
}

/// The fixed words are different words.
proof fn lemma_words_differ()
    ensures
        "yesterday"@ != "last-month"@,
        "yesterday"@ != "last-year"@,
        "yesterday"@ != "last-week"@,
        "last-week"@ != "last-month"@,
        "last-week"@ != "last-year"@,
{
    reveal_strlit("yesterday");
    reveal_strlit("last-week");
    reveal_strlit("last-month");
    reveal_strlit("last-year");
    assert("yesterday"@[0] == 'y' && "last-week"@[0] == 'l' && "last-month"@[0] == 'l'
        && "last-year"@[0] == 'l');
    assert("last-week"@[5] == 'w' && "last-month"@[5] == 'm' && "last-year"@[5] == 'y');
}

/// What an expression in words means.
pub fn read_words(expr: &str, now: &LocalTime) -> (r: Reading)
    requires
        valid_local(*now),
        is_in_reach(expr@, *now),
    ensures
        r == word_reading(expr@, *now),
        r matches Reading::DayEnd(d) ==> valid_date(d),
{
    proof {
        lemma_words_differ();
    }
    let today = now.civil.date;
    if same_text(expr, "now") || same_text(expr, "today") {
        return Reading::Instant(now.moment);
    }
    if same_text(expr, "yesterday") {
        return Reading::DayEnd(day_before(today, 1));
    }
    if same_text(expr, "last-week") {
        return Reading::DayEnd(day_before(today, 7));
    }
    if same_text(expr, "last-month") {
        return months_reading(now, 1);
    }
    if same_text(expr, "last-year") {
        return months_reading(now, 12);
    }
    match parse_relative(expr) {
        Some((n, u)) => {
            match read_back(n, u, now) {
                Some(r) => {
                    return r;
                },
                None => {},
            }
        },
        None => {},
    }
    match weekday_in(expr) {
        Some(w) => Reading::DayEnd(most_recent_past(w, today)),
        None => Reading::Nothing,
    }
}

/// Does the calendar reach as far back as an expression in words asks?
pub fn reaches(expr: &str, now: &LocalTime) -> (r: bool)
    requires
        valid_local(*now),
    ensures
        r == is_in_reach(expr@, *now),
{
    if same_text(expr, "now") || same_text(expr, "today") || same_text(expr, "last-month")
        || same_text(expr, "last-year") {
        return true;
    }
    if same_text(expr, "yesterday") {
        return has_days(now.civil.date, 1);
    }
    if same_text(expr, "last-week") {
        return has_days(now.civil.date, 7);
    }
    let relative = match parse_relative(expr) {
        Some((n, u)) => {
            if !has_seconds(now.moment, n, u) {
                return false;
            }
            read_back(n, u, now).is_some()
        },
        None => false,
    };
    if relative {
        return true;
    }
    match weekday_in(expr) {
        Some(w) => has_days(now.civil.date, count_days_since(now.civil.date, w)),
        None => true,
    }
}

/// Does an instant have so many units before it?
fn has_seconds(m: Moment, n: i64, u: Unit) -> (r: bool)
    requires
        n >= 0,
        m.secs >= MIN_SECS,
    ensures
        r == (u == Unit::Month || m.secs - n * unit_seconds(u) >= MIN_SECS),
{
    let each: i64 = match u {
        Unit::Minute => 60,
        Unit::Hour => 3600,
        Unit::Day => 86400,
        Unit::Week => 604800,
        Unit::Month => {
            return true;
        },
    };
    let room = m.secs as i128 - MIN_SECS as i128;
    let used = n as i128;
    assert(used * each <= 0x7fff_ffff_ffff_ffff * 604800) by (nonlinear_arith)
        requires
            0 <= used <= 0x7fff_ffff_ffff_ffff,
            0 <= each <= 604800,
    ;
    assert(0 <= used * each) by (nonlinear_arith)
        requires
            0 <= used,
            0 <= each,
    ;
    used * each as i128 <= room
}

/// Does a day have so many days before it?
fn has_days(d: CivilDate, n: i64) -> (r: bool)
    requires
        valid_date(d),
        1 <= n <= 7,
    ensures
        r == (day_number(d) - n >= MIN_DAY),
{
    let first = CivilDate { year: crate::calendar::MIN_YEAR, month: 1, day: 1 };
    let limit = CivilDate { year: crate::calendar::MIN_YEAR, month: 1, day: n as u32 };
    proof {
        crate::calendar::first_day_is_first();
        crate::calendar::days_are_numbered_in_order(d, limit);
        crate::calendar::days_are_numbered_in_order(limit, d);
        assert(day_number(limit) == day_number(first) + n - 1);
    }
    !(d.year == limit.year && d.month == 1 && d.day <= limit.day)
}

// ---------------------------------------------------------------------
// Targets
// ---------------------------------------------------------------------
/// The local clock never shows the end of a day that an expression means, or
/// shows it twice.
#[derive(Debug, Clone, Copy, PartialEq, Eq, Structural)]
pub struct NoLocalTime;

/// The target of an expression, once the time zone has been asked: `exact` is
/// the instant of the snapshot name that the expression is, `day_end` that of
/// the end of the day that it means. `Ok(None)` is no time expression.
pub open spec fn conclusion(
    exact: Option<Moment>,
    reading: Reading,
    day_end: Option<Moment>,
) -> Result<Option<Moment>, NoLocalTime> {
    if exact is Some {
        Ok(exact)
    } else {
        match reading {
            Reading::Instant(m) => Ok(Some(m)),
            Reading::DayEnd(_) => match day_end {
                Some(m) => Ok(Some(m)),
                None => Err(NoLocalTime),
            },
            Reading::Nothing => Ok(None),
        }
    }
}

/// The target of an expression, once the time zone has been asked.
pub fn conclude(exact: Option<Moment>, reading: Reading, day_end: Option<Moment>) -> (r: Result<
    Option<Moment>,
    NoLocalTime,
>)
    ensures
        r == conclusion(exact, reading, day_end),
{
    if exact.is_some() {
        return Ok(exact);
    }
    match reading {
        Reading::Instant(m) => Ok(Some(m)),
        Reading::DayEnd(_) => match day_end {
            Some(m) => Ok(Some(m)),
            None => Err(NoLocalTime),
        },
        Reading::Nothing => Ok(None),
    }
}

/// Can `exact` be the instant of an expression that is a snapshot's name?
pub open spec fn is_exact_answer(expr: Seq<char>, exact: Option<Moment>) -> bool {
    match exact {
        Some(m) => match parsed_time(expr, SNAPSHOT_FMT@) {
            Some(c) => is_shown_as(m, c),
            None => false,
        },
        None => true,
    }
}

/// Can `day_end` be the instant of the end of the day that was read?
pub open spec fn is_day_end_answer(reading: Reading, day_end: Option<Moment>) -> bool {
    match (reading, day_end) {
        (Reading::DayEnd(d), Some(m)) => is_shown_as(m, end_of_day(d)),
        _ => true,
    }
}

/// Can `t` be the target of an expression, whatever the time zone answers?
pub open spec fn is_target(
    expr: Seq<char>,
    now: LocalTime,
    t: Result<Option<Moment>, NoLocalTime>,
) -> bool {
    exists|exact: Option<Moment>, day_end: Option<Moment>|
        {
            &&& is_exact_answer(expr, exact)
            &&& is_day_end_answer(reading_of(expr, now), day_end)
            &&& t == #[trigger] conclusion(exact, reading_of(expr, now), day_end)
        }
}

/// What the two readers of times and dates make of an expression: nothing of
/// one with other characters than a time has, the time of a snapshot's name,
/// the day of a date, and never both.
pub open spec fn reads_names(expr: Seq<char>) -> bool {
    &&& !is_time_like(expr) ==> parsed_time(expr, SNAPSHOT_FMT@) is None && parsed_date(
        expr,
        DATE_FMT@,
    ) is None
    &&& parsed_time(expr, SNAPSHOT_FMT@) is None || parsed_date(expr, DATE_FMT@) is None
    &&& forall|c: CivilTime|
        valid_time(c) && c.nanos % 1_000_000_000 == 0 && expr == #[trigger] snapshot_name(c)
            ==> parsed_time(expr, SNAPSHOT_FMT@) == Some(c)
    &&& forall|d: CivilDate|
        valid_date(d) && expr == #[trigger] date_text(d) ==> parsed_date(expr, DATE_FMT@) == Some(d)
}

/// The instant of a snapshot's name, if it is one and the local clock shows
/// that time exactly once.
///
/// The name of a time is read as that time, and it is for that time that the
/// time zone is asked. A text that is no time gives nothing. Whether the local
/// clock shows the time, and at which instant, rests on the machine's time
/// zone and is left open; the zone's answer is given back as it is.
pub fn parse_snapshot_name(name: &str) -> (r: Option<Moment>)
    ensures
        is_exact_answer(name@, r),
        parsed_time(name@, SNAPSHOT_FMT@) matches Some(c) ==> valid_time(c) && is_time_like(name@),
        forall|c: CivilTime|
            valid_time(c) && c.nanos % 1_000_000_000 == 0 && name@ == #[trigger] snapshot_name(c)
                ==> parsed_time(name@, SNAPSHOT_FMT@) == Some(c) && (r matches Some(m)
                ==> is_shown_as(m, c)),
        !is_time_like(name@) ==> r is None,
{
    match parse_time(name, SNAPSHOT_FMT) {
        Some(c) => local_moment(c),
        None => None,
    }
}

/// Reduces a time expression to a target instant. Gives nothing where it is no
/// time expression: it may then be the literal name of a snapshot.
///
/// Which instant a time of the local clock is rests on the machine's time
/// zone; what is said holds whatever the zone answers.
pub fn resolve_target(expr: &str, now: &LocalTime) -> (r: Result<Option<Moment>, NoLocalTime>)
    requires
        valid_local(*now),
        is_in_reach(expr@, *now),
    ensures
        is_target(expr@, *now, r),
        reads_names(expr@),
{
    let parsed = parse_time(expr, SNAPSHOT_FMT);
    let exact = match parsed {
        Some(c) => local_moment(c),
        None => None,
    };
    let reading = match parse_date(expr, DATE_FMT) {
        Some(d) => Reading::DayEnd(d),
        None => read_words(expr, now),
    };
    let day_end = match reading {
        Reading::DayEnd(d) => local_moment(last_second(d)),
        _ => None,
    };
    let r = conclude(exact, reading, day_end);
    assert(reading == reading_of(expr@, *now));
    assert(is_exact_answer(expr@, exact) && is_day_end_answer(reading, day_end) && r == conclusion(
        exact,
        reading,
        day_end,
    ));
    assert(is_target(expr@, *now, r));
    r
}

fn last_second(d: CivilDate) -> (r: CivilTime)
    ensures
        r == end_of_day(d),
{
    CivilTime { date: d, hour: 23, minute: 59, second: 59, nanos: 0 }
}

// ---------------------------------------------------------------------
// Snapshots
// ---------------------------------------------------------------------
/// Is `i` the snapshot to take: the newest at or before the target, and the
/// first of several at the same instant?
pub open spec fn is_nearest(stamps: Seq<Option<Moment>>, target: Moment, i: int) -> bool {
    &&& 0 <= i < stamps.len()
    &&& is_not_after(stamps[i], target)
    &&& forall|k: int|
        0 <= k < stamps.len() && is_not_after(#[trigger] stamps[k], target) ==> {
            ||| earlier(stamps[k]->0, stamps[i]->0)
            ||| stamps[k] == stamps[i] && i <= k
        }
}

/// Is this an instant at or before the target?
pub open spec fn is_not_after(stamp: Option<Moment>, target: Moment) -> bool {
    match stamp {
        Some(m) => !earlier(target, m),
        None => false,
    }
}

/// The position of the newest instant at or before the target.
pub fn pick_nearest(stamps: &Vec<Option<Moment>>, target: Moment) -> (r: Option<usize>)
    ensures
        match r {
            Some(i) => is_nearest(stamps@, target, i as int),
            None => forall|k: int|
                0 <= k < stamps@.len() ==> !is_not_after(#[trigger] stamps@[k], target),
        },
{
    let mut best: Option<(usize, Moment)> = None;
    let mut i: usize = 0;
    while i < stamps.len()
        invariant
            i <= stamps@.len(),
            match best {
                Some((k, m)) => k < i && stamps@[k as int] == Some(m) && is_nearest(
                    stamps@.take(i as int),
                    target,
                    k as int,
                ),
                None => forall|k: int| 0 <= k < i ==> !is_not_after(#[trigger] stamps@[k], target),
            },
        decreases stamps@.len() - i,
    {
        let ghost before = stamps@.take(i as int);
        let ghost after = stamps@.take(i + 1);
        let ghost old_best = best;
        assert forall|k: int| 0 <= k < i implies #[trigger] after[k] == before[k] by {}
        assert(after[i as int] == stamps@[i as int]);
        match stamps[i] {
            Some(m) => {
                let newer = match best {
                    Some((_, b)) => is_earlier(b, m),
                    None => true,
                };
                if !is_earlier(target, m) && newer {
                    best = Some((i, m));
                    proof {
                        assert forall|k: int|
                            0 <= k < after.len() && is_not_after(
                                #[trigger] after[k],
                                target,
                            ) implies earlier(after[k]->0, m) || after[k] == after[i as int] && i
                            <= k by {
                            if k < i {
                                assert(is_not_after(before[k], target));
                                assert(stamps@[k] == before[k]);
                            }
                        }
                        assert(is_nearest(after, target, i as int));
                    }
                }
            },
            None => {},
        }
        proof {
            if best == old_best {
                match best {
                    Some((k0, m)) => {
                        assert(after[k0 as int] == before[k0 as int]);
                        assert forall|k: int|
                            0 <= k < after.len() && is_not_after(
                                #[trigger] after[k],
                                target,
                            ) implies earlier(after[k]->0, m) || after[k] == after[k0 as int] && k0
                            <= k by {
                            if k < i {
                                assert(is_not_after(before[k], target));
                            }
                        }
                        assert(is_nearest(after, target, k0 as int));
                    },
                    None => {
                        assert forall|k: int| 0 <= k < i + 1 implies !is_not_after(
                            #[trigger] stamps@[k],
                            target,
                        ) by {}
                    },
                }
            }
        }
        i += 1;
    }
    assert(stamps@.take(stamps@.len() as int) =~= stamps@);
    match best {
        Some((k, _)) => Some(k),
        None => None,
    }
}

/// Can `stamps` be the instants of the entries' names? An entry without a
/// readable name has none.
pub open spec fn are_stamps(entries: Seq<Option<String>>, stamps: Seq<Option<Moment>>) -> bool {
    &&& stamps.len() == entries.len()
    &&& forall|i: int|
        0 <= i < entries.len() ==> match #[trigger] entries[i] {
            Some(name) => is_exact_answer(name@, stamps[i]),
            None => stamps[i] is None,
        }
}

/// Is `found` the name of the newest snapshot at or before the target, or
/// nothing where there is none?
pub open spec fn is_newest(
    entries: Seq<Option<String>>,
    stamps: Seq<Option<Moment>>,
    target: Moment,
    found: Option<Seq<char>>,
) -> bool {
    match found {
        Some(name) => exists|i: int|
            #[trigger] is_nearest(stamps, target, i) && entries[i] is Some && name
                == entries[i]->0@,
        None => forall|k: int|
            0 <= k < stamps.len() ==> !is_not_after(#[trigger] stamps[k], target),
    }
}

/// Can `found` be the newest snapshot at or before the target, whatever the
/// time zone answers?
pub open spec fn is_newest_entry(
    entries: Seq<Option<String>>,
    target: Moment,
    found: Option<Seq<char>>,
) -> bool {
    exists|stamps: Seq<Option<Moment>>| #[trigger]
        are_stamps(entries, stamps) && is_newest(entries, stamps, target, found)
}

/// Finds the newest snapshot at or before `target` among the entries of the
/// snapshot directory. An entry that is no snapshot, or whose name cannot be
/// read, makes no difference.
pub fn find_nearest(entries: &Vec<Option<String>>, target: Moment) -> (r: Option<String>)
    ensures
        is_newest_entry(entries@, target, opt_text(r)),
{
    let mut stamps: Vec<Option<Moment>> = Vec::new();
    let mut i: usize = 0;
    while i < entries.len()
        invariant
            i <= entries@.len(),
            stamps@.len() == i,
            forall|k: int|
                0 <= k < i ==> match #[trigger] entries@[k] {
                    Some(name) => is_exact_answer(name@, stamps@[k]),
                    None => stamps@[k] is None,
                },
        decreases entries@.len() - i,
    {
        let s = match &entries[i] {
            Some(name) => parse_snapshot_name(name.as_str()),
            None => None,
        };
        stamps.push(s);
        i += 1;
    }
    assert(are_stamps(entries@, stamps@));
    let r = match pick_nearest(&stamps, target) {
        Some(k) => {
            assert(is_nearest(stamps@, target, k as int));
            assert(entries@[k as int] is Some);
            match &entries[k] {
                Some(name) => Some(name.clone()),
                None => None,
            }
        },
        None => None,
    };
    assert(is_newest(entries@, stamps@, target, opt_text(r)));
    r
}

/// The directory of that very name below the snapshot directory, if it is a
/// directory.
pub fn find_exact(snap_root: &str, name: &str, is_dir: bool) -> (r: Option<String>)
    ensures
        opt_text(r) == if is_dir {
            Some(join_path(snap_root@, name@))
        } else {
            None
        },
{
    if is_dir {
        Some(joined_path(snap_root, name))
    } else {
        None
    }
}

/// Why an expression could not be resolved although it is a time expression.
#[derive(Debug, Clone, Copy, PartialEq, Eq, Structural)]
pub enum TimeError {
    /// The local clock does not show the time exactly once.
    NoLocalTime,
    /// The calendar does not reach that far back.
    OutOfReach,
}

/// The text of an entry below the snapshot directory.
pub open spec fn below(snap_root: Seq<char>, name: Option<Seq<char>>) -> Option<Seq<char>> {
    match name {
        Some(n) => Some(join_path(snap_root, n)),
        None => None,
    }
}

/// Can `found` be the directory that an expression with this target leads to:
/// the newest snapshot at or before the target, or, where the expression is no
/// time expression, the directory of that very name?
pub open spec fn is_led_to(
    snap_root: Seq<char>,
    expr: Seq<char>,
    target: Option<Moment>,
    entries: Option<Vec<Option<String>>>,
    is_dir: bool,
    found: Option<Seq<char>>,
) -> bool {
    match target {
        Some(t) => match entries {
            Some(list) => exists|name: Option<Seq<char>>| #[trigger]
                is_newest_entry(list@, t, name) && found == below(snap_root, name),
            None => found is None,
        },
        None => found == if is_dir {
            Some(join_path(snap_root, expr))
        } else {
            None
        },
    }
}

/// The snapshot directory of an expression, once its target is known.
/// `entries` are the names in the snapshot directory, or nothing where that
/// cannot be read; `is_dir` says whether the expression itself names a
/// directory there.
pub fn resolve_entry(
    snap_root: &str,
    expr: &str,
    target: Option<Moment>,
    entries: &Option<Vec<Option<String>>>,
    is_dir: bool,
) -> (r: Option<String>)
    ensures
        is_led_to(snap_root@, expr@, target, *entries, is_dir, opt_text(r)),
{
    match target {
        Some(t) => match entries {
            Some(list) => {
                let name = find_nearest(list, t);
                let r = match &name {
                    Some(n) => Some(joined_path(snap_root, n.as_str())),
                    None => None,
                };
                assert(is_newest_entry(list@, t, opt_text(name)));
                assert(opt_text(r) == below(snap_root@, opt_text(name)));
                r
            },
            None => None,
        },
        None => find_exact(snap_root, expr, is_dir),
    }
}

/// Can `r` be what an expression resolves to at a time, whatever the time zone
/// answers? An expression that the calendar does not reach is an error, and so
/// is one that means the end of a day which the local clock does not show
/// exactly once. Any other leads to a directory by its target, or to none.
pub open spec fn is_resolution(
    snap_root: Seq<char>,
    expr: Seq<char>,
    now: LocalTime,
    entries: Option<Vec<Option<String>>>,
    is_dir: bool,
    r: Result<Option<String>, TimeError>,
) -> bool {
    if !is_in_reach(expr, now) {
        r == Err::<Option<String>, TimeError>(TimeError::OutOfReach)
    } else {
        exists|t: Result<Option<Moment>, NoLocalTime>| #[trigger]
            is_target(expr, now, t) && match t {
                Ok(target) => r is Ok && is_led_to(
                    snap_root,
                    expr,
                    target,
                    entries,
                    is_dir,
                    opt_text(r->Ok_0),
                ),
                Err(_) => r == Err::<Option<String>, TimeError>(TimeError::NoLocalTime),
            }
    }
}

/// Resolves the first component of a path below the mount to the directory of
/// a snapshot, evaluated at the time `now`.
pub fn resolve_at(
    snap_root: &str,
    expr: &str,
    now: &LocalTime,
    entries: &Option<Vec<Option<String>>>,
    is_dir: bool,
) -> (r: Result<Option<String>, TimeError>)
    requires
        valid_local(*now),
    ensures
        is_resolution(snap_root@, expr@, *now, *entries, is_dir, r),
        is_in_reach(expr@, *now) ==> reads_names(expr@),
        names_no_time(expr@) ==> r is Ok && opt_text(r->Ok_0) == if is_dir {
            Some(join_path(snap_root@, expr@))
        } else {
            None
        },
        expr@ == "now"@ || expr@ == "today"@ ==> r is Ok,
{
    proof {
        reveal_strlit("now");
        reveal_strlit("today");
        assert(!is_time_char("now"@[0]));
        assert(!is_time_char("today"@[0]));
    }
    if !reaches(expr, now) {
        return Err(TimeError::OutOfReach);
    }
    let t = resolve_target(expr, now);
    assert(is_target(expr@, *now, t));
    match t {
        Ok(target) => Ok(resolve_entry(snap_root, expr, target, entries, is_dir)),
        Err(_) => Err(TimeError::NoLocalTime),
    }
}

/// Resolves the first component of a path below the mount to the directory of
/// a snapshot, evaluated at the time of the call.
pub fn resolve(
    snap_root: &str,
    expr: &str,
    entries: &Option<Vec<Option<String>>>,
    is_dir: bool,
) -> (r: Result<Option<String>, TimeError>)
    ensures
        exists|now: LocalTime| #[trigger]
            valid_local(now) && is_resolution(snap_root@, expr@, now, *entries, is_dir, r),
        r != Err::<Option<String>, TimeError>(TimeError::OutOfReach) ==> reads_names(expr@),
        names_no_time(expr@) ==> r is Ok && opt_text(r->Ok_0) == if is_dir {
            Some(join_path(snap_root@, expr@))
        } else {
            None
        },
        expr@ == "now"@ || expr@ == "today"@ ==> r is Ok,
{
    let now = local_now();
    let r = resolve_at(snap_root, expr, &now, entries, is_dir);
    assert(valid_local(now) && is_resolution(snap_root@, expr@, now, *entries, is_dir, r));
    r
}

/// Is the expression no time expression, whatever the time is: has it other
/// characters than a time has, and is it no count of units, no weekday and no
/// fixed word?
pub open spec fn names_no_time(expr: Seq<char>) -> bool {
    !is_time_like(expr) && relative_amount(expr) is None && weekday_of_expr(expr) is None
        && !is_calendar_word(expr)
}

/// Is this one of the fixed words for a time?
pub open spec fn is_calendar_word(expr: Seq<char>) -> bool {
    expr == "now"@ || expr == "today"@ || expr == "yesterday"@ || expr == "last-week"@ || expr
        == "last-month"@ || expr == "last-year"@
}

// ---------------------------------------------------------------------
// Laws
// ---------------------------------------------------------------------
/// The instant of a snapshot leads to that snapshot: what is nearest to an
/// instant that a snapshot has is the first snapshot of that very instant.
pub proof fn an_instant_leads_to_its_own_snapshot(
    stamps: Seq<Option<Moment>>,
    m: Moment,
    i: int,
    j: int,
)
    requires
        0 <= i < stamps.len(),
        stamps[i] == Some(m),
        is_nearest(stamps, m, j),
    ensures
        stamps[j] == Some(m),
        j <= i,
{
    assert(is_not_after(stamps[i], m));
}

/// Entries that have no instant make no difference: the nearest of the others
/// is the nearest of all.
pub proof fn other_entries_make_no_difference(
    stamps: Seq<Option<Moment>>,
    target: Moment,
    k: int,
    i: int,
)
    requires
        0 <= k <= stamps.len(),
    ensures
        is_nearest(stamps.insert(k, None), target, if i < k {
            i
        } else {
            i + 1
        }) <==> is_nearest(stamps, target, i),
{
    let more = stamps.insert(k, None);
    let at = if i < k {
        i
    } else {
        i + 1
    };
    assert forall|q: int| 0 <= q < stamps.len() implies #[trigger] stamps[q] == more[if q < k {
        q
    } else {
        q + 1
    }] by {}
    assert forall|q: int| 0 <= q < more.len() && q != k implies #[trigger] more[q] == stamps[if q
        < k {
        q
    } else {
        q - 1
    }] by {}
    assert(more[k] is None);
}

/// A weekday means the last day before today that was that weekday: today
/// never counts, even where it is the weekday, and no later such day has
/// passed.
pub proof fn a_weekday_is_the_last_one_before_today(today: CivilDate, w: Weekday, d: CivilDate)
    requires
        valid_date(today),
        valid_date(d),
        day_number(today) - days_since(today, w) >= MIN_DAY,
        day_number(d) < day_number(today),
        weekday_of(d) == w,
    ensures
        1 <= days_since(today, w) <= 7,
        day_number(d) <= day_number(today) - days_since(today, w),
{
    let t = day_number(today) + 3;
    let x = day_number(d) + 3;
    assert(weekday_number(weekday_at(t % 7)) == t % 7);
    assert(weekday_number(weekday_at(x % 7)) == x % 7);
    let wn = weekday_number(w);
    let n = days_since(today, w);
    assert(n == 1 + (t % 7 - wn - 1) % 7);
    assert(x % 7 == wn);
    assert((t - x) % 7 == n % 7);
}

/// With `last-` before it a weekday means the same as alone.
pub proof fn last_before_a_weekday_changes_nothing(name: Seq<char>, now: LocalTime)
    requires
        weekday_named(lowered(name)) is Some,
    ensures
        word_reading("last-"@ + name, now) == word_reading(name, now),
        weekday_of_expr("last-"@ + name) == weekday_of_expr(name),
{
    let long = "last-"@ + name;
    lemma_weekday_texts(name);
    reveal_strlit("last-");
    reveal_strlit("now");
    reveal_strlit("today");
    reveal_strlit("yesterday");
    reveal_strlit("last-week");
    reveal_strlit("last-month");
    reveal_strlit("last-year");
    reveal_strlit("-ago");
    let n = name.len() as int;
    assert(long.skip(5) =~= name);
    assert(long.subrange(0, 5) =~= "last-"@);
    assert(long[0] == 'l');
    assert(long.len() == n + 5);
    assert(long[n + 4] == name[n - 1]);
    // Neither text ends in a count of units.
    if ends_with(name, "-ago"@) {
        assert(name.subrange(n - 4, n)[3] == 'o');
    }
    if ends_with(long, "-ago"@) {
        assert(long.subrange(n + 1, n + 5)[3] == 'o');
    }
    // Nor is one of them a fixed word.
    if long == "last-week"@ {
        assert(long[8] == 'k');
    }
    if long == "last-month"@ {
        assert(long[9] == 'h');
    }
    if long == "last-year"@ {
        assert(long[8] == 'r');
        assert(name =~= seq!['y', 'e', 'a', 'r']) by {
            assert(long.skip(5) =~= seq!['y', 'e', 'a', 'r']);
        }
    }
    if name == "yesterday"@ {
        assert(name[0] == 'y');
    }
    if name == "today"@ {
        assert(name[2] == 'd' && name[1] == 'o');
    }
    if name == "now"@ {
        assert(name[0] == 'n');
    }
    if starts_with(name, "last-"@) {
        assert(name.subrange(0, 5)[0] == 'l');
    }
}

/// What the names of the weekdays have in common: they end in no `o`, `k` or
/// `h`, begin with no `l`, `n` or `y`, and are not `today`.
pub(crate) proof fn lemma_weekday_texts(name: Seq<char>)
    requires
        weekday_named(lowered(name)) is Some,
    ensures
        name.len() >= 3,
        ({
            let a = name[0];
            let z = name.last();
            &&& a != 'l' && a != 'n' && a != 'y'
            &&& z != 'o' && z != 'k' && z != 'h'
            &&& name[1] == 'o' ==> name[2] != 'd'
        }),
{
    reveal_strlit("mon");
    reveal_strlit("monday");
    reveal_strlit("tue");
    reveal_strlit("tues");
    reveal_strlit("tuesday");
    reveal_strlit("wed");
    reveal_strlit("wednesday");
    reveal_strlit("thu");
    reveal_strlit("thur");
    reveal_strlit("thursday");
    reveal_strlit("fri");
    reveal_strlit("friday");
    reveal_strlit("sat");
    reveal_strlit("saturday");
    reveal_strlit("sun");
    reveal_strlit("sunday");
    let low = lowered(name);
    assert(low.len() == name.len());
    assert(low[0] == lower_char(name[0]));
    assert(low[1] == lower_char(name[1]));
    assert(low[2] == lower_char(name[2]));
    assert(low.last() == lower_char(name.last()));
}

} // verus!
