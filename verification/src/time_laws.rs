//! What holds of time expressions, told in terms of the words and of the
//! calendar.
use crate::calendar::{
    date_text, day_number, days_back, days_back_is_so_many_days_before, earlier, is_time_like,
    month_len, months_back, months_back_is_so_many_months_before, valid_date, valid_local,
    weekday_at, weekday_number, weekday_of, CivilDate, LocalTime, Moment, Weekday, MIN_DAY,
    MIN_SECS, MIN_YEAR,
};
use crate::number::{all_digits, is_digit, nat_text, text_int};
use crate::path::components;
use crate::path_laws::{
    a_name_is_one_component, begins_with_dot, is_name, joining_appends_components,
};
use crate::text::{ends_with, starts_with};
use crate::text_laws::a_number_is_written_in_digits;
use crate::time_expr::{
    amount, below, conclusion, dash_at, days_since, digits_at, is_day_end_answer, is_exact_answer,
    is_in_reach, is_led_to, is_nearest, is_newest, is_newest_entry, is_resolution, is_target,
    lower_char, lowered, reading_of, reads_names, relative_amount, unit_named, weekday_named,
    weekday_of_expr, word_reading, NoLocalTime, Reading, TimeError, Unit,
};
use crate::path::join_path;
use vstd::prelude::*;

verus! {

// ---------------------------------------------------------------------
// Counts of units
// ---------------------------------------------------------------------
/// Is this a name of a minute?
pub open spec fn means_minutes(s: Seq<char>) -> bool {
    s == "minute"@ || s == "minutes"@ || s == "min"@ || s == "m"@
}

/// Is this a name of an hour?
pub open spec fn means_hours(s: Seq<char>) -> bool {
    s == "hour"@ || s == "hours"@ || s == "hr"@ || s == "h"@
}

/// Is this a name of a day?
pub open spec fn means_days(s: Seq<char>) -> bool {
    s == "day"@ || s == "days"@ || s == "d"@
}

/// Is this a name of a week?
pub open spec fn means_weeks(s: Seq<char>) -> bool {
    s == "week"@ || s == "weeks"@ || s == "w"@
}

/// Is this a name of a month?
pub open spec fn means_months(s: Seq<char>) -> bool {
    s == "month"@ || s == "months"@ || s == "mo"@
}

/// Does the name mean a unit of so many seconds?
pub open spec fn lasts(unit: Seq<char>, secs: int) -> bool {
    ||| means_minutes(unit) && secs == 60
    ||| means_hours(unit) && secs == 60 * 60
    ||| means_days(unit) && secs == 24 * 60 * 60
    ||| means_weeks(unit) && secs == 7 * 24 * 60 * 60
}

/// A count of units ago, such as `3-days-ago`, or such as `3d-ago` without the
/// dash.
pub open spec fn ago(n: nat, dash: bool, unit: Seq<char>) -> Seq<char> {
    nat_text(n) + (if dash {
        seq!['-']
    } else {
        Seq::empty()
    }) + unit + "-ago"@
}

/// Does the text begin with a letter, and has it no dash?
spec fn is_word(s: Seq<char>) -> bool {
    &&& s.len() > 0
    &&& !is_digit(s[0])
    &&& forall|i: int| 0 <= i < s.len() ==> (#[trigger] s[i]) != '-'
}

/// The names of the units are words.
proof fn lemma_unit_words(s: Seq<char>)
    requires
        means_minutes(s) || means_hours(s) || means_days(s) || means_weeks(s) || means_months(s),
    ensures
        is_word(s),
{
    reveal_strlit("minute");
    reveal_strlit("minutes");
    reveal_strlit("min");
    reveal_strlit("m");
    reveal_strlit("hour");
    reveal_strlit("hours");
    reveal_strlit("hr");
    reveal_strlit("h");
    reveal_strlit("day");
    reveal_strlit("days");
    reveal_strlit("d");
    reveal_strlit("week");
    reveal_strlit("weeks");
    reveal_strlit("w");
    reveal_strlit("month");
    reveal_strlit("months");
    reveal_strlit("mo");
}

/// The names of one unit are not those of another.
proof fn lemma_units_differ(s: Seq<char>)
    ensures
        means_minutes(s) ==> unit_named(s) == Some(Unit::Minute),
        means_hours(s) ==> unit_named(s) == Some(Unit::Hour),
        means_days(s) ==> unit_named(s) == Some(Unit::Day),
        means_weeks(s) ==> unit_named(s) == Some(Unit::Week),
        means_months(s) ==> unit_named(s) == Some(Unit::Month),
        unit_named(s) is Some <==> means_minutes(s) || means_hours(s) || means_days(s) || means_weeks(
            s,
        ) || means_months(s),
{
    reveal_strlit("minute");
    reveal_strlit("minutes");
    reveal_strlit("min");
    reveal_strlit("m");
    reveal_strlit("hour");
    reveal_strlit("hours");
    reveal_strlit("hr");
    reveal_strlit("h");
    reveal_strlit("day");
    reveal_strlit("days");
    reveal_strlit("d");
    reveal_strlit("week");
    reveal_strlit("weeks");
    reveal_strlit("w");
    reveal_strlit("month");
    reveal_strlit("months");
    reveal_strlit("mo");
    assert(means_minutes(s) ==> s[0] == 'm' && (s.len() == 1 || s[1] == 'i'));
    assert(means_hours(s) ==> s[0] == 'h');
    assert(means_days(s) ==> s[0] == 'd');
    assert(means_weeks(s) ==> s[0] == 'w');
    assert(means_months(s) ==> s.len() >= 2 && s[0] == 'm' && s[1] == 'o');
}

/// Where the first dash stands.
proof fn lemma_dash(a: Seq<char>, b: Seq<char>)
    requires
        forall|i: int| 0 <= i < a.len() ==> (#[trigger] a[i]) != '-',
        b.len() > 0 ==> b[0] == '-',
    ensures
        dash_at(a + b) == a.len(),
    decreases a.len(),
{
    let s = a + b;
    if a.len() == 0 {
        if b.len() > 0 {
            assert(s[0] == b[0]);
        }
    } else {
        assert(s[0] == a[0]);
        assert(s.skip(1) =~= a.skip(1) + b);
        lemma_dash(a.skip(1), b);
    }
}

/// Where the first character stands that is no digit.
proof fn lemma_digits(a: Seq<char>, b: Seq<char>)
    requires
        all_digits(a),
        b.len() > 0 ==> !is_digit(b[0]),
    ensures
        digits_at(a + b) == a.len(),
    decreases a.len(),
{
    let s = a + b;
    if a.len() == 0 {
        if b.len() > 0 {
            assert(s[0] == b[0]);
        }
    } else {
        assert(s[0] == a[0]);
        assert(s.skip(1) =~= a.skip(1) + b);
        lemma_digits(a.skip(1), b);
    }
}

/// A count of units is read as that count of that unit.
proof fn lemma_amount(n: nat, dash: bool, unit: Seq<char>)
    requires
        n <= i64::MAX,
        is_word(unit),
        unit_named(unit) is Some,
    ensures
        relative_amount(ago(n, dash, unit)) == Some((n as int, unit_named(unit)->0)),
        ago(n, dash, unit).len() > 0,
        is_digit(ago(n, dash, unit)[0]),
{
    let digits = nat_text(n);
    let expr = ago(n, dash, unit);
    reveal_strlit("-ago");
    a_number_is_written_in_digits(n);
    assert(is_digit(digits[0]));
    assert(expr[0] == digits[0]);
    let gap = if dash {
        seq!['-']
    } else {
        Seq::empty()
    };
    let head = digits + gap + unit;
    assert(expr.take(expr.len() - 4) =~= head);
    assert(expr.subrange(expr.len() - 4, expr.len() - 4 + "-ago"@.len()) =~= "-ago"@);
    assert(ends_with(expr, "-ago"@));
    assert forall|i: int| 0 <= i < digits.len() implies (#[trigger] digits[i]) != '-' by {
        assert(is_digit(digits[i]));
    }
    let k = digits.len() as int;
    assert(text_int(digits) == Some(n as int));
    assert(head.take(k) =~= digits);
    if dash {
        assert(head =~= digits + (gap + unit));
        lemma_dash(digits, gap + unit);
        assert(head.skip(k + 1) =~= unit);
    } else {
        assert(head =~= digits + unit);
        assert forall|i: int| 0 <= i < head.len() implies (#[trigger] head[i]) != '-' by {
            if i < k {
                assert(head[i] == digits[i]);
            } else {
                assert(head[i] == unit[i - k]);
            }
        }
        assert(head + Seq::empty() =~= head);
        lemma_dash(head, Seq::empty());
        lemma_digits(digits, unit);
        assert(head.skip(k + 0) =~= unit);
    }
}

/// No fixed word begins with a digit.
proof fn lemma_no_fixed_word(expr: Seq<char>)
    requires
        expr.len() > 0,
        is_digit(expr[0]),
    ensures
        expr != "now"@,
        expr != "today"@,
        expr != "yesterday"@,
        expr != "last-week"@,
        expr != "last-month"@,
        expr != "last-year"@,
{
    reveal_strlit("now");
    reveal_strlit("today");
    reveal_strlit("yesterday");
    reveal_strlit("last-week");
    reveal_strlit("last-month");
    reveal_strlit("last-year");
}

/// A count of minutes, hours, days or weeks ago means the instant that many
/// times the unit's seconds before now. It is out of reach exactly if there is
/// no such instant.
pub proof fn a_count_of_units_counts_back(
    n: nat,
    dash: bool,
    unit: Seq<char>,
    secs: int,
    now: LocalTime,
)
    requires
        valid_local(now),
        n <= i64::MAX,
        lasts(unit, secs),
    ensures
        is_in_reach(ago(n, dash, unit), now) <==> now.moment.secs - n * secs >= MIN_SECS,
        now.moment.secs - n * secs >= MIN_SECS ==> match word_reading(ago(n, dash, unit), now) {
            Reading::Instant(m) => m.secs == now.moment.secs - n * secs && m.nanos
                == now.moment.nanos,
            _ => false,
        },
{
    lemma_unit_words(unit);
    lemma_units_differ(unit);
    lemma_amount(n, dash, unit);
    lemma_no_fixed_word(ago(n, dash, unit));
    assert(n * secs >= 0) by (nonlinear_arith)
        requires
            secs >= 0,
    ;
}

/// A week ago is seven days ago, a day ago is twenty-four hours ago, an hour
/// ago is sixty minutes ago.
pub proof fn units_are_multiples_of_each_other(
    n: nat,
    dash: bool,
    week: Seq<char>,
    day: Seq<char>,
    hour: Seq<char>,
    minute: Seq<char>,
    now: LocalTime,
)
    requires
        valid_local(now),
        n * 10080 <= i64::MAX,
        now.moment.secs - n * 604800 >= MIN_SECS,
        means_weeks(week),
        means_days(day),
        means_hours(hour),
        means_minutes(minute),
    ensures
        word_reading(ago(n, dash, week), now) == word_reading(ago(7 * n, dash, day), now),
        word_reading(ago(n, dash, day), now) == word_reading(ago(24 * n, dash, hour), now),
        word_reading(ago(n, dash, hour), now) == word_reading(ago(60 * n, dash, minute), now),
{
    a_count_of_units_counts_back(n, dash, week, 604800, now);
    a_count_of_units_counts_back(7 * n, dash, day, 86400, now);
    a_count_of_units_counts_back(n, dash, day, 86400, now);
    a_count_of_units_counts_back(24 * n, dash, hour, 3600, now);
    a_count_of_units_counts_back(n, dash, hour, 3600, now);
    a_count_of_units_counts_back(60 * n, dash, minute, 60, now);
}

/// The names of the units, and nothing else, name one, and two names mean the
/// same unit exactly if they are names of the same.
pub proof fn units_have_these_names(s: Seq<char>)
    ensures
        unit_named(s) is Some <==> means_minutes(s) || means_hours(s) || means_days(s) || means_weeks(
            s,
        ) || means_months(s),
        means_minutes(s) ==> unit_named(s) == unit_named("minute"@),
        means_hours(s) ==> unit_named(s) == unit_named("hour"@),
        means_days(s) ==> unit_named(s) == unit_named("day"@),
        means_weeks(s) ==> unit_named(s) == unit_named("week"@),
        means_months(s) ==> unit_named(s) == unit_named("month"@),
{
    lemma_units_differ(s);
    lemma_units_differ("minute"@);
    lemma_units_differ("hour"@);
    lemma_units_differ("day"@);
    lemma_units_differ("week"@);
    lemma_units_differ("month"@);
}

/// Is `e` the day so many months before `d`: is it in that month, and is it
/// the same day of it, or the month's last where the month is shorter?
pub open spec fn is_months_before(e: CivilDate, d: CivilDate, n: nat) -> bool {
    &&& valid_date(e)
    &&& e.year * 12 + e.month == d.year * 12 + d.month - n
    &&& e.day <= d.day
    &&& e.day < d.day ==> e.day == month_len(e.year as int, e.month as int)
}

/// A count of months ago means the end of the day that many months before
/// today. Where the calendar has no such month, it is no time expression.
pub proof fn a_count_of_months_counts_back(n: nat, dash: bool, unit: Seq<char>, now: LocalTime)
    requires
        valid_local(now),
        n <= i64::MAX,
        means_months(unit),
    ensures
        is_in_reach(ago(n, dash, unit), now),
        match word_reading(ago(n, dash, unit), now) {
            Reading::DayEnd(d) => is_months_before(d, now.civil.date, n),
            Reading::Nothing => now.civil.date.year * 12 + now.civil.date.month - n <= MIN_YEAR * 12,
            Reading::Instant(_) => false,
        },
{
    let expr = ago(n, dash, unit);
    lemma_unit_words(unit);
    lemma_units_differ(unit);
    lemma_amount(n, dash, unit);
    lemma_no_fixed_word(expr);
    months_back_is_so_many_months_before(now.civil.date, n);
    lemma_no_weekday(expr);
}

/// No weekday's name begins with a digit.
proof fn lemma_no_weekday(expr: Seq<char>)
    requires
        expr.len() > 0,
        is_digit(expr[0]),
    ensures
        weekday_of_expr(expr) is None,
{
    reveal_strlit("last-");
    if starts_with(expr, "last-"@) {
        assert(expr.subrange(0, "last-"@.len() as int)[0] == expr[0]);
    }
    assert(lowered(expr)[0] == expr[0]);
    lemma_weekday_letters(lowered(expr));
}

/// The names of the weekdays, and their first letters.
proof fn lemma_weekday_letters(s: Seq<char>)
    requires
        s.len() > 0,
        is_digit(s[0]),
    ensures
        weekday_named(s) is None,
{
    reveal_strlit("mon");
    reveal_strlit("monday");
    reveal_strlit("tue");
    reveal_strlit("tues");
    reveal_strlit("tuesday");
    reveal_strlit("wed");
    reveal_strlit("wednesday");
    reveal_strlit("thu");
    reveal_strlit("thur");
    reveal_strlit("thursday");
    reveal_strlit("fri");
    reveal_strlit("friday");
    reveal_strlit("sat");
    reveal_strlit("saturday");
    reveal_strlit("sun");
    reveal_strlit("sunday");
}

// ---------------------------------------------------------------------
// Fixed words
// ---------------------------------------------------------------------
/// The end of the day so many days before today.
pub open spec fn is_end_of_day_before(r: Reading, now: LocalTime, n: int) -> bool {
    match r {
        Reading::DayEnd(d) => valid_date(d) && day_number(d) == day_number(now.civil.date) - n,
        _ => false,
    }
}

/// The fixed words mean what they say: now, the end of the day before, the end
/// of the day a week before, the end of the day a month before, and that of
/// twelve months before.
pub proof fn fixed_words_mean_what_they_say(now: LocalTime)
    requires
        valid_local(now),
        day_number(now.civil.date) - 7 >= MIN_DAY,
    ensures
        word_reading("now"@, now) == Reading::Instant(now.moment),
        word_reading("today"@, now) == Reading::Instant(now.moment),
        is_end_of_day_before(word_reading("yesterday"@, now), now, 1),
        is_end_of_day_before(word_reading("last-week"@, now), now, 7),
        word_reading("last-month"@, now) == word_reading(ago(1, true, "month"@), now),
        word_reading("last-year"@, now) == word_reading(ago(12, true, "months"@), now),
{
    lemma_fixed_words_differ();
    days_back_is_so_many_days_before(now.civil.date, 1);
    days_back_is_so_many_days_before(now.civil.date, 7);
    lemma_same_months("last-month"@, 1, "month"@, now);
    lemma_same_months("last-year"@, 12, "months"@, now);
}

/// A count of months is read like the same count on the calendar.
proof fn lemma_same_months(word: Seq<char>, n: nat, unit: Seq<char>, now: LocalTime)
    requires
        n <= i64::MAX,
        means_months(unit),
    ensures
        word_reading(ago(n, true, unit), now) == match months_back(now.civil.date, n as int) {
            Some(d) => Reading::DayEnd(d),
            None => Reading::Nothing,
        },
{
    let expr = ago(n, true, unit);
    lemma_unit_words(unit);
    lemma_units_differ(unit);
    lemma_amount(n, true, unit);
    lemma_no_fixed_word(expr);
    lemma_no_weekday(expr);
}

proof fn lemma_fixed_words_differ()
    ensures
        "yesterday"@ != "now"@,
        "yesterday"@ != "today"@,
        "last-week"@ != "now"@,
        "last-week"@ != "today"@,
        "last-week"@ != "yesterday"@,
        "last-month"@ != "now"@,
        "last-month"@ != "today"@,
        "last-month"@ != "yesterday"@,
        "last-month"@ != "last-week"@,
        "last-year"@ != "now"@,
        "last-year"@ != "today"@,
        "last-year"@ != "yesterday"@,
        "last-year"@ != "last-week"@,
        "last-year"@ != "last-month"@,
{
    reveal_strlit("now");
    reveal_strlit("today");
    reveal_strlit("yesterday");
    reveal_strlit("last-week");
    reveal_strlit("last-month");
    reveal_strlit("last-year");
    assert("now"@.len() == 3);
    assert("today"@.len() == 5);
    assert("last-month"@.len() == 10);
    assert("yesterday"@.len() == 9);
    assert("last-year"@.len() == 9);
    assert("last-week"@.len() == 9);
    assert("yesterday"@[0] == 'y');
    assert("last-year"@[0] == 'l');
    assert("last-week"@[0] == 'l');
    assert("last-week"@[5] == 'w');
    assert("last-year"@[5] == 'y');
}

// ---------------------------------------------------------------------
// Weekdays
// ---------------------------------------------------------------------
/// Is this a name of the weekday, long or short, in lower case?
pub open spec fn names_weekday(s: Seq<char>, w: Weekday) -> bool {
    match w {
        Weekday::Mon => s == "mon"@ || s == "monday"@,
        Weekday::Tue => s == "tue"@ || s == "tues"@ || s == "tuesday"@,
        Weekday::Wed => s == "wed"@ || s == "wednesday"@,
        Weekday::Thu => s == "thu"@ || s == "thur"@ || s == "thursday"@,
        Weekday::Fri => s == "fri"@ || s == "friday"@,
        Weekday::Sat => s == "sat"@ || s == "saturday"@,
        Weekday::Sun => s == "sun"@ || s == "sunday"@,
    }
}

/// The weekdays have their names, and no other text names one.
pub proof fn weekdays_have_their_names(s: Seq<char>, w: Weekday)
    ensures
        weekday_named(s) == Some(w) <==> names_weekday(s, w),
{
    reveal_strlit("mon");
    reveal_strlit("monday");
    reveal_strlit("tue");
    reveal_strlit("tues");
    reveal_strlit("tuesday");
    reveal_strlit("wed");
    reveal_strlit("wednesday");
    reveal_strlit("thu");
    reveal_strlit("thur");
    reveal_strlit("thursday");
    reveal_strlit("fri");
    reveal_strlit("friday");
    reveal_strlit("sat");
    reveal_strlit("saturday");
    reveal_strlit("sun");
    reveal_strlit("sunday");
    if weekday_named(s) is Some || names_weekday(s, w) {
        assert(s.len() >= 3);
        let (a, b, c) = (s[0], s[1], s[2]);
        assert(names_weekday(s, Weekday::Mon) ==> a == 'm');
        assert(names_weekday(s, Weekday::Tue) ==> a == 't' && b == 'u');
        assert(names_weekday(s, Weekday::Wed) ==> a == 'w');
        assert(names_weekday(s, Weekday::Thu) ==> a == 't' && b == 'h');
        assert(names_weekday(s, Weekday::Fri) ==> a == 'f');
        assert(names_weekday(s, Weekday::Sat) ==> a == 's' && b == 'a');
        assert(names_weekday(s, Weekday::Sun) ==> a == 's' && b == 'u');
    }
}

/// Upper and lower case make no difference: a letter in lower case stays, one
/// in upper case becomes the one with the same place in the alphabet, and
/// anything else stays.
pub proof fn case_makes_no_difference(c: char)
    ensures
        'a' <= c <= 'z' ==> lower_char(c) == c,
        'A' <= c <= 'Z' ==> 'a' <= lower_char(c) <= 'z' && lower_char(c) as int - 'a' as int == c as int
            - 'A' as int,
        !('A' <= c <= 'Z') ==> lower_char(c) == c,
        lower_char(lower_char(c)) == lower_char(c),
{
}

/// A weekday means the end of the last day before today that was that weekday,
/// within the last seven days.
pub proof fn a_weekday_means_the_last_one(expr: Seq<char>, w: Weekday, now: LocalTime)
    requires
        valid_local(now),
        day_number(now.civil.date) - 7 >= MIN_DAY,
        weekday_named(lowered(expr)) == Some(w),
    ensures
        is_in_reach(expr, now),
        match word_reading(expr, now) {
            Reading::DayEnd(d) => {
                &&& valid_date(d)
                &&& weekday_of(d) == w
                &&& day_number(now.civil.date) - 7 <= day_number(d) < day_number(now.civil.date)
            },
            _ => false,
        },
{
    crate::time_expr::last_before_a_weekday_changes_nothing(expr, now);
    let n = days_since(now.civil.date, w);
    let t = day_number(now.civil.date);
    lemma_since(t, weekday_number(w));
    lemma_week_number(t);
    days_back_is_so_many_days_before(now.civil.date, n as nat);
    lemma_weekday_is_no_other(expr);
    let d = days_back(now.civil.date, n);
    lemma_weekday_again(w);
    assert(weekday_of(d) == weekday_at((day_number(d) + 3) % 7));
}

proof fn lemma_week_number(t: int)
    ensures
        weekday_number(weekday_at((t + 3) % 7)) == (t + 3) % 7,
{
}

proof fn lemma_weekday_again(w: Weekday)
    ensures
        weekday_at(weekday_number(w)) == w,
        0 <= weekday_number(w) < 7,
{
}

proof fn lemma_since(t: int, w: int)
    requires
        0 <= w < 7,
    ensures
        1 <= 1 + ((t + 3) % 7 - w - 1) % 7 <= 7,
        (t - (1 + ((t + 3) % 7 - w - 1) % 7) + 3) % 7 == w,
{
}

/// A weekday's name is no fixed word and no count of units.
proof fn lemma_weekday_is_no_other(expr: Seq<char>)
    requires
        weekday_named(lowered(expr)) is Some,
    ensures
        expr != "now"@,
        expr != "today"@,
        expr != "yesterday"@,
        expr != "last-week"@,
        expr != "last-month"@,
        expr != "last-year"@,
        relative_amount(expr) is None,
        weekday_of_expr(expr) == weekday_named(lowered(expr)),
{
    crate::time_expr::lemma_weekday_texts(expr);
    reveal_strlit("now");
    reveal_strlit("today");
    reveal_strlit("yesterday");
    reveal_strlit("last-week");
    reveal_strlit("last-month");
    reveal_strlit("last-year");
    reveal_strlit("-ago");
    reveal_strlit("last-");
    assert("today"@[1] == 'o' && "today"@[2] == 'd');
    assert("now"@[0] == 'n');
    assert("yesterday"@[0] == 'y');
    assert("last-week"@[0] == 'l');
    assert("last-month"@[0] == 'l');
    assert("last-year"@[0] == 'l');
    if ends_with(expr, "-ago"@) {
        assert(expr.subrange(expr.len() - 4, expr.len() as int)[3] == expr.last());
    }
    if starts_with(expr, "last-"@) {
        assert(expr.subrange(0, 5)[0] == expr[0]);
    }
}

// ---------------------------------------------------------------------
// Targets
// ---------------------------------------------------------------------
/// A snapshot's own name leads to its instant, whatever it would mean as words.
/// Else words lead to the instant that they mean, a day to its end as the
/// local clock shows it, and a day whose end it does not show once to an error.
pub proof fn a_target_is_what_was_meant(exact: Option<Moment>, m: Moment, d: CivilDate, r: Reading)
    ensures
        conclusion(Some(m), r, exact) == Ok::<Option<Moment>, NoLocalTime>(Some(m)),
        conclusion(None, Reading::Instant(m), exact) == Ok::<Option<Moment>, NoLocalTime>(Some(m)),
        conclusion(None, Reading::DayEnd(d), Some(m)) == Ok::<Option<Moment>, NoLocalTime>(Some(m)),
        conclusion(None, Reading::DayEnd(d), None) is Err,
        conclusion(None, Reading::Nothing, exact) == Ok::<Option<Moment>, NoLocalTime>(None),
{
}

/// What is found lies directly below the directory of snapshots.
pub proof fn what_is_found_is_a_snapshot(snap_root: Seq<char>, name: Seq<char>)
    requires
        snap_root.len() > 0,
        is_name(name),
        name != seq!['.'],
    ensures
        below(snap_root, None) is None,
        below(snap_root, Some(name)) matches Some(dir) && components(dir) == components(
            snap_root,
        ) + seq![name],
{
    a_name_is_one_component(name);
    assert(name[0] != '/');
    assert(!begins_with_dot(name)) by {
        if begins_with_dot(name) {
            if name.len() > 1 {
                assert(name[1] != '/');
            }
            assert(name =~= seq!['.']);
        }
    }
    joining_appends_components(snap_root, name);
}

/// What is read as a count of units ends in the word for it, and has the count
/// and the name of the unit before that, with nothing or one dash in between.
pub proof fn only_counts_of_units_are_read_as_such(expr: Seq<char>)
    ensures
        relative_amount(expr) matches Some((n, u)) ==> exists|k: int, gap: int| #[trigger]
            is_written_around(expr, n, u, k, gap),
{
    if let Some((n, u)) = relative_amount(expr) {
        let head = expr.take(expr.len() - 4);
        lemma_runs_within(head);
        let (dash, digits) = (dash_at(head), digits_at(head));
        if dash < head.len() && amount(head, dash, 1) is Some {
            lemma_dash_found(head);
            assert(is_written_around(expr, n, u, dash, 1));
        } else {
            assert(is_written_around(expr, n, u, digits, 0));
        }
    }
}

/// Is the expression a count that ends at `k`, a gap of at most one dash, a
/// unit, and the word for the past?
pub open spec fn is_written_around(expr: Seq<char>, n: int, u: Unit, k: int, gap: int) -> bool {
    let head = expr.take(expr.len() - 4);
    &&& ends_with(expr, "-ago"@)
    &&& 0 <= k <= k + gap <= head.len()
    &&& gap == 0 || gap == 1 && head[k] == '-'
    &&& text_int(head.take(k)) == Some(n)
    &&& unit_named(head.skip(k + gap)) == Some(u)
}

proof fn lemma_runs_within(s: Seq<char>)
    ensures
        0 <= dash_at(s) <= s.len(),
        0 <= digits_at(s) <= s.len(),
    decreases s.len(),
{
    if s.len() > 0 {
        lemma_runs_within(s.skip(1));
    }
}

proof fn lemma_dash_found(s: Seq<char>)
    ensures
        dash_at(s) < s.len() ==> s[dash_at(s)] == '-',
    decreases s.len(),
{
    lemma_runs_within(s);
    if s.len() > 0 && s[0] != '-' {
        lemma_dash_found(s.skip(1));
        lemma_runs_within(s.skip(1));
        if dash_at(s) < s.len() {
            assert(s.skip(1)[dash_at(s.skip(1))] == s[dash_at(s)]);
        }
    }
}

/// The fixed words reach as far as the calendar does.
pub proof fn fixed_words_reach_as_far_as_the_calendar(now: LocalTime)
    ensures
        is_in_reach("now"@, now),
        is_in_reach("today"@, now),
        is_in_reach("last-month"@, now),
        is_in_reach("last-year"@, now),
        is_in_reach("yesterday"@, now) <==> day_number(now.civil.date) - 1 >= MIN_DAY,
        is_in_reach("last-week"@, now) <==> day_number(now.civil.date) - 7 >= MIN_DAY,
{
    lemma_fixed_words_differ();
}

// ---------------------------------------------------------------------
// The nearest snapshot
// ---------------------------------------------------------------------
/// The nearest snapshot is at the target or before it, and none that is so is
/// newer, however old it is. There is none only where every snapshot is later
/// than the target.
pub proof fn the_nearest_is_the_newest_before(
    entries: Seq<Option<String>>,
    stamps: Seq<Option<Moment>>,
    target: Moment,
    i: int,
    k: int,
)
    requires
        0 <= k < stamps.len(),
        stamps[k] is Some,
        !earlier(target, stamps[k]->0),
    ensures
        is_nearest(stamps, target, i) ==> {
            &&& 0 <= i < stamps.len()
            &&& stamps[i] is Some
            &&& !earlier(target, stamps[i]->0)
            &&& !earlier(stamps[i]->0, stamps[k]->0)
            &&& stamps[i] == stamps[k] ==> i <= k
        },
        !is_newest(entries, stamps, target, None),
{
}

/// The name that is found is that of the nearest snapshot.
pub proof fn the_name_found_is_the_nearest(
    entries: Seq<Option<String>>,
    stamps: Seq<Option<Moment>>,
    target: Moment,
    name: Seq<char>,
)
    requires
        is_newest(entries, stamps, target, Some(name)),
    ensures
        exists|i: int| #[trigger]
            is_nearest(stamps, target, i) && entries[i] is Some && entries[i]->0@ == name,
{
}

/// A time expression leads to a snapshot by its time alone: a directory of its
/// very name makes no difference. What is no time expression leads to the
/// directory of its name, if there is one.
pub proof fn a_time_is_not_a_name(
    snap_root: Seq<char>,
    expr: Seq<char>,
    other: Seq<char>,
    t: Moment,
    entries: Option<Vec<Option<String>>>,
    found: Option<Seq<char>>,
)
    ensures
        is_led_to(snap_root, expr, Some(t), entries, true, found) <==> is_led_to(
            snap_root,
            other,
            Some(t),
            entries,
            false,
            found,
        ),
        is_led_to(snap_root, expr, Some(t), None, true, found) ==> found is None,
        is_led_to(snap_root, expr, None, entries, true, found) <==> found == Some(
            join_path(snap_root, expr),
        ),
        is_led_to(snap_root, expr, None, entries, false, found) <==> found is None,
        entries matches Some(list) ==> (is_led_to(snap_root, expr, Some(t), entries, true, found)
            ==> exists|name: Option<Seq<char>>| #[trigger]
            is_newest_entry(list@, t, name) && match name {
                Some(n) => found == Some(join_path(snap_root, n)),
                None => found is None,
            }),
{
    if let Some(list) = entries {
        if is_led_to(snap_root, expr, Some(t), entries, true, found) {
            let name = choose|name: Option<Seq<char>>| #[trigger]
                is_newest_entry(list@, t, name) && found == below(snap_root, name);
            assert(is_newest_entry(list@, t, name));
        }
    }
}

/// Is the instant less than a day away from the last second of the day, as
/// universal time counts it?
pub open spec fn ends_the_day(m: Moment, d: CivilDate) -> bool {
    -86400 < m.secs - ((day_number(d) + 1) * 86400 - 1) < 86400 && m.nanos == 0
}

/// A date means the end of its day, as the local clock shows it; where that
/// does not show it once, it is an error and nothing else.
pub proof fn a_date_means_the_end_of_its_day(
    expr: Seq<char>,
    d: CivilDate,
    now: LocalTime,
    t: Result<Option<Moment>, NoLocalTime>,
)
    requires
        valid_date(d),
        expr == date_text(d),
        reads_names(expr),
        is_target(expr, now, t),
    ensures
        t matches Ok(target) ==> (target matches Some(m) && ends_the_day(m, d)),
{
    let (exact, day_end) = choose|exact: Option<Moment>, day_end: Option<Moment>|
        {
            &&& is_exact_answer(expr, exact)
            &&& is_day_end_answer(reading_of(expr, now), day_end)
            &&& t == #[trigger] conclusion(exact, reading_of(expr, now), day_end)
        };
    assert(crate::calendar::parsed_date(expr, crate::calendar::DATE_FMT@) == Some(d));
    assert(exact is None);
    assert(reading_of(expr, now) == Reading::DayEnd(d));
}

/// Words lead to what they mean: an instant to itself, a day to its end, and
/// what is no time expression to no target.
pub proof fn words_lead_to_what_they_mean(
    expr: Seq<char>,
    now: LocalTime,
    t: Result<Option<Moment>, NoLocalTime>,
)
    requires
        !is_time_like(expr),
        reads_names(expr),
        is_target(expr, now, t),
    ensures
        match word_reading(expr, now) {
            Reading::Instant(m) => t == Ok::<Option<Moment>, NoLocalTime>(Some(m)),
            Reading::DayEnd(d) => t matches Ok(target) ==> (target matches Some(m) && ends_the_day(
                m,
                d,
            )),
            Reading::Nothing => t == Ok::<Option<Moment>, NoLocalTime>(None),
        },
{
    let (exact, day_end) = choose|exact: Option<Moment>, day_end: Option<Moment>|
        {
            &&& is_exact_answer(expr, exact)
            &&& is_day_end_answer(reading_of(expr, now), day_end)
            &&& t == #[trigger] conclusion(exact, reading_of(expr, now), day_end)
        };
    assert(exact is None);
    assert(reading_of(expr, now) == word_reading(expr, now));
}

/// An expression is out of reach exactly if the calendar does not reach that
/// far. Else it is an error only where its target is one, and leads by its
/// target to a directory or to none.
pub proof fn a_resolution_follows_the_target(
    snap_root: Seq<char>,
    expr: Seq<char>,
    now: LocalTime,
    entries: Option<Vec<Option<String>>>,
    is_dir: bool,
    r: Result<Option<String>, TimeError>,
)
    requires
        is_resolution(snap_root, expr, now, entries, is_dir, r),
    ensures
        r == Err::<Option<String>, TimeError>(TimeError::OutOfReach) <==> !is_in_reach(expr, now),
        r matches Ok(found) ==> exists|target: Option<Moment>|
            #![trigger is_target(expr, now, Ok(target))]
            is_target(expr, now, Ok(target)) && is_led_to(
                snap_root,
                expr,
                target,
                entries,
                is_dir,
                crate::text::opt_text(found),
            ),
        r == Err::<Option<String>, TimeError>(TimeError::NoLocalTime) ==> is_target(
            expr,
            now,
            Err(NoLocalTime),
        ),
{
    if is_in_reach(expr, now) {
        let t = choose|t: Result<Option<Moment>, NoLocalTime>| #[trigger]
            is_target(expr, now, t) && match t {
                Ok(target) => r is Ok && is_led_to(
                    snap_root,
                    expr,
                    target,
                    entries,
                    is_dir,
                    crate::text::opt_text(r->Ok_0),
                ),
                Err(_) => r == Err::<Option<String>, TimeError>(TimeError::NoLocalTime),
            };
        match t {
            Ok(target) => {
                assert(is_target(expr, now, Ok(target)));
            },
            Err(e) => {
                assert(e == NoLocalTime);
            },
        }
    }
}

} // verus!
