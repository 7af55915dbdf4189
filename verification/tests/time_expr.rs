use chrono::{DateTime, Datelike, Duration, Local, NaiveDate, TimeZone, Timelike};
use whenfs::calendar::{
    day_before, now_ts, turn_back, CivilDate, CivilTime, LocalTime, Moment, Weekday,
};
use whenfs::time_expr::{
    conclude, find_exact, find_nearest, format_snapshot_name, most_recent_past, parse_relative,
    parse_snapshot_name, pick_nearest, reaches, read_words, resolve, resolve_at, resolve_entry,
    resolve_target, weekday_from_str, NoLocalTime, Reading, TimeError, Unit, SNAPSHOT_FMT,
};

fn local(t: DateTime<Local>) -> LocalTime {
    LocalTime {
        moment: moment(t),
        civil: CivilTime {
            date: CivilDate {
                year: t.year(),
                month: t.month(),
                day: t.day(),
            },
            hour: t.hour(),
            minute: t.minute(),
            second: t.second(),
            nanos: t.nanosecond(),
        },
    }
}

fn moment(t: DateTime<Local>) -> Moment {
    Moment {
        secs: t.timestamp(),
        nanos: t.timestamp_subsec_nanos(),
    }
}

fn shown(m: Moment, fmt: &str) -> String {
    Local
        .timestamp_opt(m.secs, m.nanos)
        .unwrap()
        .format(fmt)
        .to_string()
}

fn fixed_now() -> DateTime<Local> {
    // A known Wednesday: 2026-08-19 12:00:00
    Local.with_ymd_and_hms(2026, 8, 19, 12, 0, 0).unwrap()
}

fn target(expr: &str) -> Option<Moment> {
    let now = local(fixed_now());
    assert!(reaches(expr, &now));
    resolve_target(expr, &now).unwrap()
}

fn date(year: i32, month: u32, day: u32) -> CivilDate {
    CivilDate { year, month, day }
}

#[test]
fn absolute_snapshot_name_roundtrips() {
    let dt = fixed_now();
    let name = format_snapshot_name(&local(dt));
    let resolved = target(&name).unwrap();
    assert_eq!(resolved, moment(dt));
}

#[test]
fn date_only_resolves_to_end_of_day() {
    let resolved = target("2026-08-01").unwrap();
    assert_eq!(shown(resolved, "%Y-%m-%d %H:%M:%S"), "2026-08-01 23:59:59");
}

#[test]
fn now_and_today_are_now() {
    let now = moment(fixed_now());
    assert_eq!(target("now").unwrap(), now);
    assert_eq!(target("today").unwrap(), now);
}

#[test]
fn yesterday_is_end_of_previous_day() {
    let resolved = target("yesterday").unwrap();
    assert_eq!(shown(resolved, "%Y-%m-%d %H:%M:%S"), "2026-08-18 23:59:59");
}

#[test]
fn relative_days_ago_subtracts_correctly() {
    let now = fixed_now();
    let resolved = target("3-days-ago").unwrap();
    assert_eq!(resolved, moment(now - Duration::days(3)));
}

#[test]
fn relative_combined_short_form() {
    let now = fixed_now();
    assert_eq!(target("2h-ago").unwrap(), moment(now - Duration::hours(2)));
    assert_eq!(
        target("30m-ago").unwrap(),
        moment(now - Duration::minutes(30))
    );
}

#[test]
fn last_month_goes_back_one_calendar_month() {
    let resolved = target("last-month").unwrap();
    assert_eq!(shown(resolved, "%Y-%m-%d"), "2026-07-19");
}

#[test]
fn bare_weekday_never_returns_today_even_if_it_matches() {
    // The fixed time is a Wednesday; "wednesday" must go back a full week,
    // not resolve to today.
    let resolved = target("wednesday").unwrap();
    assert_eq!(shown(resolved, "%Y-%m-%d"), "2026-08-12");
}

#[test]
fn last_weekday_prefix_form_matches_bare_form() {
    assert_eq!(target("last-tuesday"), target("tuesday"));
}

#[test]
fn unrecognized_expression_falls_through_to_none() {
    // callers use this to trigger the named-snapshot exact-match path
    assert_eq!(target("before-nginx-upgrade"), None);
}

#[test]
fn find_nearest_picks_newest_at_or_before_target() {
    let earlier = Local.with_ymd_and_hms(2026, 8, 19, 10, 0, 0).unwrap();
    let later = Local.with_ymd_and_hms(2026, 8, 19, 11, 0, 0).unwrap();
    let entries = vec![
        Some(format_snapshot_name(&local(earlier))),
        Some(format_snapshot_name(&local(later))),
    ];

    let target = Local.with_ymd_and_hms(2026, 8, 19, 10, 30, 0).unwrap();
    let found = find_nearest(&entries, moment(target)).unwrap();
    assert_eq!(found, format_snapshot_name(&local(earlier)));

    let target2 = Local.with_ymd_and_hms(2026, 8, 19, 12, 0, 0).unwrap();
    let found2 = find_nearest(&entries, moment(target2)).unwrap();
    assert_eq!(found2, format_snapshot_name(&local(later)));

    let target3 = Local.with_ymd_and_hms(2026, 8, 19, 9, 0, 0).unwrap();
    assert!(find_nearest(&entries, moment(target3)).is_none());
}

#[test]
fn every_form_of_the_path_grammar() {
    let now = local(fixed_now());
    let day = |y, m, d| Reading::DayEnd(date(y, m, d));
    let words = |e: &str| read_words(e, &now);
    assert_eq!(words("last-week"), day(2026, 8, 12));
    assert_eq!(words("last-year"), day(2025, 8, 19));
    assert_eq!(words("1-month-ago"), day(2026, 7, 19));
    assert_eq!(words("6-months-ago"), day(2026, 2, 19));
    assert_eq!(words("18mo-ago"), day(2025, 2, 19));
    assert_eq!(words("mon"), day(2026, 8, 17));
    assert_eq!(words("Tues"), day(2026, 8, 18));
    assert_eq!(words("WED"), day(2026, 8, 12));
    assert_eq!(words("thur"), day(2026, 8, 13));
    assert_eq!(words("last-friday"), day(2026, 8, 14));
    assert_eq!(words("sat"), day(2026, 8, 15));
    assert_eq!(words("sunday"), day(2026, 8, 16));
    assert_eq!(words("somewhen"), Reading::Nothing);
    assert_eq!(words("last-"), Reading::Nothing);
    assert_eq!(words("-ago"), Reading::Nothing);
    assert_eq!(words("days-ago"), Reading::Nothing);
    assert_eq!(words("3-fortnights-ago"), Reading::Nothing);
    assert_eq!(words("99999999999999999999-days-ago"), Reading::Nothing);
}

#[test]
fn counts_and_units_of_relative_expressions() {
    assert_eq!(parse_relative("3-days-ago"), Some((3, Unit::Day)));
    assert_eq!(parse_relative("+3-days-ago"), Some((3, Unit::Day)));
    assert_eq!(parse_relative("1-week-ago"), Some((1, Unit::Week)));
    assert_eq!(parse_relative("2w-ago"), Some((2, Unit::Week)));
    assert_eq!(parse_relative("5-hr-ago"), Some((5, Unit::Hour)));
    assert_eq!(parse_relative("90min-ago"), Some((90, Unit::Minute)));
    assert_eq!(parse_relative("0-m-ago"), Some((0, Unit::Minute)));
    assert_eq!(parse_relative("7mo-ago"), Some((7, Unit::Month)));
    assert_eq!(parse_relative("-3-days-ago"), None);
    assert_eq!(parse_relative("3 days ago"), None);
    assert_eq!(parse_relative("3-days"), None);
    assert_eq!(parse_relative("42-ago"), None);
}

#[test]
fn more_months_than_the_calendar_has_lead_nowhere() {
    let now = local(fixed_now());
    assert_eq!(read_words("4294967295-months-ago", &now), Reading::Nothing);
    assert_eq!(read_words("4294967297-months-ago", &now), Reading::Nothing);
    assert_eq!(
        read_words("9223372036854775807-months-ago", &now),
        Reading::Nothing
    );
    assert_eq!(
        read_words("24000-months-ago", &now),
        Reading::DayEnd(date(26, 8, 19))
    );
    assert_eq!(read_words("4000000-months-ago", &now), Reading::Nothing);
}

#[test]
fn shorter_months_end_the_count_on_their_last_day() {
    let at = |y, m, d| {
        local(Local.with_ymd_and_hms(y, m, d, 12, 0, 0).unwrap())
    };
    assert_eq!(
        read_words("last-month", &at(2026, 3, 31)),
        Reading::DayEnd(date(2026, 2, 28))
    );
    assert_eq!(
        read_words("last-month", &at(2024, 3, 31)),
        Reading::DayEnd(date(2024, 2, 29))
    );
    assert_eq!(
        read_words("last-year", &at(2024, 2, 29)),
        Reading::DayEnd(date(2023, 2, 28))
    );
    assert_eq!(
        read_words("last-month", &at(2026, 1, 15)),
        Reading::DayEnd(date(2025, 12, 15))
    );
}

#[test]
fn expressions_that_leave_the_calendar_are_told_apart() {
    let now = local(fixed_now());
    assert!(reaches("1000000-days-ago", &now));
    assert!(!reaches("1000000000-days-ago", &now));
    assert!(!reaches("9223372036854775807-weeks-ago", &now));
    assert!(reaches("9223372036854775807-months-ago", &now));
    assert!(reaches("friday", &now));
    assert!(reaches("no time at all", &now));
}

#[test]
fn days_are_counted_across_months_years_and_leap_days() {
    assert_eq!(day_before(date(2026, 3, 1), 1), date(2026, 2, 28));
    assert_eq!(day_before(date(2024, 3, 1), 1), date(2024, 2, 29));
    assert_eq!(day_before(date(2000, 3, 1), 1), date(2000, 2, 29));
    assert_eq!(day_before(date(1900, 3, 1), 1), date(1900, 2, 28));
    assert_eq!(day_before(date(2026, 1, 1), 365), date(2025, 1, 1));
    assert_eq!(day_before(date(1970, 1, 1), 719162), date(1, 1, 1));
    assert_eq!(day_before(date(1, 1, 1), 1), date(0, 12, 31));
    assert_eq!(day_before(date(-262143, 1, 8), 7), date(-262143, 1, 1));
}

/// The number of a day by the same formula as the library states it.
fn number(d: NaiveDate) -> i64 {
    let leap = |y: i64| y.div_euclid(4) - y.div_euclid(100) + y.div_euclid(400);
    let y = d.year() as i64;
    365 * (y - 1970) + leap(y - 1) - leap(1969) + d.ordinal0() as i64
}

#[test]
fn the_calendar_is_the_one_of_the_outside_library() {
    let epoch = NaiveDate::from_ymd_opt(1970, 1, 1).unwrap();
    for n in (-1_000_000..1_000_000).step_by(977) {
        let d = epoch + Duration::days(n);
        assert_eq!(number(d), n);
        let w = (n + 3).rem_euclid(7);
        assert_eq!(d.weekday().num_days_from_monday() as i64, w);
    }
    assert_eq!(number(NaiveDate::MIN), -96465292);
    assert_eq!(NaiveDate::MIN.year(), -262143);
    assert_eq!(NaiveDate::MAX.year(), 262142);
    assert_eq!(DateTime::<chrono::Utc>::MIN_UTC.timestamp(), -8334601228800);
    assert_eq!(DateTime::<chrono::Utc>::MAX_UTC.timestamp(), 8210266876799);
}

#[test]
fn the_last_weekday_before_a_day() {
    // 2026-08-19 is a Wednesday.
    let d = date(2026, 8, 19);
    assert_eq!(most_recent_past(Weekday::Wed, d), date(2026, 8, 12));
    assert_eq!(most_recent_past(Weekday::Tue, d), date(2026, 8, 18));
    assert_eq!(most_recent_past(Weekday::Thu, d), date(2026, 8, 13));
}

#[test]
fn the_clock_is_turned_back() {
    let at = |d, hour, minute, second| CivilTime {
        date: d,
        hour,
        minute,
        second,
        nanos: 0,
    };
    let d = date(2024, 3, 1);
    assert_eq!(turn_back(at(d, 12, 0, 31), 30), at(d, 12, 0, 1));
    assert_eq!(turn_back(at(d, 12, 0, 5), 30), at(d, 11, 59, 35));
    assert_eq!(turn_back(at(d, 0, 0, 5), 30), at(date(2024, 2, 29), 23, 59, 35));
    let first = date(-262143, 1, 1);
    assert_eq!(turn_back(at(first, 0, 0, 5), 30), at(first, 0, 0, 0));
}

#[test]
fn names_have_four_digits_or_a_sign() {
    let at = |year| {
        let mut t = local(fixed_now());
        let civil = CivilTime {
            date: date(year, 2, 3),
            hour: 4,
            minute: 5,
            second: 6,
            nanos: 0,
        };
        // The instant of the same time in universal time.
        let n = NaiveDate::from_ymd_opt(year, 2, 3).unwrap();
        t.civil = civil;
        t.moment = Moment {
            secs: number(n) * 86400 + 4 * 3600 + 5 * 60 + 6,
            nanos: 0,
        };
        format_snapshot_name(&t)
    };
    assert_eq!(at(2026), "2026-02-03T04-05-06");
    assert_eq!(at(7), "0007-02-03T04-05-06");
    assert_eq!(at(0), "0000-02-03T04-05-06");
    assert_eq!(at(-5), "-0005-02-03T04-05-06");
    assert_eq!(at(-9999), "-9999-02-03T04-05-06");
    assert_eq!(at(-12345), "-12345-02-03T04-05-06");
    assert_eq!(at(10000), "+10000-02-03T04-05-06");
    assert_eq!(at(262142), "+262142-02-03T04-05-06");
}

#[test]
fn names_of_odd_years_and_leap_seconds_read_back() {
    for text in [
        "0007-02-03T04-05-06",
        "-0005-02-03T04-05-06",
        "-12345-02-03T04-05-06",
        "+10000-02-03T04-05-06",
    ] {
        let naive = chrono::NaiveDateTime::parse_from_str(text, SNAPSHOT_FMT).unwrap();
        assert_eq!(naive.format(SNAPSHOT_FMT).to_string(), text);
        assert!(parse_snapshot_name(text).is_some());
    }
    let leap = chrono::NaiveDateTime::parse_from_str("2016-12-31T23-59-60", SNAPSHOT_FMT).unwrap();
    assert_eq!((leap.second(), leap.nanosecond()), (59, 1_000_000_000));
    assert_eq!(leap.format(SNAPSHOT_FMT).to_string(), "2016-12-31T23-59-60");
    assert_eq!(
        parse_snapshot_name("2016-12-31T23-59-60").unwrap().nanos,
        1_000_000_000
    );
}

#[test]
fn texts_with_other_letters_are_no_times() {
    for text in ["now", "2026-08-19t12-00-00", "2026-Aug-19", "x2026-08-19", "2026-08-19x", ""] {
        assert!(chrono::NaiveDateTime::parse_from_str(text, SNAPSHOT_FMT).is_err());
        assert!(NaiveDate::parse_from_str(text, "%Y-%m-%d").is_err());
        assert_eq!(parse_snapshot_name(text), None);
    }
    // A date has no letter at all.
    assert!(NaiveDate::parse_from_str("2026-08-19T", "%Y-%m-%d").is_err());
}

#[test]
fn names_sort_like_times_do() {
    let mut last = String::new();
    for h in 0..60 {
        let t = fixed_now() + Duration::seconds(h * 86_399);
        let name = format_snapshot_name(&local(t));
        assert!(last < name, "{last} {name}");
        last = name;
    }
}

#[test]
fn the_first_of_several_nearest_is_taken() {
    let at = |s| Some(Moment { secs: s, nanos: 0 });
    let t = Moment { secs: 10, nanos: 5 };
    assert_eq!(pick_nearest(&vec![], t), None);
    assert_eq!(pick_nearest(&vec![at(11), None], t), None);
    assert_eq!(pick_nearest(&vec![at(3), at(10), at(7), at(10)], t), Some(1));
    assert_eq!(
        pick_nearest(&vec![Some(Moment { secs: 10, nanos: 6 }), at(1)], t),
        Some(1)
    );
    assert_eq!(
        pick_nearest(&vec![at(1), Some(Moment { secs: 10, nanos: 5 })], t),
        Some(1)
    );
}

#[test]
fn an_entry_that_is_no_snapshot_makes_no_difference() {
    let t = moment(fixed_now());
    let name = || Some("2026-08-18T00-00-00".to_string());
    assert_eq!(find_nearest(&vec![name()], t), name());
    assert_eq!(
        find_nearest(&vec![name(), Some("lost+found".into())], t),
        name()
    );
    assert_eq!(find_nearest(&vec![name(), None], t), name());
    assert_eq!(find_nearest(&vec![None, name(), None], t), name());
    assert_eq!(find_nearest(&vec![None], t), None);
}

#[test]
fn the_time_zone_decides_last() {
    let m = Moment { secs: 1, nanos: 2 };
    let n = Moment { secs: 3, nanos: 4 };
    let day = Reading::DayEnd(date(2026, 1, 1));
    assert_eq!(conclude(Some(m), Reading::Nothing, None), Ok(Some(m)));
    assert_eq!(conclude(None, Reading::Nothing, Some(n)), Ok(None));
    assert_eq!(conclude(None, Reading::Instant(n), None), Ok(Some(n)));
    assert_eq!(conclude(None, day, Some(n)), Ok(Some(n)));
    assert_eq!(conclude(None, day, None), Err(NoLocalTime));
}

#[test]
fn resolving_leads_to_a_directory() {
    let entries = Some(vec![
        Some("2020-01-01T00-00-00".to_string()),
        Some("2021-01-01T00-00-00".to_string()),
        Some("before-upgrade".to_string()),
    ]);
    assert_eq!(
        resolve("/snap", "now", &entries, false),
        Ok(Some("/snap/2021-01-01T00-00-00".to_string()))
    );
    assert_eq!(
        resolve("/snap", "2020-06-01", &entries, false),
        Ok(Some("/snap/2020-01-01T00-00-00".to_string()))
    );
    assert_eq!(
        resolve("/snap", "before-upgrade", &entries, true),
        Ok(Some("/snap/before-upgrade".to_string()))
    );
    assert_eq!(resolve("/snap", "before-other", &entries, false), Ok(None));
    assert_eq!(resolve("/snap", "now", &None, true), Ok(None));
    assert_eq!(
        resolve("/snap", "9999999999-days-ago", &entries, false),
        Err(TimeError::OutOfReach)
    );
    let now = local(fixed_now());
    let at = |expr: &str, is_dir| resolve_at("/snap", expr, &now, &entries, is_dir);
    assert_eq!(at("today", false), Ok(Some("/snap/2021-01-01T00-00-00".to_string())));
    // A time expression is not looked up as a name, whatever there is.
    assert_eq!(at("2019-06-01", true), Ok(None));
    assert_eq!(
        at("2020-01-01T00-00-00", true),
        Ok(Some("/snap/2020-01-01T00-00-00".to_string()))
    );
    assert_eq!(at("2020-01-01", true), Ok(Some("/snap/2020-01-01T00-00-00".to_string())));
    assert_eq!(at("before-upgrade", true), Ok(Some("/snap/before-upgrade".to_string())));
    assert_eq!(at("9999999999-days-ago", true), Err(TimeError::OutOfReach));
    let t = Some(Moment { secs: 0, nanos: 0 });
    assert_eq!(resolve_entry("/snap", "x", t, &entries, true), None);
    assert_eq!(
        resolve_entry("/snap", "x", None, &entries, true),
        Some("/snap/x".to_string())
    );
    assert_eq!(find_exact("/snap", "x", true), Some("/snap/x".to_string()));
    assert_eq!(find_exact("/snap", "x", false), None);
}

#[test]
fn the_current_time_is_a_snapshot_name() {
    let before = Local::now() - Duration::seconds(1);
    let name = now_ts();
    let after = Local::now() + Duration::seconds(1);
    assert_eq!(name.len(), 19);
    assert!(before.format(SNAPSHOT_FMT).to_string() <= name);
    assert!(name <= after.format(SNAPSHOT_FMT).to_string());
    assert!(parse_snapshot_name(&name).is_some());
}

#[test]
fn no_letter_outside_ascii_becomes_part_of_a_weekday() {
    // The lower case of a character is an ASCII text only for ASCII
    // characters and one sign that is no letter of a weekday.
    for c in '\u{80}'..=char::MAX {
        let low: String = c.to_lowercase().collect();
        if low.is_ascii() {
            assert_eq!(low, "k");
        }
    }
    assert_eq!(weekday_from_str("SunDay"), Some(Weekday::Sun));
    assert_eq!(weekday_from_str("sunda\u{131}"), None);
    assert_eq!(weekday_from_str("fr\u{130}day"), None);
    assert_eq!(weekday_from_str(""), None);
}
