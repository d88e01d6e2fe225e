use chrono::{Datelike, Local, NaiveDateTime, TimeZone, Timelike};
use hocus_focus::config::{Rule, Schedule};
use hocus_focus::scheduler::{
    allowed_weekdays, get_blocked_domains, in_window, parse_weekday, LocalMoment, TimeOfDay, Weekday,
};

/// The day of the week and the time of day of a local date and time.
fn moment(dt: NaiveDateTime) -> LocalMoment {
    let weekday = match dt.weekday() {
        chrono::Weekday::Mon => Weekday::Mon,
        chrono::Weekday::Tue => Weekday::Tue,
        chrono::Weekday::Wed => Weekday::Wed,
        chrono::Weekday::Thu => Weekday::Thu,
        chrono::Weekday::Fri => Weekday::Fri,
        chrono::Weekday::Sat => Weekday::Sat,
        chrono::Weekday::Sun => Weekday::Sun,
    };
    LocalMoment { weekday, time: TimeOfDay { secs: dt.num_seconds_from_midnight(), nanos: dt.nanosecond() } }
}

fn at(weekday: Weekday, time: TimeOfDay) -> LocalMoment {
    LocalMoment { weekday, time }
}

fn create_test_schedule(days: &[&str], start: &str, end: &str) -> Schedule {
    Schedule {
        days: days.iter().map(|s| s.to_string()).collect(),
        start: start.to_string(),
        end: end.to_string(),
    }
}

fn hm(h: u32, m: u32) -> TimeOfDay {
    TimeOfDay { secs: h * 3600 + m * 60, nanos: 0 }
}

#[test]
fn test_normal_schedule() {
    let schedule = create_test_schedule(&["Mon", "Wed", "Fri"], "09:00", "17:00");
    let monday_10am = Local.with_ymd_and_hms(2026, 6, 8, 10, 0, 0).unwrap().naive_local();
    assert!(schedule.is_active_at(&moment(monday_10am)));
    let monday_6pm = Local.with_ymd_and_hms(2026, 6, 8, 18, 0, 0).unwrap().naive_local();
    assert!(!schedule.is_active_at(&moment(monday_6pm)));
    let tuesday_10am = Local.with_ymd_and_hms(2026, 6, 9, 10, 0, 0).unwrap().naive_local();
    assert!(!schedule.is_active_at(&moment(tuesday_10am)));
}

#[test]
fn test_cross_midnight_schedule() {
    let schedule = create_test_schedule(&["Mon", "Tue"], "22:00", "06:00");
    let monday_11pm = Local.with_ymd_and_hms(2026, 6, 8, 23, 0, 0).unwrap().naive_local();
    assert!(schedule.is_active_at(&moment(monday_11pm)));
    let tuesday_2am = Local.with_ymd_and_hms(2026, 6, 9, 2, 0, 0).unwrap().naive_local();
    assert!(schedule.is_active_at(&moment(tuesday_2am)));
    let wednesday_2am = Local.with_ymd_and_hms(2026, 6, 10, 2, 0, 0).unwrap().naive_local();
    assert!(schedule.is_active_at(&moment(wednesday_2am)));
    let thursday_2am = Local.with_ymd_and_hms(2026, 6, 11, 2, 0, 0).unwrap().naive_local();
    assert!(!schedule.is_active_at(&moment(thursday_2am)));
}

#[test]
fn weekday_names_in_any_case() {
    assert_eq!(parse_weekday("Mon"), Some(Weekday::Mon));
    assert_eq!(parse_weekday("MONDAY"), Some(Weekday::Mon));
    assert_eq!(parse_weekday("tUeSdAy"), Some(Weekday::Tue));
    assert_eq!(parse_weekday("wed"), Some(Weekday::Wed));
    assert_eq!(parse_weekday("Thursday"), Some(Weekday::Thu));
    assert_eq!(parse_weekday("FRI"), Some(Weekday::Fri));
    assert_eq!(parse_weekday("saturday"), Some(Weekday::Sat));
    assert_eq!(parse_weekday("Sun"), Some(Weekday::Sun));
    assert_eq!(parse_weekday("Mo"), None);
    assert_eq!(parse_weekday(" Mon"), None);
    assert_eq!(parse_weekday("Mondays"), None);
    assert_eq!(parse_weekday(""), None);
    assert_eq!(parse_weekday("FR\u{130}DAY"), None);
}

#[test]
fn weekday_names_agree_with_unicode_lowercasing() {
    let names = ["mon", "monday", "tue", "tuesday", "wed", "wednesday", "thu", "thursday", "fri", "friday", "sat", "saturday", "sun", "sunday"];
    let samples = [
        "MON", "Friday", "FRİDAY", "SUNDAY", "SuN", "\u{212A}", "mön", "Tue ", "WEDNESDAY", "thurs",
    ];
    for s in samples {
        let by_std = names.contains(&s.to_lowercase().as_str());
        assert_eq!(parse_weekday(s).is_some(), by_std, "{}", s);
    }
}

#[test]
fn weekday_before() {
    assert_eq!(Weekday::Mon.pred(), Weekday::Sun);
    assert_eq!(Weekday::Sun.pred(), Weekday::Sat);
    assert_eq!(Weekday::Thu.pred(), Weekday::Wed);
}

#[test]
fn day_list_skips_unknown_names() {
    let days: Vec<String> = ["Mon", "Funday", "fri"].iter().map(|s| s.to_string()).collect();
    assert_eq!(allowed_weekdays(&days), vec![Weekday::Mon, Weekday::Fri]);
}

#[test]
fn schedule_times_parse_as_hours_and_minutes() {
    let s = create_test_schedule(&[], "09:00", "7:15");
    assert_eq!(s.start_time().unwrap(), hm(9, 0));
    assert_eq!(s.end_time().unwrap(), hm(7, 15));
    assert!(create_test_schedule(&[], "17:60", "09:00").start_time().is_err());
    assert!(create_test_schedule(&[], "24:00", "09:00").start_time().is_err());
    assert!(create_test_schedule(&[], "noon", "09:00").start_time().is_err());
}

#[test]
fn window_bounds_are_inclusive() {
    let days = vec![Weekday::Mon];
    assert!(in_window(hm(9, 0), hm(17, 0), &days, Weekday::Mon, hm(9, 0)));
    assert!(in_window(hm(9, 0), hm(17, 0), &days, Weekday::Mon, hm(17, 0)));
    assert!(!in_window(hm(9, 0), hm(17, 0), &days, Weekday::Mon, TimeOfDay { secs: 17 * 3600, nanos: 1 }));
    assert!(!in_window(hm(9, 0), hm(17, 0), &days, Weekday::Mon, hm(8, 59)));
    assert!(!in_window(hm(9, 0), hm(17, 0), &days, Weekday::Tue, hm(12, 0)));
}

#[test]
fn overnight_window_runs_into_next_day() {
    let days = vec![Weekday::Sun];
    assert!(in_window(hm(22, 30), hm(6, 0), &days, Weekday::Sun, hm(23, 0)));
    assert!(in_window(hm(22, 30), hm(6, 0), &days, Weekday::Mon, hm(5, 59)));
    assert!(!in_window(hm(22, 30), hm(6, 0), &days, Weekday::Mon, hm(23, 0)));
    assert!(!in_window(hm(22, 30), hm(6, 0), &days, Weekday::Sun, hm(5, 0)));
}

#[test]
fn schedule_without_days_holds_every_day() {
    let s = create_test_schedule(&[], "09:00", "17:00");
    for d in [Weekday::Mon, Weekday::Wed, Weekday::Sun] {
        assert!(s.is_active_at(&at(d, hm(12, 0))));
        assert!(!s.is_active_at(&at(d, hm(18, 0))));
    }
    let unknown = create_test_schedule(&["Funday"], "09:00", "17:00");
    assert!(unknown.is_active_at(&at(Weekday::Sat, hm(10, 0))));
}

#[test]
fn schedule_with_bad_time_is_never_active() {
    let s = create_test_schedule(&["Mon"], "9am", "17:00");
    assert!(!s.is_active_at(&at(Weekday::Mon, hm(12, 0))));
    let s = create_test_schedule(&["Mon"], "09:00", "25:00");
    assert!(!s.is_active_at(&at(Weekday::Mon, hm(12, 0))));
}

fn rule(name: &str, domains: &[&str], schedules: Vec<Schedule>) -> Rule {
    Rule {
        name: name.to_string(),
        domains: domains.iter().map(|s| s.to_string()).collect(),
        schedules,
    }
}

#[test]
fn rule_active_when_any_schedule_is() {
    let r = rule(
        "work",
        &["x.com"],
        vec![
            create_test_schedule(&["Mon"], "09:00", "12:00"),
            create_test_schedule(&["Mon"], "13:00", "17:00"),
        ],
    );
    assert!(r.is_active_at(&at(Weekday::Mon, hm(10, 0))));
    assert!(!r.is_active_at(&at(Weekday::Mon, hm(12, 30))));
    assert!(r.is_active_at(&at(Weekday::Mon, hm(14, 0))));
    assert!(!rule("none", &["x.com"], vec![]).is_active_at(&at(Weekday::Mon, hm(10, 0))));
    let monday_10am = Local.with_ymd_and_hms(2026, 6, 8, 10, 0, 0).unwrap().naive_local();
    assert!(r.is_active_at(&moment(monday_10am)));
}

#[test]
fn blocked_domains_are_those_of_active_rules() {
    let rules = vec![
        rule("work", &["x.com", "reddit.com"], vec![create_test_schedule(&["Mon"], "09:00", "17:00")]),
        rule("night", &["youtube.com", "x.com"], vec![create_test_schedule(&[], "22:30", "06:00")]),
    ];
    let at_ten = get_blocked_domains(&rules, &at(Weekday::Mon, hm(10, 0)));
    assert_eq!(at_ten.to_vec(), vec!["reddit.com".to_string(), "x.com".to_string()]);
    let at_night = get_blocked_domains(&rules, &at(Weekday::Tue, hm(23, 0)));
    assert_eq!(at_night.to_vec(), vec!["x.com".to_string(), "youtube.com".to_string()]);
    let at_noon_sat = get_blocked_domains(&rules, &at(Weekday::Sat, hm(12, 0)));
    assert!(at_noon_sat.is_empty());
    let monday_10am = Local.with_ymd_and_hms(2026, 6, 8, 10, 0, 0).unwrap().naive_local();
    assert_eq!(get_blocked_domains(&rules, &moment(monday_10am)).to_vec(), at_ten.to_vec());
}

#[test]
fn times_follow_the_hour_minute_rule() {
    let t = |s: &str| create_test_schedule(&[], s, "00:00").start_time().ok();
    assert_eq!(t(" 09: 05"), Some(hm(9, 5)));
    assert_eq!(t("9:5"), Some(hm(9, 5)));
    assert_eq!(t("23:59"), Some(hm(23, 59)));
    assert_eq!(t("00:00"), Some(hm(0, 0)));
    assert_eq!(t("09:00 "), None);
    assert_eq!(t("009:00"), None);
    assert_eq!(t("123:00"), None);
    assert_eq!(t("09 :00"), None);
    assert_eq!(t("09:"), None);
    assert_eq!(t(""), None);
}

#[test]
fn moment_of_a_date_is_its_weekday_and_time() {
    let dt = Local.with_ymd_and_hms(2026, 6, 14, 7, 30, 15).unwrap().naive_local();
    assert_eq!(moment(dt), at(Weekday::Sun, TimeOfDay { secs: 7 * 3600 + 30 * 60 + 15, nanos: 0 }));
    let s = create_test_schedule(&["Sun"], "07:00", "08:00");
    assert!(s.is_active_at(&moment(dt)));
    assert!(!s.is_active_at(&at(Weekday::Sat, moment(dt).time)));
}
