use flexi_tools::calchemy::Appt;
use flexi_tools::dates::{Date, DateTime, Time};

fn date(year: i32, month: u32, day: u32) -> Date {
    Date { year, month, day }
}

fn time(hour: u32, minute: u32) -> Time {
    Time { hour, minute }
}

#[test]
fn parse_all_day() {
    let a = Appt::parse("2026-12-25 Christmas").unwrap();
    assert_eq!(a.date, date(2026, 12, 25));
    assert_eq!(a.start, None);
    assert_eq!(a.end, None);
    assert_eq!(a.title, "Christmas");
}

#[test]
fn parse_start_only() {
    let a = Appt::parse("2026-07-14 09:00 Team sync").unwrap();
    assert_eq!(a.start, Some(time(9, 0)));
    assert_eq!(a.end, None);
    assert_eq!(a.title, "Team sync");
}

#[test]
fn parse_same_day_end() {
    let a = Appt::parse("2026-07-14 09:00 10:00 Dentist @clinic").unwrap();
    assert_eq!(a.start, Some(time(9, 0)));
    assert_eq!(a.end.unwrap(), DateTime { date: date(2026, 7, 14), time: time(10, 0) });
    assert_eq!(a.title, "Dentist @clinic");
}

#[test]
fn parse_cross_day_end() {
    let a = Appt::parse("2026-07-14 20:00 2026-07-15 02:00 Party").unwrap();
    assert_eq!(a.end.unwrap(), DateTime { date: date(2026, 7, 15), time: time(2, 0) });
}

#[test]
fn parse_multi_day_all_day() {
    let a = Appt::parse("2026-07-17 2026-07-20 Wedding").unwrap();
    assert_eq!(a.start, None);
    assert_eq!(a.end.unwrap(), DateTime { date: date(2026, 7, 20), time: time(0, 0) });
    assert_eq!(a.last_date(), date(2026, 7, 20));
    assert_eq!(a.title, "Wedding");
}

#[test]
fn parse_rejects_end_date_not_after_start() {
    assert!(Appt::parse("2026-07-17 2026-07-17 x").is_err());
    assert!(Appt::parse("2026-07-17 2026-07-16 x").is_err());
}

#[test]
fn parse_rejects_missing_title() {
    assert!(Appt::parse("2026-07-14 09:00").is_err());
    assert!(Appt::parse("2026-07-14").is_err());
}

#[test]
fn parse_rejects_bad_date() {
    assert!(Appt::parse("not-a-date x").is_err());
}

#[test]
fn storage_to_line_round_trips() {
    for line in [
        "2026-12-25 Christmas",
        "2026-07-14 09:00 Team sync",
        "2026-07-14 09:00 10:00 Dentist @clinic",
        "2026-07-14 20:00 2026-07-15 02:00 Party",
        "2026-07-17 2026-07-20 Wedding",
    ] {
        assert_eq!(Appt::parse(line).unwrap().to_line(), line);
    }
}

#[test]
fn start_dt_orders_all_day_first() {
    let allday = Appt::parse("2026-07-14 Holiday").unwrap();
    let timed = Appt::parse("2026-07-14 09:00 Standup").unwrap();
    assert!(allday.start_dt() < timed.start_dt());
}

#[test]
fn known_edge_case_title_swallows_leading_time_shaped_word() {
    let a = Appt::parse("2026-07-14 09:00 sync").unwrap();
    assert_eq!(a.start, Some(time(9, 0)));
    assert_eq!(a.title, "sync");
}

#[test]
fn known_edge_case_title_swallows_full_end_shape() {
    let a = Appt::parse("2026-07-14 09:00 2026-08-01 17:00 conference debrief").unwrap();
    assert_eq!(a.end.unwrap(), DateTime { date: date(2026, 8, 1), time: time(17, 0) });
    assert_eq!(a.title, "conference debrief");
}
