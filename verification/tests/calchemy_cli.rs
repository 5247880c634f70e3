//! The calchemy command-line scenarios, run through the library on a
//! calendar file held in memory.
use chrono::{Datelike, Duration, Local, NaiveDate, Timelike};
use flexi_tools::calchemy::read_appts;
use flexi_tools::calchemy_cmd::{
    add_appt, agenda, filter_window, list_view, next_appt, nth_appt, render_inline, select,
    AddError, ApptFilter, Selection,
};
use flexi_tools::dates::{Date, DateTime, Time, WeekStart};
use flexi_tools::lines::remove_line;

fn cal_day(offset: i64) -> String {
    (Local::now().date_naive() + Duration::days(offset)).format("%Y-%m-%d").to_string()
}

fn cal_today() -> Date {
    let t = Local::now().date_naive();
    Date { year: t.year(), month: t.month(), day: t.day() }
}

fn blank_filter() -> ApptFilter {
    ApptFilter { today: false, week: false, month: false, since: None, until: None, all: false, past: false }
}

fn cal_add(file: &mut String, date: &str, rest: &[&str]) -> Result<(), AddError> {
    let rest: Vec<String> = rest.iter().map(|w| w.to_string()).collect();
    let a = add_appt(date, &rest)?;
    file.push_str(&a.to_line());
    file.push('\n');
    Ok(())
}

fn cal_list(file: &str, f: &ApptFilter, tags: &[&str]) -> String {
    let today = cal_today();
    let (since, until) = filter_window(WeekStart::Monday, f, today).unwrap();
    let queries: Vec<String> = tags.iter().map(|t| t.to_string()).collect();
    let view = select(&read_appts(file).unwrap(), list_view(f, since, until, today), &queries, today);
    if view.is_empty() {
        return "no appointments\n".to_string();
    }
    view.iter().enumerate().map(|(i, a)| format!("{}  {}\n", i + 1, render_inline(a))).collect()
}

fn cal_agenda(file: &str) -> String {
    let today = cal_today();
    let todays = select(&read_appts(file).unwrap(), Selection::Window(Some(today), Some(today)), &[], today);
    if todays.is_empty() {
        return "no appointments today\n".to_string();
    }
    let (rows, width) = agenda(&todays);
    let mut out = format!("{} (today)\n", cal_day(0));
    for r in rows {
        out.push_str(&format!("  {:<width$}  {}\n", r.col, r.title, width = width));
    }
    out
}

fn cal_upcoming(file: &str) -> Vec<flexi_tools::calchemy::Appt> {
    let today = cal_today();
    select(&read_appts(file).unwrap(), Selection::Window(Some(today), None), &[], today)
}

fn cal_next(file: &str) -> String {
    let now = Local::now();
    let at = DateTime { date: cal_today(), time: Time { hour: now.hour(), minute: now.minute() } };
    match next_appt(&cal_upcoming(file), at) {
        None => "no upcoming appointments\n".to_string(),
        Some(a) => format!("next: {}\n", render_inline(&a)),
    }
}


#[test]
fn calchemy_add_writes_canonical_lines() {
    let mut file = String::new();
    cal_add(&mut file, "2026-12-25", &["Christmas"]).unwrap();
    cal_add(&mut file, "2026-07-14", &["09:00", "Team", "sync"]).unwrap();
    cal_add(&mut file, "2026-07-14", &["09:00-10:00", "Dentist", "@clinic"]).unwrap();
    cal_add(&mut file, "2026-07-14", &["20:00-02:00", "Party"]).unwrap();
    assert!(file.contains("2026-12-25 Christmas"), "{file}");
    assert!(file.contains("2026-07-14 09:00 Team sync"), "{file}");
    assert!(file.contains("2026-07-14 09:00 10:00 Dentist @clinic"), "{file}");
    assert!(file.contains("2026-07-14 20:00 2026-07-15 02:00 Party"), "cross-day end: {file}");
}

#[test]
fn multi_day_all_day_spans() {
    let mut file = String::new();
    cal_add(&mut file, &cal_day(-1), &[&cal_day(1), "Wedding"]).unwrap();
    assert!(file.contains(&format!("{} {} Wedding", cal_day(-1), cal_day(1))), "{file}");
    assert!(cal_agenda(&file).contains("Wedding"));
    assert!(cal_list(&file, &blank_filter(), &[]).contains("Wedding"));
    assert!(cal_list(&file, &ApptFilter { week: true, ..blank_filter() }, &[]).contains("Wedding"));
    let past = cal_list(&file, &ApptFilter { past: true, ..blank_filter() }, &[]);
    assert!(!past.contains("Wedding"), "{past}");
}

#[test]
fn add_timed_multi_day() {
    let mut file = String::new();
    cal_add(&mut file, "2026-07-17", &["09:00", "2026-07-20", "17:00", "Conference"]).unwrap();
    cal_add(&mut file, "2026-08-01", &["09:00", "2026-08-01", "10:00", "Sameday"]).unwrap();
    cal_add(&mut file, "2026-09-01", &["09:00", "2026-09-02", "deadline"]).unwrap();
    assert!(file.contains("2026-07-17 09:00 2026-07-20 17:00 Conference"), "{file}");
    assert!(file.contains("2026-08-01 09:00 10:00 Sameday"), "{file}");
    assert!(file.contains("2026-09-01 09:00 2026-09-02 deadline"), "{file}");
}

#[test]
fn add_timed_multi_day_rejects_end_before_start() {
    let mut file = String::new();
    let r = cal_add(&mut file, "2026-07-17", &["09:00", "2026-07-16", "17:00", "Backwards"]);
    assert_eq!(r, Err(AddError::EndNotAfterStart));
}

#[test]
fn add_rejects_end_date_not_after_start() {
    let mut file = String::new();
    assert_eq!(cal_add(&mut file, "2026-07-17", &["2026-07-16", "Backwards"]), Err(AddError::EndNotAfterStart));
}

#[test]
fn add_requires_title() {
    let mut file = String::new();
    assert_eq!(cal_add(&mut file, "2026-07-14", &["09:00"]), Err(AddError::NoTitle));
}

#[test]
fn bare_shows_today_agenda() {
    let file = format!("{} 14:00 Team sync\n{} 09:00 Standup\n{} Future thing\n", cal_day(0), cal_day(0), cal_day(3));
    let o = cal_agenda(&file);
    assert!(o.contains("(today)"), "{o}");
    assert!(o.find("Standup").unwrap() < o.find("Team sync").unwrap(), "{o}");
    assert!(!o.contains("Future thing"), "{o}");
}

#[test]
fn list_default_hides_past() {
    let file = format!("{} Past\n{} Future\n", cal_day(-5), cal_day(2));
    let o = cal_list(&file, &blank_filter(), &[]);
    assert!(o.contains("Future"), "{o}");
    assert!(!o.contains("Past"), "{o}");
}

#[test]
fn list_all_and_past_views() {
    let file = format!("{} Past\n{} Future\n", cal_day(-5), cal_day(2));
    let all = cal_list(&file, &ApptFilter { all: true, ..blank_filter() }, &[]);
    assert!(all.contains("Past") && all.contains("Future"), "{all}");
    let past = cal_list(&file, &ApptFilter { past: true, ..blank_filter() }, &[]);
    assert!(past.contains("Past") && !past.contains("Future"), "{past}");
}

#[test]
fn next_picks_soonest_upcoming() {
    let file = format!("{} 09:00 Later\n{} 09:00 Sooner\n", cal_day(3), cal_day(1));
    let o = cal_next(&file);
    assert!(o.contains("Sooner"), "{o}");
    assert!(!o.contains("Later"), "{o}");
}

#[test]
fn week_filter_is_full_week() {
    let file = format!("{} ThisWeek\n{} NextWeek\n", cal_day(0), cal_day(8));
    let o = cal_list(&file, &ApptFilter { week: true, ..blank_filter() }, &[]);
    assert!(o.contains("ThisWeek"), "{o}");
    assert!(!o.contains("NextWeek"), "{o}");
}

#[test]
fn month_filter_is_full_month() {
    let today = Local::now().date_naive();
    let first = NaiveDate::from_ymd_opt(today.year(), today.month(), 1).unwrap().format("%Y-%m-%d").to_string();
    let file = format!("{first} ThisMonth\n{} NextMonthish\n", cal_day(40));
    let o = cal_list(&file, &ApptFilter { month: true, ..blank_filter() }, &[]);
    assert!(o.contains("ThisMonth"), "{o}");
    assert!(!o.contains("NextMonthish"), "{o}");
}

#[test]
fn rm_by_index_removes_and_preserves_order() {
    let file = format!("{} 09:00 First\n{} 10:00 Second\n{} 11:00 Third\n", cal_day(1), cal_day(1), cal_day(1));
    let target = nth_appt(&cal_upcoming(&file), 2).unwrap();
    assert!(render_inline(&target).contains("Second"));
    let file = remove_line(&file, &target.raw);
    assert!(file.contains("First") && file.contains("Third"), "{file}");
    assert!(!file.contains("Second"), "{file}");
    assert!(file.find("First").unwrap() < file.find("Third").unwrap(), "{file}");
}

#[test]
fn rm_bad_index_errors() {
    let file = format!("{} 09:00 Only\n", cal_day(1));
    assert!(nth_appt(&cal_upcoming(&file), 5).is_none());
}

#[test]
fn calchemy_empty_states() {
    assert_eq!(cal_agenda(""), "no appointments today\n");
    assert_eq!(cal_next(""), "no upcoming appointments\n");
    assert_eq!(cal_list("", &blank_filter(), &[]), "no appointments\n");
}

#[test]
fn calchemy_list_filters_by_tag() {
    let file = format!("{} Dentist @clinic\n{} Standup\n", cal_day(1), cal_day(1));
    let tagged = cal_list(&file, &blank_filter(), &["@clinic"]);
    assert!(tagged.contains("Dentist"), "{tagged}");
    assert!(!tagged.contains("Standup"), "{tagged}");
    let upper = cal_list(&file, &blank_filter(), &["@CLINIC"]);
    assert!(upper.contains("Dentist"), "{upper}");
}

#[test]
fn tag_filter_composes_as_and_with_date_window() {
    let file = format!("{} Standup @clinic\n{} Sync\n{} Checkup @clinic\n", cal_day(0), cal_day(0), cal_day(3));
    let o = cal_list(&file, &ApptFilter { today: true, ..blank_filter() }, &["@clinic"]);
    assert!(o.contains("Standup"), "{o}");
    assert!(!o.contains("Sync"), "{o}");
    assert!(!o.contains("Checkup"), "{o}");
}
