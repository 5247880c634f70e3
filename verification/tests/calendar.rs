use flexi_tools::calchemy::{read_appts, sorted, Appt, ApptError};
use flexi_tools::calchemy_cmd::{
    add_appt, agenda, filter_window as appt_window, list_view, month_end, next_appt, nth_appt,
    parse_time_arg, relative_day, render_inline, resolve as resolve_calchemy, select, time_col,
    AddError as ApptAddError, ApptFilter, ConfigError as CalConfigError, RawConfig as CalRaw,
    Selection, WindowError, window_fits as appt_window_fits,
};
use flexi_tools::dates::{Date, DateTime, Time, WeekStart};
use flexi_tools::logview::{filter_window as log_window, window_fits as log_window_fits, LogFilter};
use flexi_tools::holler::{reserved_tag, Contact, ContactError};
use flexi_tools::holler_cmd::{
    all_sorted as all_contacts, contact_from_args, find_contact, list_rows as contact_rows,
    run_lookup, Field, LookupError,
};

fn ymd(year: i32, month: u32, day: u32) -> Date {
    Date { year, month, day }
}

fn hm(hour: u32, minute: u32) -> Time {
    Time { hour, minute }
}

fn strings(ws: &[&str]) -> Vec<String> {
    ws.iter().map(|w| w.to_string()).collect()
}

fn no_filter() -> ApptFilter {
    ApptFilter {
        today: false,
        week: false,
        month: false,
        since: None,
        until: None,
        all: false,
        past: false,
    }
}

#[test]
fn dates_parse_through_chrono() {
    assert_eq!(Appt::parse("2026-07-14 Dentist").unwrap().date, ymd(2026, 7, 14));
    assert!(matches!(Appt::parse("2026-02-30 x"), Err(ApptError::InvalidDate(t)) if t == "2026-02-30"));
    assert!(matches!(Appt::parse("14/07/2026 x"), Err(ApptError::InvalidDate(_))));
    assert_eq!(Appt::parse("2024-02-29 Leap").unwrap().date, ymd(2024, 2, 29));
    assert!(Appt::parse("2026-02-29 x").is_err());
    assert_eq!(parse_time_arg("09:05"), Some((hm(9, 5), None)));
    assert_eq!(parse_time_arg("25:00"), None);
    assert_eq!(Appt::parse("2026-07-14 09:05 x").unwrap().start, Some(hm(9, 5)));
}

#[test]
fn date_arithmetic_through_chrono() {
    assert_eq!(month_end(ymd(2026, 12, 1)), ymd(2026, 12, 31));
    assert_eq!(month_end(ymd(2026, 2, 1)), ymd(2026, 2, 28));
    let f = LogFilter { last: None, today: false, yesterday: true, week: false, month: false, since: None, until: None };
    assert_eq!(log_window(WeekStart::Monday, &f, ymd(2027, 1, 1)), Ok((Some(ymd(2026, 12, 31)), Some(ymd(2026, 12, 31)))));
    assert_eq!(relative_day(ymd(2026, 3, 1), ymd(2026, 2, 28)), "tomorrow");
    assert_eq!(relative_day(ymd(2026, 1, 1), ymd(2027, 1, 1)), "365 days ago");
    let mut w = no_filter();
    w.week = true;
    assert_eq!(appt_window(WeekStart::Monday, &w, ymd(2026, 7, 13)), Ok((Some(ymd(2026, 7, 13)), Some(ymd(2026, 7, 19)))));
    assert_eq!(appt_window(WeekStart::Sunday, &w, ymd(2026, 7, 13)), Ok((Some(ymd(2026, 7, 12)), Some(ymd(2026, 7, 18)))));
    assert_eq!(appt_window(WeekStart::Monday, &w, ymd(2026, 7, 19)), Ok((Some(ymd(2026, 7, 13)), Some(ymd(2026, 7, 19)))));
    assert_eq!(appt_window(WeekStart::Sunday, &w, ymd(2026, 7, 19)), Ok((Some(ymd(2026, 7, 19)), Some(ymd(2026, 7, 25)))));
}

#[test]
fn relative_day_names() {
    let today = ymd(2026, 7, 13);
    assert_eq!(relative_day(today, today), "today");
    assert_eq!(relative_day(ymd(2026, 7, 14), today), "tomorrow");
    assert_eq!(relative_day(ymd(2026, 7, 12), today), "yesterday");
    assert_eq!(relative_day(ymd(2026, 7, 15), today), "in 2 days");
    assert_eq!(relative_day(ymd(2026, 7, 10), today), "3 days ago");
    assert_eq!(relative_day(ymd(2026, 8, 1), ymd(2026, 7, 31)), "tomorrow");
}

#[test]
fn calchemy_config_defaults_and_error() {
    let c = resolve_calchemy(CalRaw { path: None, week_start: None }, Some("cal.txt".to_string()))
        .unwrap();
    assert_eq!(c.path, "cal.txt");
    assert_eq!(c.week_start, WeekStart::Monday);
    let c = resolve_calchemy(
        CalRaw { path: Some("mine.txt".to_string()), week_start: Some(WeekStart::Sunday) },
        None,
    )
    .unwrap();
    assert_eq!(c.path, "mine.txt");
    assert_eq!(c.week_start, WeekStart::Sunday);
    assert_eq!(
        resolve_calchemy(CalRaw { path: None, week_start: None }, None).err(),
        Some(CalConfigError::NoDataDir)
    );
}

#[test]
fn appointment_windows() {
    let today = ymd(2026, 7, 15);
    let mut f = no_filter();
    f.today = true;
    assert_eq!(appt_window(WeekStart::Monday, &f, today), Ok((Some(today), Some(today))));
    let mut f = no_filter();
    f.week = true;
    assert_eq!(
        appt_window(WeekStart::Monday, &f, today),
        Ok((Some(ymd(2026, 7, 13)), Some(ymd(2026, 7, 19))))
    );
    assert_eq!(
        appt_window(WeekStart::Sunday, &f, today),
        Ok((Some(ymd(2026, 7, 12)), Some(ymd(2026, 7, 18))))
    );
    let mut f = no_filter();
    f.month = true;
    assert_eq!(
        appt_window(WeekStart::Monday, &f, ymd(2026, 2, 10)),
        Ok((Some(ymd(2026, 2, 1)), Some(ymd(2026, 2, 28))))
    );
    assert_eq!(
        appt_window(WeekStart::Monday, &f, ymd(2026, 12, 3)),
        Ok((Some(ymd(2026, 12, 1)), Some(ymd(2026, 12, 31))))
    );
    let mut f = no_filter();
    f.since = Some("2026-07-01".to_string());
    assert_eq!(appt_window(WeekStart::Monday, &f, today), Ok((Some(ymd(2026, 7, 1)), None)));
    f.until = Some("soon".to_string());
    assert_eq!(
        appt_window(WeekStart::Monday, &f, today),
        Err(WindowError::InvalidDate("soon".to_string()))
    );
    assert_eq!(month_end(ymd(2024, 2, 1)), ymd(2024, 2, 29));
}

#[test]
fn list_view_defaults_to_upcoming() {
    let today = ymd(2026, 7, 15);
    assert_eq!(list_view(&no_filter(), None, None, today), Selection::Window(Some(today), None));
    let mut f = no_filter();
    f.all = true;
    assert_eq!(list_view(&f, None, None, today), Selection::Window(None, None));
    let mut f = no_filter();
    f.past = true;
    assert_eq!(list_view(&f, None, None, today), Selection::Past);
}

#[test]
fn multi_day_events_overlap_windows() {
    let content = "2026-07-10 2026-07-16 Trip\n2026-07-15 09:00 10:00 Standup +work\n2026-07-01 Old\n2026-07-20 Later\n";
    let appts = read_appts(content).unwrap();
    let today = ymd(2026, 7, 15);
    let upcoming = select(&appts, Selection::Window(Some(today), None), &[], today);
    let titles: Vec<&str> = upcoming.iter().map(|a| a.title.as_str()).collect();
    assert_eq!(titles, vec!["Trip", "Standup +work", "Later"]);
    let past = select(&appts, Selection::Past, &[], today);
    assert_eq!(past.len(), 1);
    assert_eq!(past[0].title, "Old");
    let tagged = select(&appts, Selection::Window(None, None), &["+work".to_string()], today);
    assert_eq!(tagged.len(), 1);
    assert_eq!(tagged[0].title, "Standup +work");
    let now = DateTime { date: today, time: hm(9, 30) };
    assert_eq!(next_appt(&upcoming, now).unwrap().title, "Trip");
    let timed = vec![upcoming[1].clone(), upcoming[2].clone()];
    assert_eq!(next_appt(&timed, now).unwrap().title, "Later");
    let started = vec![upcoming[1].clone()];
    assert!(next_appt(&started, now).is_none());
    assert_eq!(nth_appt(&upcoming, 2).unwrap().title, "Standup +work");
    assert!(nth_appt(&upcoming, 4).is_none());
    assert!(nth_appt(&upcoming, 0).is_none());
}

#[test]
fn appointment_rendering() {
    let a = Appt::parse("2026-07-15 09:00 10:30 Standup").unwrap();
    assert_eq!(time_col(&a), Some("09:00-10:30".to_string()));
    assert_eq!(render_inline(&a), "2026-07-15 09:00-10:30 Standup");
    let b = Appt::parse("2026-07-15 22:00 2026-07-16 01:00 Night shift").unwrap();
    assert_eq!(time_col(&b), Some("22:00-2026-07-16 01:00".to_string()));
    let c = Appt::parse("2026-07-15 Holiday").unwrap();
    assert_eq!(time_col(&c), None);
    assert_eq!(render_inline(&c), "2026-07-15 Holiday");
    let (rows, width) = agenda(&vec![a.clone(), c.clone()]);
    assert_eq!(rows[0].col, "09:00-10:30");
    assert_eq!(rows[1].col, "all day");
    assert_eq!(rows[1].title, "Holiday");
    assert_eq!(width, 11);
    let (_, width) = agenda(&vec![c]);
    assert_eq!(width, 7);
}

#[test]
fn appointment_line_reads_back() {
    let a = Appt::parse("2026-07-15 22:00 2026-07-16 01:00 Late call").unwrap();
    assert_eq!(a.end, Some(DateTime { date: ymd(2026, 7, 16), time: hm(1, 0) }));
    let line = a.to_line();
    let b = Appt::parse(&line).unwrap();
    assert_eq!((b.date, b.start, b.end, b.title.clone()), (a.date, a.start, a.end, a.title.clone()));
    let v = sorted(&read_appts("2026-07-15 10:00 B\n2026-07-15 A\n2026-07-14 C\n").unwrap());
    let titles: Vec<&str> = v.iter().map(|a| a.title.as_str()).collect();
    assert_eq!(titles, vec!["C", "A", "B"]);
    assert!(matches!(read_appts("2026-07-15 ok\nnot a date\n"), Err(ApptError::InvalidDate(_))));
}

#[test]
fn add_reads_times_and_end_dates() {
    assert_eq!(parse_time_arg("09:00"), Some((hm(9, 0), None)));
    assert_eq!(parse_time_arg("09:00-10:00"), Some((hm(9, 0), Some(hm(10, 0)))));
    assert_eq!(parse_time_arg("lunch"), None);
    let a = add_appt("2026-07-15", &strings(&["09:00-10:00", "Team", "sync"])).unwrap();
    assert_eq!(a.start, Some(hm(9, 0)));
    assert_eq!(a.end, Some(DateTime { date: ymd(2026, 7, 15), time: hm(10, 0) }));
    assert_eq!(a.title, "Team sync");
    let b = add_appt("2026-07-15", &strings(&["23:00-01:00", "Late"])).unwrap();
    assert_eq!(b.end, Some(DateTime { date: ymd(2026, 7, 16), time: hm(1, 0) }));
    let c = add_appt("2026-07-15", &strings(&["2026-07-18", "Trip"])).unwrap();
    assert_eq!(c.start, None);
    assert_eq!(c.end, Some(DateTime { date: ymd(2026, 7, 18), time: hm(0, 0) }));
    let d = add_appt("2026-07-15", &strings(&["09:00", "2026-07-16", "17:00", "Conference"])).unwrap();
    assert_eq!(d.end, Some(DateTime { date: ymd(2026, 7, 16), time: hm(17, 0) }));
    assert_eq!(d.title, "Conference");
    assert_eq!(
        add_appt("15.07.2026", &strings(&["x"])).err(),
        Some(ApptAddError::InvalidDate("15.07.2026".to_string()))
    );
    assert_eq!(
        add_appt("2026-07-15", &strings(&["2026-07-14", "Back"])).err(),
        Some(ApptAddError::EndNotAfterStart)
    );
    assert_eq!(
        add_appt("2026-07-15", &strings(&["09:00", "2026-07-15", "08:00", "Oops"])).err(),
        Some(ApptAddError::EndNotAfterStart)
    );
    assert_eq!(add_appt("2026-07-15", &strings(&["09:00"])).err(), Some(ApptAddError::NoTitle));
    assert_eq!(add_appt("2026-07-15", &strings(&["a\nb"])).err(), Some(ApptAddError::Newline));
}

#[test]
fn contacts_sort_find_and_list() {
    let content = "bob phone:1\nAnn email:a@x +family\ncarl\n";
    let v = all_contacts(content).unwrap();
    let names: Vec<&str> = v.iter().map(|c| c.name.as_str()).collect();
    assert_eq!(names, vec!["Ann +family", "bob", "carl"]);
    assert_eq!(find_contact(&v, 2).unwrap().name, "bob");
    assert!(find_contact(&v, 0).is_none());
    assert!(find_contact(&v, 4).is_none());
    let rows = contact_rows(&v, &["+family".to_string()]);
    assert_eq!(rows.len(), 1);
    assert_eq!(rows[0].number, 1);
    assert_eq!(rows[0].line, "Ann +family email:a@x");
    assert!(matches!(all_contacts("phone:1\n"), Err(ContactError::MissingName(_))));
}

#[test]
fn contact_from_words_and_reserved_tags() {
    let c = contact_from_args(&strings(&["Dana", "PHONE:99", "Lee"])).unwrap();
    assert_eq!(c.name, "Dana Lee");
    assert_eq!(c.phone, vec!["99".to_string()]);
    assert_eq!(c.to_line(), "Dana Lee phone:99");
    assert!(matches!(contact_from_args(&strings(&["email:e@x"])), Err(ContactError::MissingName(_))));
    assert_eq!(reserved_tag("Email:e@x"), Some(("email".to_string(), "e@x".to_string())));
    assert_eq!(reserved_tag("note:hi"), None);
    assert_eq!(reserved_tag("phone:"), None);
    let back = Contact::parse(&c.to_line()).unwrap();
    assert_eq!((back.name, back.phone, back.email), (c.name, c.phone, c.email));
}

#[test]
fn lookups_print_values_or_notes() {
    let v = all_contacts("Ann Smith phone:1 phone:2\nAnnabel\nBob email:b@x\n").unwrap();
    assert_eq!(run_lookup(&v, Field::Phone, "bob"), Ok(vec!["no phone on file for Bob".to_string()]));
    assert_eq!(run_lookup(&v, Field::Email, "BOB"), Ok(vec!["b@x".to_string()]));
    assert_eq!(
        run_lookup(&v, Field::Phone, "ann"),
        Ok(vec!["Ann Smith: 1".to_string(), "Ann Smith: 2".to_string(), "Annabel: (no phone)".to_string()])
    );
    assert_eq!(run_lookup(&v, Field::Email, "zed"), Err(LookupError::NoMatch));
    assert_eq!(Field::Email.label(), "email");
}

#[test]
fn window_checks_match_what_the_windows_need() {
    let d = |year, month, day| Date { year, month, day };
    let af = |today, week, month| ApptFilter { today, week, month, since: None, until: None, all: false, past: false };
    assert!(appt_window_fits(WeekStart::Monday, &af(false, true, false), d(2026, 7, 15)));
    assert!(appt_window_fits(WeekStart::Sunday, &af(false, false, true), d(2026, 12, 31)));
    assert!(!appt_window_fits(WeekStart::Monday, &af(false, false, false), d(2026, 2, 30)));
    assert!(!appt_window_fits(WeekStart::Monday, &af(false, false, true), d(262142, 12, 5)));
    assert!(appt_window_fits(WeekStart::Monday, &af(true, false, true), d(262142, 12, 5)));
    assert!(!appt_window_fits(WeekStart::Monday, &af(false, true, false), d(262142, 12, 31)));
    let lf = |yesterday, week| LogFilter { last: None, today: false, yesterday, week, month: false, since: None, until: None };
    assert!(log_window_fits(&lf(true, false), WeekStart::Monday, d(2026, 7, 15)));
    assert!(!log_window_fits(&lf(true, false), WeekStart::Monday, d(-262143, 1, 1)));
    assert!(log_window_fits(&lf(false, false), WeekStart::Monday, d(-262143, 1, 1)));
    assert!(!log_window_fits(&lf(false, false), WeekStart::Monday, d(2026, 13, 1)));
}
