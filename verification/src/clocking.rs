//! clocking: worked sessions in a timestamped log. A session opens with an
//! `@in` marker and closes into `<clock-in> <end> = <duration>`.
use vstd::prelude::*;
use crate::text::{chars_of, string_of, append_str, join_with, has_prefix, starts_with};
use crate::dates::{WeekStart, Date, DateTime, date_text, time_text, push_date, push_time};
use crate::log::{
    LogEntry, LogError, last_entry, log_lines, line_fields, is_open_marker, session_minutes_of,
    note_of, body_of, byte_prefix, prefix_bytes, at_byte, is_boundary, lemma_at_byte_unique,
    char_at_byte,
};
use crate::time::{format_duration, duration_text, round_to_increment, rounded_to, abs};
use crate::logview::{copy_entry, display_stamp, stamp_for_display, TimestampFormat};

verus! {

/// The open session, if any: the last entry of the log when it is an `@in`
/// marker.
pub fn open_session(content: &str) -> (r: Result<Option<LogEntry>, LogError>)
    ensures
        match r {
            Ok(Some(e)) => log_lines(content@).len() > 0 && line_fields(log_lines(content@).last())
                == Some((e.timestamp@, e.description@)) && is_open_marker(e.description@),
            Ok(None) => log_lines(content@).len() == 0 || (line_fields(log_lines(content@).last())
                matches Some((_, d)) && !is_open_marker(d)),
            Err(e) => log_lines(content@).len() > 0 && line_fields(log_lines(content@).last())
                is None && e@ == log_lines(content@).last(),
        },
{
    match last_entry(content)? {
        Some(e) => if e.is_open() {
            Ok(Some(e))
        } else {
            Ok(None)
        },
        None => Ok(None),
    }
}

/// The worked minutes of the closed sessions among `es`.
pub open spec fn session_total(es: Seq<LogEntry>) -> int
    decreases es.len(),
{
    if es.len() == 0 {
        0
    } else {
        session_total(es.drop_last()) + match session_minutes_of(es.last().description@) {
            Some(m) => m,
            None => 0,
        }
    }
}

/// How many of `es` are closed sessions.
pub open spec fn session_count(es: Seq<LogEntry>) -> int
    decreases es.len(),
{
    if es.len() == 0 {
        0
    } else {
        session_count(es.drop_last()) + if session_minutes_of(es.last().description@) is Some {
            1int
        } else {
            0int
        }
    }
}

/// Adding up the sessions in order never leaves the range of `i32`.
pub open spec fn totals_fit(es: Seq<LogEntry>) -> bool {
    forall|k: int| 0 <= k <= es.len() ==> i32::MIN <= #[trigger] session_total(es.take(k)) <= i32::MAX
}

proof fn lemma_session_count_bound(es: Seq<LogEntry>)
    ensures
        0 <= session_count(es) <= es.len(),
    decreases es.len(),
{
    if es.len() > 0 {
        lemma_session_count_bound(es.drop_last());
    }
}

/// Whether the sessions of `entries` can be added up in an `i32`.
pub fn sessions_fit(entries: &Vec<LogEntry>) -> (b: bool)
    ensures
        b == totals_fit(entries@),
{
    let mut total: i64 = 0;
    let mut i: usize = 0;
    assert(entries@.take(0) =~= Seq::<LogEntry>::empty());
    while i < entries.len()
        invariant
            i <= entries.len(),
            total == session_total(entries@.take(i as int)),
            forall|k: int| 0 <= k <= i ==> i32::MIN <= #[trigger] session_total(entries@.take(k)) <= i32::MAX,
        decreases entries.len() - i,
    {
        assert(entries@.take(i + 1).drop_last() =~= entries@.take(i as int));
        assert(entries@.take(i + 1).last() == entries@[i as int]);
        match entries[i].session_minutes() {
            Some(m) => {
                total = total + m as i64;
            },
            None => {},
        }
        i = i + 1;
        if total < -2147483648 || total > 2147483647 {
            assert(!totals_fit(entries@)) by {
                assert(!(i32::MIN <= session_total(entries@.take(i as int)) <= i32::MAX));
            }
            return false;
        }
    }
    assert(entries@.take(i as int) =~= entries@);
    true
}

/// The total worked minutes of the closed sessions among `entries`, and
/// how many there are.
pub fn summarize(entries: &Vec<LogEntry>) -> (r: (i32, usize))
    requires
        totals_fit(entries@),
    ensures
        r.0 == session_total(entries@),
        r.1 == session_count(entries@),
{
    let mut total: i32 = 0;
    let mut count: usize = 0;
    let mut i: usize = 0;
    assert(entries@.take(0) =~= Seq::<LogEntry>::empty());
    while i < entries.len()
        invariant
            i <= entries.len(),
            totals_fit(entries@),
            total == session_total(entries@.take(i as int)),
            count == session_count(entries@.take(i as int)),
        decreases entries.len() - i,
    {
        assert(entries@.take(i + 1).drop_last() =~= entries@.take(i as int));
        assert(entries@.take(i + 1).last() == entries@[i as int]);
        proof {
            lemma_session_count_bound(entries@.take(i + 1));
            assert(i32::MIN <= session_total(entries@.take(i + 1)) <= i32::MAX);
        }
        match entries[i].session_minutes() {
            Some(m) => {
                total = total + m;
                count = count + 1;
            },
            None => {},
        }
        i = i + 1;
    }
    assert(entries@.take(i as int) =~= entries@);
    (total, count)
}

/// The word for `count` sessions.
pub open spec fn sessions_word_of(count: int) -> Seq<char> {
    if count == 1 {
        "session"@
    } else {
        "sessions"@
    }
}

pub fn sessions_word(count: usize) -> (r: &'static str)
    ensures
        r@ == sessions_word_of(count as int),
{
    if count == 1 {
        "session"
    } else {
        "sessions"
    }
}

/// The entries whose timestamp starts with `day`.
pub open spec fn entries_on(es: Seq<LogEntry>, day: Seq<char>) -> Seq<LogEntry>
    decreases es.len(),
{
    if es.len() == 0 {
        seq![]
    } else {
        let p = entries_on(es.drop_last(), day);
        if has_prefix(es.last().timestamp@, day) {
            p.push(es.last())
        } else {
            p
        }
    }
}

/// The entries whose timestamp starts with `day` (a date as `YYYY-MM-DD`),
/// in order.
pub fn entries_on_day(entries: &Vec<LogEntry>, day: &str) -> (r: Vec<LogEntry>)
    ensures
        r@.len() == entries_on(entries@, day@).len(),
        forall|i: int|
            0 <= i < r.len() ==> (#[trigger] r@[i]).timestamp@ == entries_on(entries@, day@)[i].timestamp@
                && r@[i].description@ == entries_on(entries@, day@)[i].description@,
{
    let mut out: Vec<LogEntry> = Vec::new();
    let mut i: usize = 0;
    while i < entries.len()
        invariant
            i <= entries.len(),
            out@.len() == entries_on(entries@.take(i as int), day@).len(),
            forall|j: int|
                0 <= j < out.len() ==> (#[trigger] out@[j]).timestamp@ == entries_on(
                    entries@.take(i as int),
                    day@,
                )[j].timestamp@ && out@[j].description@ == entries_on(
                    entries@.take(i as int),
                    day@,
                )[j].description@,
        decreases entries.len() - i,
    {
        assert(entries@.take(i + 1).drop_last() =~= entries@.take(i as int));
        assert(entries@.take(i + 1).last() == entries@[i as int]);
        let ts = chars_of(entries[i].timestamp.as_str());
        if starts_with(&ts, day) {
            out.push(copy_entry(&entries[i]));
        }
        i = i + 1;
    }
    assert(entries@.take(i as int) =~= entries@);
    out
}

/// The description of an `@in` marker: `@in`, then ` # ` and the note.
pub open spec fn in_text(note: Option<Seq<char>>) -> Seq<char> {
    match note {
        Some(n) => "@in"@ + " # "@ + n,
        None => "@in"@,
    }
}

/// The description `in` logs.
pub fn in_description(note: Option<String>) -> (r: String)
    ensures
        r@ == in_text(opt_view(note)),
{
    let mut out: Vec<char> = Vec::new();
    append_str(&mut out, "@in");
    match &note {
        Some(n) => {
            append_str(&mut out, " # ");
            append_str(&mut out, n.as_str());
        },
        None => {},
    }
    string_of(&out)
}

/// How a session's end is written: in full mode the full timestamp;
/// otherwise its time where it ends on the day it began, else its date and
/// time.
pub open spec fn end_text(start: Date, end: DateTime, format: TimestampFormat, full_end: Seq<char>) -> Seq<char> {
    match format {
        TimestampFormat::Full => full_end,
        TimestampFormat::Simple => if end.date == start {
            time_text(end.time)
        } else {
            date_text(end.date) + seq![' '] + time_text(end.time)
        },
    }
}

/// The end field of a closed session (see `end_text`).
pub fn session_end_text(start: Date, end: DateTime, format: TimestampFormat, full_end: &str) -> (r: String)
    ensures
        r@ == end_text(start, end, format, full_end@),
{
    match format {
        TimestampFormat::Full => full_end.to_owned(),
        TimestampFormat::Simple => {
            let mut out: Vec<char> = Vec::new();
            if end.date == start {
                push_time(&mut out, end.time);
            } else {
                push_date(&mut out, end.date);
                out.push(' ');
                push_time(&mut out, end.time);
            }
            string_of(&out)
        },
    }
}

/// The notes of a closed session: the clock-in note and the clock-out
/// note, those there are, joined by `; ` after ` # `.
pub open spec fn notes_suffix(open_note: Option<Seq<char>>, out_note: Option<Seq<char>>) -> Seq<char> {
    let extras: Seq<Seq<char>> = (match open_note {
        Some(n) => seq![n],
        None => seq![],
    }) + (match out_note {
        Some(n) => seq![n],
        None => seq![],
    });
    if extras.len() == 0 {
        seq![]
    } else {
        " # "@ + join_with(extras, "; "@)
    }
}

/// The text an optional string holds.
pub open spec fn opt_view(o: Option<String>) -> Option<Seq<char>> {
    match o {
        Some(s) => Some(s@),
        None => None,
    }
}

/// Why `out` records nothing.
#[derive(Debug, PartialEq, Eq)]
pub enum OutError {
    /// The session began after now.
    Future,
    /// The session is longer than `max_session` and `--force` was not given.
    OverMax { elapsed: i32, cap: i32 },
}

/// What `out` records for the open session `open`, `elapsed` minutes long,
/// ending as `end` reads: refused for a negative time, or one over the cap
/// without `force`; else the description `END = DURATION[ # NOTES]`, with
/// the duration rounded to the increment, and the rounded minutes. The line
/// keeps the clock-in timestamp.
pub fn close_session(
    open: &LogEntry,
    elapsed: i64,
    increment: i32,
    max_session: Option<i32>,
    force: bool,
    note: Option<String>,
    end: &str,
) -> (r: Result<(String, i32), OutError>)
    requires
        elapsed < 0 || (elapsed <= i32::MAX && (increment <= 1 || elapsed + increment / 2
            <= i32::MAX)),
    ensures
        elapsed < 0 ==> r == Err::<(String, i32), OutError>(OutError::Future),
        elapsed >= 0 ==> match r {
            Ok((desc, mins)) => !(max_session matches Some(cap) && elapsed > cap && !force) && mins
                == rounded_to(elapsed as int, increment as int) && desc@ == end@ + " = "@
                + duration_text(mins as int) + notes_suffix(
                note_of(open.description@),
                opt_view(note),
            ),
            Err(OutError::OverMax { elapsed: e, cap }) => max_session == Some(cap) && e == elapsed
                && elapsed > cap && !force,
            Err(OutError::Future) => false,
        },
{
    if elapsed < 0 {
        return Err(OutError::Future);
    }
    let e = elapsed as i32;
    match max_session {
        Some(cap) => {
            if e > cap && !force {
                return Err(OutError::OverMax { elapsed: e, cap });
            }
        },
        None => {},
    }
    let mins = round_to_increment(e, increment);
    let mut out: Vec<char> = Vec::new();
    append_str(&mut out, end);
    append_str(&mut out, " = ");
    let d = format_duration(mins);
    append_str(&mut out, d.as_str());
    let open_note = open.note();
    let ghost on = note_of(open.description@);
    let ghost nn = opt_view(note);
    let ghost base = out@;
    let mut extras: Vec<Vec<char>> = Vec::new();
    match &open_note {
        Some(n) => {
            extras.push(chars_of(n.as_str()));
        },
        None => {},
    }
    match &note {
        Some(n) => {
            extras.push(chars_of(n.as_str()));
        },
        None => {},
    }
    let ghost ev = (match on {
        Some(n) => seq![n],
        None => Seq::<Seq<char>>::empty(),
    }) + (match nn {
        Some(n) => seq![n],
        None => Seq::<Seq<char>>::empty(),
    });
    assert(crate::text::views(extras@) =~= ev);
    if extras.len() > 0 {
        append_str(&mut out, " # ");
        let sep = chars_of("; ");
        let joined = crate::text::join_chars(&extras, &sep);
        crate::text::append_chars(&mut out, &joined);
    }
    assert(out@ =~= base + notes_suffix(on, nn));
    Ok((string_of(&out), mins))
}

/// What bare `clocking` shows while clocked in: the elapsed minutes (at
/// least 0) rounded to the increment, and whether the unrounded time is
/// over the cap.
pub fn clocked_in_status(elapsed: i64, increment: i32, max_session: Option<i32>) -> (r: (i32, bool))
    requires
        elapsed <= i32::MAX,
        increment <= 1 || elapsed + increment / 2 <= i32::MAX,
    ensures
        ({
            let raw = if elapsed < 0 {
                0
            } else {
                elapsed as int
            };
            &&& r.0 == rounded_to(raw, increment as int)
            &&& r.1 == (max_session matches Some(cap) && raw > cap)
        }),
{
    let raw: i32 = if elapsed < 0 {
        0
    } else {
        elapsed as i32
    };
    let shown = round_to_increment(raw, increment);
    let warn = match max_session {
        Some(cap) => raw > cap,
        None => false,
    };
    (shown, warn)
}

/// How `log` shows one clocking entry: the timestamp (see
/// `display_stamp`); for an open marker `clocked in HH:MM (open)`, the
/// time taken from byte 11 of that stamp, else the description without its
/// note; and the note.
pub struct SessionRow {
    pub stamp: String,
    pub text: String,
    pub open: bool,
    pub note: Option<String>,
}

/// `str::get(b..)` of `s`, or nothing.
pub open spec fn byte_suffix(s: Seq<char>, b: int) -> Seq<char> {
    if is_boundary(s, b) {
        s.skip(choose|k: int| at_byte(s, b, k))
    } else {
        seq![]
    }
}

pub open spec fn session_text(ts: Seq<char>, d: Seq<char>) -> Seq<char> {
    if is_open_marker(d) {
        "clocked in "@ + byte_suffix(display_stamp(ts), 11) + " (open)"@
    } else {
        body_of(d)
    }
}

/// The row `log` shows for a clocking entry.
pub fn session_row(e: &LogEntry) -> (r: SessionRow)
    ensures
        r.stamp@ == display_stamp(e.timestamp@),
        r.text@ == session_text(e.timestamp@, e.description@),
        r.open == is_open_marker(e.description@),
        match r.note {
            Some(n) => note_of(e.description@) == Some(n@),
            None => note_of(e.description@) is None,
        },
{
    let stamp = stamp_for_display(e.timestamp.as_str());
    let open = e.is_open();
    let text = if open {
        let sv = chars_of(stamp.as_str());
        let tail = match char_at_byte(&sv, 11) {
            Some(k) => {
                proof {
                    let c = choose|c: int| at_byte(sv@, 11, c);
                    lemma_at_byte_unique(sv@, 11, k as int, c);
                }
                crate::text::slice_chars(&sv, k, sv.len())
            },
            None => Vec::new(),
        };
        assert(tail@ =~= byte_suffix(stamp@, 11));
        let mut out: Vec<char> = Vec::new();
        append_str(&mut out, "clocked in ");
        crate::text::append_chars(&mut out, &tail);
        append_str(&mut out, " (open)");
        string_of(&out)
    } else {
        e.body()
    };
    SessionRow { stamp, text, open, note: e.note() }
}

/// What `in` logs is an open-session marker that keeps its note and
/// holds no worked time.
pub proof fn law_in_marker(note: Option<Seq<char>>)
    ensures
        is_open_marker(in_text(note)),
        note_of(in_text(note)) == note,
        session_minutes_of(in_text(note)) is None,
{
    reveal_strlit("@in");
    let b = "@in"@;
    assert(b == seq!['@', 'i', 'n']);
    crate::log::lemma_split_note(b, note);
    match note {
        Some(n) => {
            assert(in_text(note) == b + " # "@ + n);
        },
        None => {},
    }
}

/// What `out` logs reads back as the session's worked minutes, and is no
/// open marker, for an end field without `#` or `=` (`i32::MIN` left out).
pub proof fn law_session_reads_back(
    end: Seq<char>,
    mins: i32,
    open_note: Option<Seq<char>>,
    out_note: Option<Seq<char>>,
)
    requires
        mins != i32::MIN,
        forall|i: int| 0 <= i < end.len() ==> #[trigger] end[i] != '#' && end[i] != '=',
    ensures
        ({
            let d = end + " = "@ + duration_text(mins as int) + notes_suffix(open_note, out_note);
            &&& session_minutes_of(d) == Some(mins as int)
            &&& !is_open_marker(d)
        }),
{
    reveal_strlit(" = ");
    reveal_strlit("@in");
    crate::time::law_duration_round_trip(mins);
    let dt = duration_text(mins as int);
    let body = end + " = "@ + dt;
    let k = end.len() as int;
    assert(body =~= end + seq![' ', '=', ' '] + dt);
    assert forall|i: int| 0 <= i < dt.len() implies #[trigger] dt[i] != '#' && dt[i] != '=' by {
        let c = dt[i];
        assert(crate::num::is_digit(c) || c == ' ' || c == '-' || 97 <= c as u32 <= 122);
    }
    assert forall|i: int| 0 <= i < body.len() implies #[trigger] body[i] != '#' by {
        if i < k {
            assert(body[i] == end[i]);
        } else if i >= k + 3 {
            assert(body[i] == dt[i - k - 3]);
        }
    }
    let extras_note: Option<Seq<char>> = if notes_suffix(open_note, out_note).len() == 0 {
        None
    } else {
        let extras: Seq<Seq<char>> = (match open_note {
            Some(n) => seq![n],
            None => seq![],
        }) + (match out_note {
            Some(n) => seq![n],
            None => seq![],
        });
        Some(join_with(extras, "; "@))
    };
    crate::log::lemma_split_note(body, extras_note);
    let d = body + notes_suffix(open_note, out_note);
    assert(d == (match extras_note {
        Some(n) => body + " # "@ + n,
        None => body,
    }));
    let pat = " = "@;
    assert(crate::text::occurs_at(body, pat, k)) by {
        assert(body.subrange(k, k + 3) =~= pat);
    }
    assert forall|j: int| k < j implies !crate::text::occurs_at(body, pat, j) by {
        if crate::text::occurs_at(body, pat, j) {
            assert(body.subrange(j, j + 3)[1] == body[j + 1]);
        }
    }
    assert(crate::text::last_occ(body, pat, k));
    let l = choose|l: int| crate::text::last_occ(body, pat, l);
    crate::text::lemma_last_occ_unique(body, pat, k, l);
    assert(body.skip(k + 3) =~= dt);
    assert(body != "@in"@) by {
        assert(body[k + 1] == '=');
        if body == "@in"@ {
            assert(body.len() == 3);
        }
    }
}

} // verus!
