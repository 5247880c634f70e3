//! calchemy: a plaintext calendar, one appointment per line
//! `DATE [START [END]] TITLE`.
use vstd::prelude::*;
use crate::text::{
    chars_of, string_of, words, views, split_ws, join_sp, join_chars, copy_chars, is_ws, is_word,
    lemma_words_are_words, lemma_words_join, lemma_join_sp_concat,
};
use crate::num::{zero_padded, lemma_zero_padded, lemma_decimal_len_bound, all_digits, is_digit};
use crate::lines::{read_lines, record_lines, string_views};
use crate::sort::{stable_order, stable_sort_order, key_views, order_view, lex_lt};
use crate::dates::{
    Date, Time, DateTime, date_of, time_of, parse_date, parse_time, date_lt, date_less, midnight,
    date_text, time_text, year_text, push_date, push_time, chrono_date_of, chrono_time_of,
    lemma_date_text, lemma_time_text, datetime_lt,
};

verus! {

/// One appointment, parsed from a line `DATE [START [END]] TITLE`.
///
/// `DATE` is `YYYY-MM-DD`; `START` is `HH:MM`, absent for an all-day
/// event; `END` is `HH:MM` (same day) or `YYYY-MM-DD HH:MM` (a later day),
/// and with no `START` a bare `YYYY-MM-DD` end makes a multi-day all-day
/// event (inclusive last day). The longest matching run of leading
/// date/time-shaped tokens is claimed before the rest becomes the title.
#[derive(Debug, Clone, PartialEq)]
pub struct Appt {
    pub date: Date,
    pub start: Option<Time>,
    pub end: Option<DateTime>,
    pub title: String,
    /// The exact source line, so `rm` can delete it without reformatting.
    pub raw: String,
}

/// The fields of an appointment, as the contracts speak of them.
pub struct ApptView {
    pub date: Date,
    pub start: Option<Time>,
    pub end: Option<DateTime>,
    pub title: Seq<char>,
}

impl Appt {
    pub open spec fn fields(&self) -> ApptView {
        ApptView { date: self.date, start: self.start, end: self.end, title: self.title@ }
    }
}

/// Why a line is no appointment.
pub enum ApptFault {
    MissingDate,
    InvalidDate(Seq<char>),
    EndNotAfterStart,
    MissingTitle,
}

/// Why a line is no appointment; each holds the line, but `InvalidDate`,
/// which holds the token that is no date.
#[derive(Debug)]
pub enum ApptError {
    MissingDate(String),
    InvalidDate(String),
    EndNotAfterStart(String),
    MissingTitle(String),
}

impl ApptError {
    pub open spec fn fault(&self) -> ApptFault {
        match self {
            ApptError::MissingDate(_) => ApptFault::MissingDate,
            ApptError::InvalidDate(t) => ApptFault::InvalidDate(t@),
            ApptError::EndNotAfterStart(_) => ApptFault::EndNotAfterStart,
            ApptError::MissingTitle(_) => ApptFault::MissingTitle,
        }
    }

    /// The text the error holds.
    pub open spec fn text(&self) -> Seq<char> {
        match self {
            ApptError::MissingDate(l) => l@,
            ApptError::InvalidDate(t) => t@,
            ApptError::EndNotAfterStart(l) => l@,
            ApptError::MissingTitle(l) => l@,
        }
    }
}

/// The title tokens finish the appointment; there must be one.
pub open spec fn with_title(
    date: Date,
    start: Option<Time>,
    end: Option<DateTime>,
    title: Seq<Seq<char>>,
) -> Result<ApptView, ApptFault> {
    if title.len() == 0 {
        Err(ApptFault::MissingTitle)
    } else {
        Ok(ApptView { date, start, end, title: join_sp(title) })
    }
}

/// The token is a time.
pub open spec fn is_time_tok(t: Seq<char>) -> bool {
    time_of(t) is Some
}

/// The token is a date.
pub open spec fn is_date_tok(t: Seq<char>) -> bool {
    date_of(t) is Some
}

/// What follows the date: `TIME DATE TIME`, else `TIME TIME`, else `TIME`,
/// else an end `DATE` (which must come after the date), else nothing.
pub open spec fn appt_after_date(date: Date, rest: Seq<Seq<char>>) -> Result<ApptView, ApptFault> {
    if rest.len() >= 3 && is_time_tok(rest[0]) && is_date_tok(rest[1]) && is_time_tok(rest[2]) {
        with_title(
            date,
            time_of(rest[0]),
            Some(DateTime { date: date_of(rest[1])->0, time: time_of(rest[2])->0 }),
            rest.skip(3),
        )
    } else if rest.len() >= 2 && is_time_tok(rest[0]) && is_time_tok(rest[1]) {
        with_title(
            date,
            time_of(rest[0]),
            Some(DateTime { date, time: time_of(rest[1])->0 }),
            rest.skip(2),
        )
    } else if rest.len() >= 1 && is_time_tok(rest[0]) {
        with_title(date, time_of(rest[0]), None, rest.skip(1))
    } else if rest.len() >= 1 && is_date_tok(rest[0]) {
        let e = date_of(rest[0])->0;
        if date_lt(date, e) {
            with_title(date, None, Some(DateTime { date: e, time: midnight() }), rest.skip(1))
        } else {
            Err(ApptFault::EndNotAfterStart)
        }
    } else {
        with_title(date, None, None, rest)
    }
}

/// The appointment the tokens of a line read as.
pub open spec fn appt_of_tokens(ts: Seq<Seq<char>>) -> Result<ApptView, ApptFault> {
    if ts.len() == 0 {
        Err(ApptFault::MissingDate)
    } else {
        match date_of(ts[0]) {
            None => Err(ApptFault::InvalidDate(ts[0])),
            Some(date) => appt_after_date(date, ts.drop_first()),
        }
    }
}

/// The appointment a line reads as.
pub open spec fn appt_of(line: Seq<char>) -> Result<ApptView, ApptFault> {
    appt_of_tokens(words(line))
}

/// The error that reading `line` gives, matched against what it holds.
pub open spec fn error_holds(e: ApptError, line: Seq<char>) -> bool {
    match e {
        ApptError::InvalidDate(t) => t@ == words(line)[0],
        _ => e.text() == line,
    }
}

/// `ws[from..]` joined by single spaces.
fn join_from(ws: &Vec<Vec<char>>, from: usize) -> (r: Vec<char>)
    requires
        from <= ws.len(),
    ensures
        r@ == join_sp(views(ws@).skip(from as int)),
{
    let mut part: Vec<Vec<char>> = Vec::new();
    let mut k: usize = from;
    while k < ws.len()
        invariant
            from <= k <= ws.len(),
            views(part@) == views(ws@).subrange(from as int, k as int),
        decreases ws.len() - k,
    {
        let ghost pre = views(part@);
        part.push(copy_chars(&ws[k]));
        assert(views(part@) =~= pre.push(ws@[k as int]@));
        assert(views(ws@).subrange(from as int, k + 1) =~= views(ws@).subrange(from as int, k as int).push(
            ws@[k as int]@,
        ));
        k = k + 1;
    }
    assert(views(ws@).subrange(from as int, k as int) =~= views(ws@).skip(from as int));
    let sep = vec![' '];
    assert(sep@ =~= seq![' ']);
    join_chars(&part, &sep)
}

fn date_tok(t: &Vec<char>) -> (r: Option<Date>)
    ensures
        r == date_of(t@),
{
    let s = string_of(t);
    parse_date(s.as_str())
}

fn time_tok(t: &Vec<char>) -> (r: Option<Time>)
    ensures
        r == time_of(t@),
{
    let s = string_of(t);
    parse_time(s.as_str())
}

impl Appt {
    /// Reads one line (see `appt_of`).
    pub fn parse(line: &str) -> (r: Result<Appt, ApptError>)
        ensures
            match r {
                Ok(a) => appt_of(line@) == Ok::<ApptView, ApptFault>(a.fields()) && a.raw@ == line@,
                Err(e) => appt_of(line@) == Err::<ApptView, ApptFault>(e.fault()) && error_holds(
                    e,
                    line@,
                ),
            },
    {
        let v = chars_of(line);
        let toks = split_ws(&v);
        let ghost ts = words(line@);
        assert(views(toks@) == ts);
        if toks.len() == 0 {
            return Err(ApptError::MissingDate(line.to_owned()));
        }
        assert(toks@[0]@ == ts[0]);
        let date = match date_tok(&toks[0]) {
            Some(d) => d,
            None => {
                return Err(ApptError::InvalidDate(string_of(&toks[0])));
            },
        };
        let ghost rest = ts.drop_first();
        let n = toks.len() - 1;
        let t0 = if n >= 1 {
            assert(rest[0] == toks@[1]@);
            time_tok(&toks[1])
        } else {
            None
        };
        let d1 = if n >= 2 {
            assert(rest[1] == toks@[2]@);
            date_tok(&toks[2])
        } else {
            None
        };
        let t1 = if n >= 2 {
            time_tok(&toks[2])
        } else {
            None
        };
        let t2 = if n >= 3 {
            assert(rest[2] == toks@[3]@);
            time_tok(&toks[3])
        } else {
            None
        };
        let (start, end, consumed): (Option<Time>, Option<DateTime>, usize) = if t0.is_some()
            && d1.is_some() && t2.is_some() {
            (t0, Some(DateTime { date: d1.unwrap(), time: t2.unwrap() }), 3)
        } else if t0.is_some() && t1.is_some() {
            (t0, Some(DateTime { date, time: t1.unwrap() }), 2)
        } else if t0.is_some() {
            (t0, None, 1)
        } else {
            let e = if n >= 1 {
                date_tok(&toks[1])
            } else {
                None
            };
            match e {
                Some(ed) => {
                    if !date_less(date, ed) {
                        return Err(ApptError::EndNotAfterStart(line.to_owned()));
                    }
                    (None, Some(DateTime { date: ed, time: Time { hour: 0, minute: 0 } }), 1)
                },
                None => (None, None, 0),
            }
        };
        assert(views(toks@).skip(consumed + 1) =~= rest.skip(consumed as int));
        if consumed + 1 >= toks.len() {
            return Err(ApptError::MissingTitle(line.to_owned()));
        }
        let title = join_from(&toks, consumed + 1);
        Ok(Appt { date, start, end, title: string_of(&title), raw: line.to_owned() })
    }

    /// Sort key: the start instant, all-day events at the start of the day.
    pub fn start_dt(&self) -> (r: DateTime)
        ensures
            r == start_of(self.fields()),
    {
        DateTime {
            date: self.date,
            time: match self.start {
                Some(t) => t,
                None => Time { hour: 0, minute: 0 },
            },
        }
    }

    /// The last calendar day this appointment touches (inclusive).
    pub fn last_date(&self) -> (r: Date)
        ensures
            r == last_day(self.fields()),
    {
        match self.end {
            Some(e) => e.date,
            None => self.date,
        }
    }
}

/// When an appointment starts: its date at its start time, or at
/// midnight for an all-day event.
pub open spec fn start_of(a: ApptView) -> DateTime {
    DateTime {
        date: a.date,
        time: match a.start {
            Some(t) => t,
            None => midnight(),
        },
    }
}

/// The last day an appointment touches: its end's date, else its date.
pub open spec fn last_day(a: ApptView) -> Date {
    match a.end {
        Some(e) => e.date,
        None => a.date,
    }
}

/// The tokens of an appointment's storage line: the date, then the start
/// time, then the end (its time where it ends on the date, else its date
/// and time) — or, with no start, the end's date — then the title.
pub open spec fn appt_tokens(a: ApptView) -> Seq<Seq<char>> {
    let head: Seq<Seq<char>> = match a.start {
        Some(st) => match a.end {
            Some(e) => if e.date == a.date {
                seq![time_text(st), time_text(e.time)]
            } else {
                seq![time_text(st), date_text(e.date), time_text(e.time)]
            },
            None => seq![time_text(st)],
        },
        None => match a.end {
            Some(e) => seq![date_text(e.date)],
            None => seq![],
        },
    };
    seq![date_text(a.date)] + head + seq![a.title]
}

impl Appt {
    /// The canonical storage line: `appt_tokens` joined by single spaces.
    pub fn to_line(&self) -> (r: String)
        ensures
            r@ == join_sp(appt_tokens(self.fields())),
    {
        let mut parts: Vec<Vec<char>> = Vec::new();
        let mut d0: Vec<char> = Vec::new();
        push_date(&mut d0, self.date);
        parts.push(d0);
        match self.start {
            Some(st) => {
                let mut t: Vec<char> = Vec::new();
                push_time(&mut t, st);
                parts.push(t);
                match self.end {
                    Some(e) => {
                        if e.date == self.date {
                            let mut t2: Vec<char> = Vec::new();
                            push_time(&mut t2, e.time);
                            parts.push(t2);
                        } else {
                            let mut d2: Vec<char> = Vec::new();
                            push_date(&mut d2, e.date);
                            parts.push(d2);
                            let mut t2: Vec<char> = Vec::new();
                            push_time(&mut t2, e.time);
                            parts.push(t2);
                        }
                    },
                    None => {},
                }
            },
            None => match self.end {
                Some(e) => {
                    let mut d2: Vec<char> = Vec::new();
                    push_date(&mut d2, e.date);
                    parts.push(d2);
                },
                None => {},
            },
        }
        parts.push(chars_of(self.title.as_str()));
        assert(views(parts@) =~= appt_tokens(self.fields()));
        let sep = vec![' '];
        assert(sep@ =~= seq![' ']);
        string_of(&join_chars(&parts, &sep))
    }

    /// A copy of this appointment.
    pub fn copy(&self) -> (r: Appt)
        ensures
            r.fields() == self.fields(),
            r.raw@ == self.raw@,
    {
        Appt {
            date: self.date,
            start: self.start,
            end: self.end,
            title: self.title.clone(),
            raw: self.raw.clone(),
        }
    }
}

/// The tokens between the date and the title of an appointment's line.
pub open spec fn head_tokens(a: ApptView) -> Seq<Seq<char>> {
    match a.start {
        Some(st) => match a.end {
            Some(e) => if e.date == a.date {
                seq![time_text(st), time_text(e.time)]
            } else {
                seq![time_text(st), date_text(e.date), time_text(e.time)]
            },
            None => seq![time_text(st)],
        },
        None => match a.end {
            Some(e) => seq![date_text(e.date)],
            None => seq![],
        },
    }
}

/// The appointments whose storage line reads back as themselves: days and
/// times that exist, a title of whitespace-free words joined by single
/// spaces, an all-day end at midnight of a later day, and a title whose
/// first words cannot be taken for a start or an end where the line states
/// none.
pub open spec fn appt_reads_back(a: ApptView) -> bool {
    let ws = words(a.title);
    &&& a.date.valid()
    &&& (a.start matches Some(t) ==> t.valid())
    &&& (a.end matches Some(e) ==> e.valid())
    &&& ws.len() > 0
    &&& join_sp(ws) == a.title
    &&& (a.start is None && a.end is Some ==> a.end->0.time == midnight() && date_lt(
        a.date,
        a.end->0.date,
    ))
    &&& (a.start is None && a.end is None ==> !is_time_tok(ws[0]) && !is_date_tok(ws[0]))
    &&& (a.start is Some && a.end is None ==> !is_time_tok(ws[0]) && !(is_date_tok(ws[0])
        && ws.len() >= 2 && is_time_tok(ws[1])))
}

proof fn lemma_appt_words(a: ApptView)
    requires
        appt_reads_back(a),
    ensures
        words(join_sp(appt_tokens(a))) == seq![date_text(a.date)] + head_tokens(a) + words(a.title),
{
    let ws = words(a.title);
    lemma_words_are_words(a.title);
    let p = seq![date_text(a.date)] + head_tokens(a);
    let t = p + ws;
    assert(appt_tokens(a) =~= p.push(a.title));
    assert(p.push(a.title).drop_last() =~= p);
    lemma_join_sp_concat(p, ws);
    lemma_date_text(a.date);
    if let Some(st) = a.start {
        lemma_time_text(st);
    }
    if let Some(e) = a.end {
        lemma_date_text(e.date);
        lemma_time_text(e.time);
    }
    assert forall|i: int| 0 <= i < t.len() implies is_word(#[trigger] t[i]) by {
        if i >= p.len() {
            assert(t[i] == ws[i - p.len()]);
        }
    }
    lemma_words_join(t);
}

/// Writing an appointment as its storage line (`Appt::to_line`) and reading
/// the line back (`Appt::parse`) gives the same appointment, for every
/// appointment whose line can tell its fields apart (see
/// `appt_reads_back`).
pub proof fn law_appt_round_trip(a: Appt)
    requires
        appt_reads_back(a.fields()),
    ensures
        appt_of(join_sp(appt_tokens(a.fields()))) == Ok::<ApptView, ApptFault>(a.fields()),
{
    let f = a.fields();
    let ws = words(f.title);
    lemma_appt_words(f);
    let h = head_tokens(f);
    let t = seq![date_text(f.date)] + h + ws;
    lemma_date_text(f.date);
    assert(t[0] == date_text(f.date));
    let rest = t.drop_first();
    assert(rest =~= h + ws);
    match f.start {
        Some(st) => {
            lemma_time_text(st);
            match f.end {
                Some(e) => {
                    lemma_time_text(e.time);
                    lemma_date_text(e.date);
                    if e.date == f.date {
                        assert(rest[0] == time_text(st));
                        assert(rest[1] == time_text(e.time));
                        assert(!is_date_tok(rest[1]));
                        assert(rest.skip(2) =~= ws);
                    } else {
                        assert(rest[0] == time_text(st));
                        assert(rest[1] == date_text(e.date));
                        assert(rest[2] == time_text(e.time));
                        assert(rest.skip(3) =~= ws);
                    }
                },
                None => {
                    assert(rest[0] == time_text(st));
                    assert(rest.skip(1) =~= ws);
                    assert(rest.len() >= 2 ==> rest[1] == ws[0]);
                    assert(rest.len() >= 3 ==> rest[2] == ws[1]);
                },
            }
        },
        None => {
            match f.end {
                Some(e) => {
                    lemma_date_text(e.date);
                    assert(rest[0] == date_text(e.date));
                    assert(!is_time_tok(rest[0]));
                    assert(rest.skip(1) =~= ws);
                },
                None => {
                    assert(rest =~= ws);
                },
            }
        },
    }
}

/// Every line reads as an appointment.
pub open spec fn all_appts(ls: Seq<Seq<char>>) -> bool {
    forall|i: int| 0 <= i < ls.len() ==> (#[trigger] appt_of(ls[i])) is Ok
}

/// Line `k` is the first that reads as no appointment.
pub open spec fn first_bad_line(ls: Seq<Seq<char>>, k: int) -> bool {
    &&& 0 <= k < ls.len()
    &&& appt_of(ls[k]) is Err
    &&& forall|j: int| 0 <= j < k ==> (#[trigger] appt_of(ls[j])) is Ok
}

/// The appointment and source line of each appointment, in order.
pub open spec fn entries(v: Seq<Appt>) -> Seq<(ApptView, Seq<char>)> {
    Seq::new(v.len(), |i: int| (v[i].fields(), v[i].raw@))
}

/// The appointment each record line reads as, with the line.
pub open spec fn line_entries(ls: Seq<Seq<char>>) -> Seq<(ApptView, Seq<char>)> {
    Seq::new(ls.len(), |i: int| (appt_of(ls[i])->Ok_0, ls[i]))
}

/// Reads every nonblank line of a calendar file's text, failing on the
/// first line that is no appointment.
pub fn read_appts(content: &str) -> (r: Result<Vec<Appt>, ApptError>)
    ensures
        ({
            let ls = record_lines(content@);
            match r {
                Ok(v) => all_appts(ls) && entries(v@) == line_entries(ls),
                Err(e) => exists|k: int|
                    first_bad_line(ls, k) && appt_of(ls[k]) == Err::<ApptView, ApptFault>(e.fault())
                        && error_holds(e, ls[k]),
            }
        }),
        r is Ok <==> all_appts(record_lines(content@)),
{
    let lines = read_lines(content);
    let ghost ls = record_lines(content@);
    let mut out: Vec<Appt> = Vec::new();
    let mut i: usize = 0;
    while i < lines.len()
        invariant
            i <= lines.len(),
            string_views(lines@) == ls,
            ls == record_lines(content@),
            out.len() == i,
            forall|j: int| 0 <= j < i ==> (#[trigger] appt_of(ls[j])) is Ok,
            forall|j: int|
                0 <= j < i ==> appt_of(ls[j]) == Ok::<ApptView, ApptFault>((#[trigger] out@[j]).fields())
                    && out@[j].raw@ == ls[j],
        decreases lines.len() - i,
    {
        assert(lines[i as int]@ == ls[i as int]);
        match Appt::parse(lines[i].as_str()) {
            Ok(a) => {
                out.push(a);
            },
            Err(e) => {
                assert(first_bad_line(ls, i as int));
                assert(!all_appts(ls)) by {
                    assert(appt_of(ls[i as int]) is Err);
                }
                return Err(e);
            },
        }
        i = i + 1;
    }
    assert(entries(out@) =~= line_entries(ls));
    Ok(out)
}

/// The sort key of an appointment: its start, as year, month, day, hour
/// and minute, compared lexicographically.
pub open spec fn start_key(a: ApptView) -> Seq<i64> {
    let s = start_of(a);
    seq![
        s.date.year as i64,
        s.date.month as i64,
        s.date.day as i64,
        s.time.hour as i64,
        s.time.minute as i64,
    ]
}

pub open spec fn entry_keys(es: Seq<(ApptView, Seq<char>)>) -> Seq<Seq<i64>> {
    Seq::new(es.len(), |i: int| start_key(es[i].0))
}

/// `out` is `es` sorted by start, equal starts in the order they came.
pub open spec fn sorted_entries(es: Seq<(ApptView, Seq<char>)>, out: Seq<(ApptView, Seq<char>)>) -> bool {
    exists|order: Seq<int>|
        #![trigger stable_order(entry_keys(es), order)]
        stable_order(entry_keys(es), order) && out.len() == order.len() && forall|i: int|
            0 <= i < out.len() ==> #[trigger] out[i] == es[order[i]]
}

/// Comparing start keys is comparing the starts as date-times.
proof fn lemma_start_key_order(a: ApptView, b: ApptView)
    ensures
        lex_lt(start_key(a), start_key(b)) == datetime_lt(start_of(a), start_of(b)),
{
    let ka = start_key(a);
    let kb = start_key(b);
    assert(ka.drop_first() =~= ka.subrange(1, 5));
    assert(kb.drop_first() =~= kb.subrange(1, 5));
    assert(ka.subrange(1, 5).drop_first() =~= ka.subrange(2, 5));
    assert(kb.subrange(1, 5).drop_first() =~= kb.subrange(2, 5));
    assert(ka.subrange(2, 5).drop_first() =~= ka.subrange(3, 5));
    assert(kb.subrange(2, 5).drop_first() =~= kb.subrange(3, 5));
    assert(ka.subrange(3, 5).drop_first() =~= ka.subrange(4, 5));
    assert(kb.subrange(3, 5).drop_first() =~= kb.subrange(4, 5));
    assert(ka.subrange(4, 5).drop_first() =~= Seq::<i64>::empty());
    assert(kb.subrange(4, 5).drop_first() =~= Seq::<i64>::empty());
    reveal_with_fuel(lex_lt, 6);
}

/// A sort of appointments lists them by their whole start, date and time
/// to the minute (an appointment with no start time counting from
/// midnight): no appointment starts before one listed ahead of it.
pub proof fn law_appts_sorted_by_start(
    es: Seq<(ApptView, Seq<char>)>,
    out: Seq<(ApptView, Seq<char>)>,
)
    requires
        sorted_entries(es, out),
    ensures
        forall|i: int, j: int|
            0 <= i < j < out.len() ==> !datetime_lt(
                start_of((#[trigger] out[j]).0),
                start_of((#[trigger] out[i]).0),
            ),
{
    let order = choose|order: Seq<int>|
        #![trigger stable_order(entry_keys(es), order)]
        stable_order(entry_keys(es), order) && out.len() == order.len() && forall|i: int|
            0 <= i < out.len() ==> #[trigger] out[i] == es[order[i]];
    let keys = entry_keys(es);
    assert forall|i: int, j: int| 0 <= i < j < out.len() implies !datetime_lt(
        start_of((#[trigger] out[j]).0),
        start_of((#[trigger] out[i]).0),
    ) by {
        assert(out[i] == es[order[i]]);
        assert(out[j] == es[order[j]]);
        assert(!lex_lt(keys[order[j]], keys[order[i]]));
        lemma_start_key_order(out[j].0, out[i].0);
    }
}

/// `v` sorted by `Appt::start_dt`, stably.
pub fn sorted(v: &Vec<Appt>) -> (r: Vec<Appt>)
    ensures
        sorted_entries(entries(v@), entries(r@)),
        forall|i: int, j: int|
            0 <= i < j < r.len() ==> !datetime_lt(
                start_of((#[trigger] r@[j]).fields()),
                start_of((#[trigger] r@[i]).fields()),
            ),
{
    let ghost es = entries(v@);
    let mut keys: Vec<Vec<i64>> = Vec::new();
    let mut i: usize = 0;
    while i < v.len()
        invariant
            i <= v.len(),
            es == entries(v@),
            key_views(keys@) == entry_keys(es).take(i as int),
        decreases v.len() - i,
    {
        let s = v[i].start_dt();
        let k = vec![
            s.date.year as i64,
            s.date.month as i64,
            s.date.day as i64,
            s.time.hour as i64,
            s.time.minute as i64,
        ];
        assert(k@ =~= start_key(es[i as int].0));
        let ghost pre = key_views(keys@);
        keys.push(k);
        assert(key_views(keys@) =~= pre.push(start_key(es[i as int].0)));
        i = i + 1;
        assert(key_views(keys@) =~= entry_keys(es).take(i as int));
    }
    assert(entry_keys(es).take(i as int) =~= entry_keys(es));
    let order = stable_sort_order(&keys);
    let ghost ov = order_view(order@);
    let mut out: Vec<Appt> = Vec::new();
    let mut j: usize = 0;
    while j < order.len()
        invariant
            j <= order.len(),
            ov == order_view(order@),
            es == entries(v@),
            stable_order(entry_keys(es), ov),
            out.len() == j,
            forall|a: int| 0 <= a < j ==> #[trigger] entries(out@)[a] == es[ov[a]],
        decreases order.len() - j,
    {
        let o = order[j];
        assert(0 <= ov[j as int] < v.len());
        let c = v[o].copy();
        let ghost pre = out@;
        out.push(c);
        assert forall|a: int| 0 <= a < j + 1 implies #[trigger] entries(out@)[a] == es[ov[a]] by {
            if a < j {
                assert(entries(out@)[a] == entries(pre)[a]);
            }
        }
        j = j + 1;
    }
    assert(sorted_entries(es, entries(out@)));
    proof {
        law_appts_sorted_by_start(es, entries(out@));
        assert forall|i: int, j: int| 0 <= i < j < out.len() implies !datetime_lt(
            start_of((#[trigger] out@[j]).fields()),
            start_of((#[trigger] out@[i]).fields()),
        ) by {
            assert(entries(out@)[i].0 == out@[i].fields());
            assert(entries(out@)[j].0 == out@[j].fields());
        }
    }
    out
}

} // verus!
