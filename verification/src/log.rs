//! The timestamped log that flexi and clocking keep: one entry per line,
//! `<timestamp> <description>`, where the timestamp is either
//! `YYYY-MM-DD HH:MM` (16 bytes) or RFC 3339 `YYYY-MM-DDTHH:MM:SS+HH:MM`
//! (25 bytes, recognised by the `T` at byte 10).
use vstd::prelude::*;
use crate::text::{
    byte_len, utf8_len, char_utf8_len, lemma_byte_len_mono, chars_of, string_of, slice_chars,
    trim_start, trim_start_chars, views, lines_of, lines_vec, join_with, split_once,
    split_once_spec, rsplit_once, rsplit_once_spec, starts_with, has_prefix, copy_chars,
    eq_str, append_chars, split_nl, is_ws,
};
use crate::time::{DurationError, DurationFault, duration_value, parse_duration, outcome};

verus! {

/// One log line: its timestamp and what follows it.
pub struct LogEntry {
    pub timestamp: String,
    pub description: String,
}

/// A line that is not `<timestamp> <description>`.
#[derive(Debug)]
pub enum LogError {
    MalformedLine(String),
}

impl View for LogError {
    type V = Seq<char>;

    open spec fn view(&self) -> Seq<char> {
        match self {
            LogError::MalformedLine(l) => l@,
        }
    }
}

/// Character position `k` of `s` begins at byte `b`.
pub open spec fn at_byte(s: Seq<char>, b: int, k: int) -> bool {
    0 <= k <= s.len() && byte_len(s.take(k)) == b
}

pub open spec fn is_boundary(s: Seq<char>, b: int) -> bool {
    exists|k: int| at_byte(s, b, k)
}

/// `str::get(..b)`: the first `b` bytes of `s`, where byte `b` begins a
/// character (or ends the text).
pub open spec fn byte_prefix(s: Seq<char>, b: int) -> Option<Seq<char>> {
    if is_boundary(s, b) {
        Some(s.take(choose|k: int| at_byte(s, b, k)))
    } else {
        None
    }
}

/// The first `b` bytes of `v` (see `byte_prefix`).
pub fn prefix_bytes(v: &Vec<char>, b: usize) -> (r: Option<Vec<char>>)
    requires
        b <= 1000,
    ensures
        match r {
            Some(p) => byte_prefix(v@, b as int) == Some(p@),
            None => byte_prefix(v@, b as int) is None,
        },
{
    match char_at_byte(v, b) {
        Some(k) => {
            proof {
                let c = choose|c: int| at_byte(v@, b as int, c);
                lemma_at_byte_unique(v@, b as int, k as int, c);
            }
            Some(slice_chars(v, 0, k))
        },
        None => None,
    }
}

pub proof fn lemma_at_byte_unique(s: Seq<char>, b: int, k1: int, k2: int)
    requires
        at_byte(s, b, k1),
        at_byte(s, b, k2),
    ensures
        k1 == k2,
{
    if k1 < k2 {
        lemma_byte_len_mono(s, k1, k2);
    } else if k2 < k1 {
        lemma_byte_len_mono(s, k2, k1);
    }
}

/// The timestamp's length in bytes: 25 when the byte at position 10 is a
/// `T` (RFC 3339), 16 otherwise.
pub open spec fn stamp_len(line: Seq<char>) -> int {
    if byte_len(line) > 10 && exists|k: int| at_byte(line, 10, k) && k < line.len() && line[k] == 'T' {
        25
    } else {
        16
    }
}

/// The timestamp and description of a log line: the first `stamp_len`
/// bytes, then the rest with leading whitespace removed, which must not be
/// empty. `None` when the line is not longer than the timestamp, when the
/// timestamp would end inside a character, or when nothing follows it.
pub open spec fn line_fields(line: Seq<char>) -> Option<(Seq<char>, Seq<char>)> {
    let n = stamp_len(line);
    if byte_len(line) > n && is_boundary(line, n) {
        let k = choose|k: int| at_byte(line, n, k);
        let desc = trim_start(line.skip(k));
        if desc.len() > 0 {
            Some((line.take(k), desc))
        } else {
            None
        }
    } else {
        None
    }
}

/// The character position at which byte `b` begins, if one does.
pub fn char_at_byte(v: &Vec<char>, b: usize) -> (r: Option<usize>)
    requires
        b <= 1000,
    ensures
        match r {
            Some(k) => at_byte(v@, b as int, k as int),
            None => !is_boundary(v@, b as int),
        },
{
    let mut i: usize = 0;
    let mut off: usize = 0;
    while i < v.len() && off < b
        invariant
            i <= v.len(),
            b <= 1000,
            off == byte_len(v@.take(i as int)),
            off < b + 4,
            forall|k: int| 0 <= k < i ==> byte_len(v@.take(k)) < b,
        decreases v.len() - i,
    {
        assert(v@.take(i + 1).drop_last() =~= v@.take(i as int));
        off = off + char_utf8_len(v[i]);
        i = i + 1;
    }
    if off == b {
        return Some(i);
    }
    assert forall|k: int| !at_byte(v@, b as int, k) by {
        if 0 <= k <= v@.len() {
            if k < i {
            } else if k > i {
                lemma_byte_len_mono(v@, i as int, k);
            }
        }
    }
    None
}

/// Splits one log line into timestamp and description (see `line_fields`).
pub fn parse_log_line(line: &str) -> (r: Result<LogEntry, LogError>)
    ensures
        match r {
            Ok(e) => line_fields(line@) == Some((e.timestamp@, e.description@)),
            Err(e) => line_fields(line@) is None && e@ == line@,
        },
{
    let v = chars_of(line);
    let k10 = char_at_byte(&v, 10);
    let full = match k10 {
        Some(k) => k < v.len() && v[k] == 'T',
        None => false,
    };
    proof {
        let has_t = exists|k: int| at_byte(v@, 10, k) && k < v@.len() && v@[k] == 'T';
        match k10 {
            Some(k) => {
                if full {
                    lemma_byte_len_mono(v@, k as int, v@.len() as int);
                    assert(v@.take(v@.len() as int) =~= v@);
                    assert(has_t);
                } else {
                    assert forall|j: int| !(at_byte(v@, 10, j) && j < v@.len() && v@[j] == 'T') by {
                        if at_byte(v@, 10, j) {
                            lemma_at_byte_unique(v@, 10, j, k as int);
                        }
                    }
                }
            },
            None => {},
        }
        assert(full == (byte_len(v@) > 10 && has_t));
    }
    let ts_len: usize = if full {
        25
    } else {
        16
    };
    assert(ts_len == stamp_len(line@));
    let kt = char_at_byte(&v, ts_len);
    let k = match kt {
        Some(k) if k < v.len() => k,
        _ => {
            proof {
                match kt {
                    Some(k) => {
                        assert(k == v@.len());
                        assert(v@.take(k as int) =~= v@);
                    },
                    None => {},
                }
            }
            return Err(LogError::MalformedLine(String::from_str(line)));
        },
    };
    proof {
        lemma_byte_len_mono(v@, k as int, v@.len() as int);
        assert(v@.take(v@.len() as int) =~= v@);
        let c = choose|c: int| at_byte(v@, ts_len as int, c);
        lemma_at_byte_unique(v@, ts_len as int, k as int, c);
    }
    let ts = slice_chars(&v, 0, k);
    let rest = slice_chars(&v, k, v.len());
    assert(rest@ =~= v@.skip(k as int));
    let desc = trim_start_chars(&rest);
    if desc.len() == 0 {
        return Err(LogError::MalformedLine(String::from_str(line)));
    }
    Ok(LogEntry { timestamp: string_of(&ts), description: string_of(&desc) })
}

/// The nonempty ones among `ls`, in order.
pub open spec fn keep_nonempty(ls: Seq<Seq<char>>) -> Seq<Seq<char>>
    decreases ls.len(),
{
    if ls.len() == 0 {
        seq![]
    } else if ls.last().len() > 0 {
        keep_nonempty(ls.drop_last()).push(ls.last())
    } else {
        keep_nonempty(ls.drop_last())
    }
}

/// The nonempty lines of a log file's text.
pub open spec fn log_lines(content: Seq<char>) -> Seq<Seq<char>> {
    keep_nonempty(lines_of(content))
}

/// The nonempty lines of `content`.
pub fn nonempty_lines(content: &str) -> (r: Vec<Vec<char>>)
    ensures
        views(r@) == log_lines(content@),
{
    let v = chars_of(content);
    let ls = lines_vec(&v);
    let mut out: Vec<Vec<char>> = Vec::new();
    let mut i: usize = 0;
    while i < ls.len()
        invariant
            i <= ls.len(),
            views(ls@) == lines_of(v@),
            views(out@) == keep_nonempty(views(ls@).take(i as int)),
        decreases ls.len() - i,
    {
        assert(views(ls@).take(i + 1).drop_last() =~= views(ls@).take(i as int));
        assert(ls[i as int]@ == views(ls@)[i as int]);
        let ghost old_out = views(out@);
        if ls[i].len() > 0 {
            out.push(copy_chars(&ls[i]));
            assert(views(out@) =~= old_out.push(views(ls@)[i as int]));
        }
        i = i + 1;
    }
    assert(views(ls@).take(i as int) =~= views(ls@));
    out
}

/// What reading a log gives: the entry of every nonempty line, or the first
/// line that is not an entry.
pub open spec fn log_read(content: Seq<char>, r: Result<Vec<LogEntry>, LogError>) -> bool {
    let ls = log_lines(content);
    match r {
        Ok(es) => es.len() == ls.len() && forall|i: int|
            0 <= i < ls.len() ==> line_fields(ls[i]) == Some(
                (#[trigger] es[i].timestamp@, es[i].description@),
            ),
        Err(e) => exists|i: int|
            0 <= i < ls.len() && line_fields(ls[i]) is None && e@ == ls[i] && forall|j: int|
                0 <= j < i ==> line_fields(#[trigger] ls[j]) is Some,
    }
}

/// Reads every entry of a log file's text (all its nonempty lines).
pub fn read_log(content: &str) -> (r: Result<Vec<LogEntry>, LogError>)
    ensures
        log_read(content@, r),
{
    let ls = nonempty_lines(content);
    let ghost lv = views(ls@);
    let mut out: Vec<LogEntry> = Vec::new();
    let mut i: usize = 0;
    while i < ls.len()
        invariant
            lv == views(ls@),
            lv == log_lines(content@),
            i <= ls.len(),
            out.len() == i,
            forall|j: int|
                0 <= j < i ==> line_fields(lv[j]) == Some(
                    (#[trigger] out@[j].timestamp@, out@[j].description@),
                ),
        decreases ls.len() - i,
    {
        let s = string_of(&ls[i]);
        assert(s@ == lv[i as int]);
        match parse_log_line(s.as_str()) {
            Ok(e) => {
                out.push(e);
            },
            Err(e) => {
                assert forall|j: int| 0 <= j < i implies line_fields(#[trigger] lv[j]) is Some by {
                    assert(line_fields(lv[j]) == Some((out@[j].timestamp@, out@[j].description@)));
                }
                return Err(e);
            },
        }
        i = i + 1;
    }
    Ok(out)
}

/// The text a log keeps after its last line is taken off: the other
/// nonempty lines, each ended by `\n`.
pub open spec fn without_last(content: Seq<char>) -> Seq<char> {
    log_text(log_lines(content).drop_last())
}

/// Takes the last entry off a log: `None` for a log with no entries, else
/// the last line's entry and the text left (see `without_last`). Only the
/// last line is read.
pub fn pop_log(content: &str) -> (r: Result<Option<(LogEntry, String)>, LogError>)
    ensures
        match r {
            Ok(None) => log_lines(content@).len() == 0,
            Ok(Some((e, rest))) => log_lines(content@).len() > 0 && line_fields(
                log_lines(content@).last(),
            ) == Some((e.timestamp@, e.description@)) && rest@ == without_last(content@),
            Err(e) => log_lines(content@).len() > 0 && line_fields(log_lines(content@).last())
                is None && e@ == log_lines(content@).last(),
        },
{
    let mut ls = nonempty_lines(content);
    if ls.len() == 0 {
        return Ok(None);
    }
    let ghost all = views(ls@);
    let last = ls.pop().unwrap();
    assert(views(ls@) =~= all.drop_last());
    assert(last@ == all.last());
    let ls_str = string_of(&last);
    let e = match parse_log_line(ls_str.as_str()) {
        Ok(e) => e,
        Err(err) => {
            return Err(err);
        },
    };
    let nl = vec!['\n'];
    let mut rest = crate::text::join_chars(&ls, &nl);
    assert(nl@ =~= seq!['\n']);
    if rest.len() > 0 {
        rest.push('\n');
    }
    Ok(Some((e, string_of(&rest))))
}

/// The entry on the last nonempty line of a log, if there is one.
pub fn last_entry(content: &str) -> (r: Result<Option<LogEntry>, LogError>)
    ensures
        match r {
            Ok(None) => log_lines(content@).len() == 0,
            Ok(Some(e)) => log_lines(content@).len() > 0 && line_fields(
                log_lines(content@).last(),
            ) == Some((e.timestamp@, e.description@)),
            Err(e) => log_lines(content@).len() > 0 && line_fields(log_lines(content@).last())
                is None && e@ == log_lines(content@).last(),
        },
{
    let ls = nonempty_lines(content);
    if ls.len() == 0 {
        return Ok(None);
    }
    let last = &ls[ls.len() - 1];
    assert(last@ == views(ls@).last());
    let s = string_of(last);
    match parse_log_line(s.as_str()) {
        Ok(e) => Ok(Some(e)),
        Err(err) => Err(err),
    }
}


/// What `parse_duration` reads a text as.
pub open spec fn reads_as(t: Seq<char>) -> Result<int, DurationFault> {
    duration_value(crate::text::lower(crate::text::trim(t)))
}

/// A description without its note: the text before the first ` # `.
pub open spec fn body_of(d: Seq<char>) -> Seq<char> {
    match split_once_spec(d, " # "@) {
        Some((a, _)) => a,
        None => d,
    }
}

/// The note of a description: the text after the first ` # `.
pub open spec fn note_of(d: Seq<char>) -> Option<Seq<char>> {
    match split_once_spec(d, " # "@) {
        Some((_, n)) => Some(n),
        None => None,
    }
}

/// An open clocking session is marked by a body of exactly `@in`.
pub open spec fn is_open_marker(d: Seq<char>) -> bool {
    body_of(d) == "@in"@
}

/// Minutes of a closed clocking session: the duration after the last ` = `
/// of the body, when it reads as one.
pub open spec fn session_minutes_of(d: Seq<char>) -> Option<int> {
    if is_open_marker(d) {
        None
    } else {
        match crate::text::rsplit_once_spec(body_of(d), " = "@) {
            None => None,
            Some((_, dur)) => match reads_as(dur) {
                Ok(v) => Some(v),
                Err(_) => None,
            },
        }
    }
}

/// The change arrow of a balance entry (`+1 hr → 2 hr`): the last ` → `,
/// else the last ` -> `, else the last ` > `; the text before and after it.
pub open spec fn arrow_split(b: Seq<char>) -> Option<(Seq<char>, Seq<char>)> {
    match rsplit_once_spec(b, " → "@) {
        Some(p) => Some(p),
        None => match rsplit_once_spec(b, " -> "@) {
            Some(p) => Some(p),
            None => rsplit_once_spec(b, " > "@),
        },
    }
}

/// Why an entry holds no balance.
pub enum EntryFault {
    NoValue(Seq<char>),
    Duration(DurationFault),
}

/// Why an entry holds no balance: it is neither a change (`... → BALANCE`)
/// nor a set (`= BALANCE`), or its balance is not a duration.
#[derive(Debug)]
pub enum EntryError {
    NoValue(String),
    Duration(DurationError),
}

impl View for EntryError {
    type V = EntryFault;

    open spec fn view(&self) -> EntryFault {
        match self {
            EntryError::NoValue(s) => EntryFault::NoValue(s@),
            EntryError::Duration(e) => EntryFault::Duration(e@),
        }
    }
}

/// A flexi session marker: `@in BALANCE` opens a session that banks
/// time, `@out BALANCE` one that spends it; both keep the balance as it
/// was. Gives whether it banks, and the balance text.
pub open spec fn marker_of(d: Seq<char>) -> Option<(bool, Seq<char>)> {
    let b = body_of(d);
    if has_prefix(b, "@in "@) {
        Some((true, b.skip(4)))
    } else if has_prefix(b, "@out "@) {
        Some((false, b.skip(5)))
    } else {
        None
    }
}

/// The balance a flexi entry records: the duration after the change arrow,
/// after the `= ` that starts a set, or after a session marker; the note is
/// not part of it.
pub open spec fn balance_of(d: Seq<char>) -> Result<int, EntryFault> {
    let b = body_of(d);
    let read = match arrow_split(b) {
        Some((_, after)) => Some(reads_as(after)),
        None => if has_prefix(b, "= "@) {
            Some(reads_as(b.skip(2)))
        } else {
            match marker_of(d) {
                Some((_, t)) => Some(reads_as(t)),
                None => None,
            }
        },
    };
    match read {
        None => Err(EntryFault::NoValue(d)),
        Some(Ok(v)) => Ok(v),
        Some(Err(e)) => Err(EntryFault::Duration(e)),
    }
}

/// The change a flexi entry records: the duration before the change arrow
/// (`None` for a set, or when it does not read as a duration).
pub open spec fn delta_of(d: Seq<char>) -> Option<int> {
    match arrow_split(body_of(d)) {
        Some((before, _)) => match reads_as(before) {
            Ok(v) => Some(v),
            Err(_) => None,
        },
        None => None,
    }
}

fn body_chars(d: &Vec<char>) -> (r: Vec<char>)
    ensures
        r@ == body_of(d@),
{
    match split_once(d, " # ") {
        Some((a, _)) => a,
        None => copy_chars(d),
    }
}

/// Reads a body as a session marker (see `marker_of`).
fn marker_chars(b: &Vec<char>) -> (r: Option<(bool, Vec<char>)>)
    ensures
        match r {
            Some((k, t)) => (if has_prefix(b@, "@in "@) {
                Some((true, b@.skip(4)))
            } else if has_prefix(b@, "@out "@) {
                Some((false, b@.skip(5)))
            } else {
                None::<(bool, Seq<char>)>
            }) == Some((k, t@)),
            None => !has_prefix(b@, "@in "@) && !has_prefix(b@, "@out "@),
        },
{
    proof {
        reveal_strlit("@in ");
        reveal_strlit("@out ");
    }
    if starts_with(b, "@in ") {
        let t = slice_chars(b, 4, b.len());
        assert(t@ =~= b@.skip(4));
        Some((true, t))
    } else if starts_with(b, "@out ") {
        let t = slice_chars(b, 5, b.len());
        assert(t@ =~= b@.skip(5));
        Some((false, t))
    } else {
        None
    }
}

fn arrow_split_chars(b: &Vec<char>) -> (r: Option<(Vec<char>, Vec<char>)>)
    ensures
        match r {
            Some((x, y)) => arrow_split(b@) == Some((x@, y@)),
            None => arrow_split(b@) is None,
        },
{
    match rsplit_once(b, " → ") {
        Some(p) => Some(p),
        None => match rsplit_once(b, " -> ") {
            Some(p) => Some(p),
            None => rsplit_once(b, " > "),
        },
    }
}

impl LogEntry {
    /// The description without its note.
    pub fn body(&self) -> (r: String)
        ensures
            r@ == body_of(self.description@),
    {
        let d = chars_of(self.description.as_str());
        string_of(&body_chars(&d))
    }

    /// The note after ` # `, if any.
    pub fn note(&self) -> (r: Option<String>)
        ensures
            match r {
                Some(n) => note_of(self.description@) == Some(n@),
                None => note_of(self.description@) is None,
            },
    {
        let d = chars_of(self.description.as_str());
        match split_once(&d, " # ") {
            Some((_, n)) => Some(string_of(&n)),
            None => None,
        }
    }

    /// True if this entry is an open session marker (`@in`).
    pub fn is_open(&self) -> (b: bool)
        ensures
            b == is_open_marker(self.description@),
    {
        let d = chars_of(self.description.as_str());
        let b = body_chars(&d);
        eq_str(&b, "@in")
    }

    /// Worked minutes for a completed session line (`17:00 = 8 hr 30 min`, the
    /// recorded duration after ` = `). Returns None for open `@in` markers.
    pub fn session_minutes(&self) -> (r: Option<i32>)
        ensures
            match r {
                Some(v) => session_minutes_of(self.description@) == Some(v as int),
                None => session_minutes_of(self.description@) is None,
            },
    {
        if self.is_open() {
            return None;
        }
        let d = chars_of(self.description.as_str());
        let b = body_chars(&d);
        match rsplit_once(&b, " = ") {
            None => None,
            Some((_, dur)) => {
                let s = string_of(&dur);
                match parse_duration(s.as_str()) {
                    Ok(v) => Some(v),
                    Err(_) => None,
                }
            },
        }
    }

    /// The balance this entry records (see `balance_of`).
    pub fn new_minutes(&self) -> (r: Result<i32, EntryError>)
        ensures
            match r {
                Ok(v) => balance_of(self.description@) == Ok::<int, EntryFault>(v as int),
                Err(e) => balance_of(self.description@) == Err::<int, EntryFault>(e@),
            },
    {
        let d = chars_of(self.description.as_str());
        let b = body_chars(&d);
        let text = match arrow_split_chars(&b) {
            Some((_, after)) => after,
            None => {
                if starts_with(&b, "= ") {
                    proof {
                        reveal_strlit("= ");
                    }
                    let t = slice_chars(&b, 2, b.len());
                    assert(t@ =~= b@.skip(2));
                    t
                } else {
                    match marker_chars(&b) {
                        Some((_, t)) => t,
                        None => {
                            return Err(EntryError::NoValue(string_of(&d)));
                        },
                    }
                }
            },
        };
        let s = string_of(&text);
        match parse_duration(s.as_str()) {
            Ok(v) => Ok(v),
            Err(e) => Err(EntryError::Duration(e)),
        }
    }

    /// The session marker this entry is, if any (see `marker_of`): whether
    /// it banks, and its balance text.
    pub fn marker(&self) -> (r: Option<(bool, String)>)
        ensures
            match r {
                Some((k, t)) => marker_of(self.description@) == Some((k, t@)),
                None => marker_of(self.description@) is None,
            },
    {
        let d = chars_of(self.description.as_str());
        let b = body_chars(&d);
        match marker_chars(&b) {
            Some((k, t)) => Some((k, string_of(&t))),
            None => None,
        }
    }

    /// The change this entry records (see `delta_of`).
    pub fn delta_minutes(&self) -> (r: Option<i32>)
        ensures
            match r {
                Some(v) => delta_of(self.description@) == Some(v as int),
                None => delta_of(self.description@) is None,
            },
    {
        let d = chars_of(self.description.as_str());
        let b = body_chars(&d);
        match arrow_split_chars(&b) {
            Some((before, _)) => {
                let s = string_of(&before);
                match parse_duration(s.as_str()) {
                    Ok(v) => Some(v),
                    Err(_) => None,
                }
            },
            None => None,
        }
    }
}

/// Why the balance could not be read from a log.
#[derive(Debug)]
pub enum BalanceError {
    Log(LogError),
    Entry(EntryError),
}

/// The description on the last nonempty line of the log.
pub open spec fn last_description(content: Seq<char>) -> Seq<char> {
    match line_fields(log_lines(content).last()) {
        Some((_, d)) => d,
        None => seq![],
    }
}

/// The log records the balance `v`: it has no entries and `v` is 0, or its
/// last line is an entry recording `v`.
pub open spec fn recorded_balance(content: Seq<char>, v: int) -> bool {
    ||| log_lines(content).len() == 0 && v == 0
    ||| log_lines(content).len() > 0 && line_fields(log_lines(content).last()) is Some && balance_of(
        last_description(content),
    ) == Ok::<int, EntryFault>(v)
}

/// The current balance: what the last entry of the log records, or 0 for a
/// log with no entries. Only the last line is read.
pub fn read_minutes(content: &str) -> (r: Result<i32, BalanceError>)
    ensures
        match r {
            Ok(v) => recorded_balance(content@, v as int),
            Err(BalanceError::Log(e)) => log_lines(content@).len() > 0 && line_fields(
                log_lines(content@).last(),
            ) is None && e@ == log_lines(content@).last(),
            Err(BalanceError::Entry(e)) => log_lines(content@).len() > 0 && line_fields(
                log_lines(content@).last(),
            ) is Some && balance_of(last_description(content@)) == Err::<int, EntryFault>(e@),
        },
{
    match last_entry(content) {
        Err(e) => Err(BalanceError::Log(e)),
        Ok(None) => Ok(0),
        Ok(Some(last)) => match last.new_minutes() {
            Ok(v) => Ok(v),
            Err(e) => Err(BalanceError::Entry(e)),
        },
    }
}

/// Why a note is refused.
#[derive(Debug, PartialEq, Eq)]
pub enum NoteError {
    /// The note holds a line break, which would split the log line.
    Newline,
    /// The note is empty or only whitespace.
    Empty,
}

/// Checks a `--note`: no line break, and more than whitespace.
pub fn parse_note(s: &str) -> (r: Result<String, NoteError>)
    ensures
        match r {
            Ok(n) => n@ == s@ && !s@.contains('\n') && !s@.contains('\r') && crate::text::trim(
                s@,
            ).len() > 0,
            Err(NoteError::Newline) => s@.contains('\n') || s@.contains('\r'),
            Err(NoteError::Empty) => !s@.contains('\n') && !s@.contains('\r') && crate::text::trim(
                s@,
            ).len() == 0,
        },
{
    let v = chars_of(s);
    let mut i: usize = 0;
    while i < v.len()
        invariant
            i <= v.len(),
            v@ == s@,
            forall|j: int| 0 <= j < i ==> v@[j] != '\n' && v@[j] != '\r',
        decreases v.len() - i,
    {
        if v[i] == '\n' || v[i] == '\r' {
            assert(s@.contains(v@[i as int]));
            return Err(NoteError::Newline);
        }
        i = i + 1;
    }
    if crate::text::trim_chars(&v).len() == 0 {
        return Err(NoteError::Empty);
    }
    Ok(s.to_owned())
}

/// A log line: the timestamp, a space, the description, and a line break.
pub open spec fn log_line_text(timestamp: Seq<char>, description: Seq<char>) -> Seq<char> {
    timestamp + seq![' '] + description + seq!['\n']
}

/// The line a log appends for an entry.
pub fn log_line(timestamp: &str, description: &str) -> (r: String)
    ensures
        r@ == log_line_text(timestamp@, description@),
{
    let mut out: Vec<char> = Vec::new();
    crate::text::append_str(&mut out, timestamp);
    out.push(' ');
    crate::text::append_str(&mut out, description);
    out.push('\n');
    assert(out@ =~= log_line_text(timestamp@, description@));
    string_of(&out)
}

/// Taking the last entry off a log undoes appending it. Where the log's
/// text is empty or ends its last line, and the appended line (no line
/// break in it, not ending in `\r`) reads back as the timestamp and
/// description it was written from: the log's lines become its old lines
/// plus the new one, so `pop_log` gives back that entry, and the text it
/// leaves holds exactly the old lines.
pub proof fn law_pop_undoes_append(content: Seq<char>, timestamp: Seq<char>, description: Seq<char>)
    requires
        content.len() == 0 || content.last() == '\n',
        !timestamp.contains('\n'),
        !description.contains('\n'),
        description.len() == 0 || description.last() != '\r',
        line_fields(timestamp + seq![' '] + description) == Some((timestamp, description)),
    ensures
        log_lines(content + log_line_text(timestamp, description)) == log_lines(content).push(
            timestamp + seq![' '] + description,
        ),
        line_fields(log_lines(content + log_line_text(timestamp, description)).last()) == Some(
            (timestamp, description),
        ),
        (forall|i: int|
            0 <= i < log_lines(content).len() ==> #[trigger] log_lines(content)[i].last() != '\r')
            ==> log_lines(without_last(content + log_line_text(timestamp, description)))
            == log_lines(content),
{
    let l = timestamp + seq![' '] + description;
    assert(!l.contains('\n')) by {
        if l.contains('\n') {
            let k = choose|k: int| 0 <= k < l.len() && l[k] == '\n';
            if k < timestamp.len() {
                assert(timestamp[k] == '\n');
            } else if k > timestamp.len() {
                assert(description[k - timestamp.len() - 1] == '\n');
            }
        }
    }
    assert(l.last() != '\r') by {
        if description.len() > 0 {
            assert(l.last() == description.last());
        }
    }
    assert(log_line_text(timestamp, description) =~= l.push('\n'));
    assert(content + log_line_text(timestamp, description) =~= content + l.push('\n'));
    crate::text::lemma_lines_of_append_line(content, l);
    let ls = lines_of(content);
    assert(l.len() > 0) by {
        assert(l[timestamp.len() as int] == ' ');
    }
    assert(ls.push(l).drop_last() =~= ls);
    let all = log_lines(content + log_line_text(timestamp, description));
    assert(all == log_lines(content).push(l));
    assert(all.drop_last() =~= log_lines(content));
    assert(without_last(content + log_line_text(timestamp, description)) == log_text(
        log_lines(content),
    ));
    if forall|i: int|
        0 <= i < log_lines(content).len() ==> #[trigger] log_lines(content)[i].last() != '\r' {
        lemma_log_lines_shape(content);
        lemma_log_text_reads_back(log_lines(content));
    }
}

/// The text a log file holding `ls` has: each line ended by `\n`.
pub open spec fn log_text(ls: Seq<Seq<char>>) -> Seq<char> {
    let rest = join_with(ls, seq!['\n']);
    if rest.len() == 0 {
        rest
    } else {
        rest.push('\n')
    }
}

proof fn lemma_log_text_step(ls: Seq<Seq<char>>)
    requires
        ls.len() > 0,
        forall|i: int| 0 <= i < ls.len() ==> (#[trigger] ls[i]).len() > 0,
    ensures
        log_text(ls) == log_text(ls.drop_last()) + ls.last().push('\n'),
        log_text(ls.drop_last()).len() == 0 || log_text(ls.drop_last()).last() == '\n',
{
    let p = ls.drop_last();
    if ls.len() == 1 {
        assert(p.len() == 0);
        assert(join_with(ls, seq!['\n']) == ls[0]);
        assert(ls[0].len() > 0);
        assert(log_text(ls) =~= log_text(p) + ls.last().push('\n'));
    } else {
        let j = join_with(p, seq!['\n']);
        assert(j.len() > 0) by {
            if p.len() == 1 {
                assert(p[0] == ls[0]);
            }
        }
        assert(join_with(ls, seq!['\n']) == j + seq!['\n'] + ls.last());
        assert(log_text(ls) =~= log_text(p) + ls.last().push('\n'));
    }
}

/// Reading the text of a log holding nonempty lines without line breaks
/// gives those lines again, where none ends in a `\r`.
proof fn lemma_log_text_reads_back(ls: Seq<Seq<char>>)
    requires
        forall|i: int| 0 <= i < ls.len() ==> (#[trigger] ls[i]).len() > 0 && !ls[i].contains('\n'),
        forall|i: int| 0 <= i < ls.len() ==> #[trigger] ls[i].last() != '\r',
    ensures
        log_lines(log_text(ls)) == ls,
    decreases ls.len(),
{
    if ls.len() == 0 {
        assert(log_text(ls) =~= Seq::<char>::empty());
        assert(split_nl(seq![]) == seq![Seq::<char>::empty()]);
        assert(lines_of(seq![]) =~= Seq::<Seq<char>>::empty());
        assert(log_lines(log_text(ls)) =~= ls);
    } else {
        let p = ls.drop_last();
        assert forall|i: int| 0 <= i < p.len() implies (#[trigger] p[i]).len() > 0 && !p[i].contains(
            '\n',
        ) && p[i].last() != '\r' by {
            assert(p[i] == ls[i]);
        }
        lemma_log_text_reads_back(p);
        lemma_log_text_step(ls);
        let l = ls.last();
        assert(l == ls[ls.len() - 1]);
        crate::text::lemma_lines_of_append_line(log_text(p), l);
        let q = lines_of(log_text(p));
        assert(q.push(l).drop_last() =~= q);
        assert(log_lines(log_text(ls)) =~= p.push(l));
        assert(p.push(l) =~= ls);
    }
}

/// Every line of a log is nonempty and holds no line break.
proof fn lemma_log_lines_shape(content: Seq<char>)
    ensures
        forall|i: int|
            0 <= i < log_lines(content).len() ==> (#[trigger] log_lines(content)[i]).len() > 0
                && !log_lines(content)[i].contains('\n'),
{
    crate::text::lemma_lines_of_no_nl(content);
    lemma_keep_nonempty_shape(lines_of(content));
}

proof fn lemma_keep_nonempty_shape(ls: Seq<Seq<char>>)
    requires
        forall|i: int| 0 <= i < ls.len() ==> !(#[trigger] ls[i]).contains('\n'),
    ensures
        forall|i: int|
            0 <= i < keep_nonempty(ls).len() ==> (#[trigger] keep_nonempty(ls)[i]).len() > 0
                && !keep_nonempty(ls)[i].contains('\n'),
    decreases ls.len(),
{
    if ls.len() > 0 {
        let p = ls.drop_last();
        assert forall|i: int| 0 <= i < p.len() implies !(#[trigger] p[i]).contains('\n') by {
            assert(p[i] == ls[i]);
        }
        lemma_keep_nonempty_shape(p);
        assert(ls.last() == ls[ls.len() - 1]);
        let k = keep_nonempty(ls);
        let kp = keep_nonempty(p);
        assert forall|i: int| 0 <= i < k.len() implies (#[trigger] k[i]).len() > 0
            && !k[i].contains('\n') by {
            if ls.last().len() > 0 {
                assert(k == kp.push(ls.last()));
                if i < kp.len() {
                    assert(k[i] == kp[i]);
                }
            } else {
                assert(k == kp);
            }
        }
    }
}

/// A description whose text before a ` # ` holds no `#` splits there:
/// that text is the body, what follows the note; with no ` # ` added, the
/// whole is the body and there is no note.
pub proof fn lemma_split_note(body: Seq<char>, note: Option<Seq<char>>)
    requires
        forall|i: int| 0 <= i < body.len() ==> #[trigger] body[i] != '#',
    ensures
        ({
            let d = match note {
                Some(n) => body + " # "@ + n,
                None => body,
            };
            body_of(d) == body && note_of(d) == note
        }),
{
    let pat = " # "@;
    assert(pat == seq![' ', '#', ' ']) by {
        reveal_strlit(" # ");
    }
    let d = match note {
        Some(n) => body + pat + n,
        None => body,
    };
    assert forall|i: int| 0 <= i < body.len() implies !crate::text::occurs_at(d, pat, i) by {
        if crate::text::occurs_at(d, pat, i) {
            assert(d.subrange(i, i + 3)[1] == d[i + 1]);
            if i + 1 < body.len() {
                assert(d[i + 1] == body[i + 1]);
            }
        }
    }
    match note {
        Some(n) => {
            let k = body.len() as int;
            assert(crate::text::occurs_at(d, pat, k)) by {
                assert(d.subrange(k, k + 3) =~= pat);
            }
            assert(crate::text::first_occ(d, pat, k));
            let c = choose|c: int| crate::text::first_occ(d, pat, c);
            crate::text::lemma_first_occ_unique(d, pat, k, c);
            assert(d.take(k) =~= body);
            assert(d.skip(k + 3) =~= n);
        },
        None => {
            assert forall|i: int| !crate::text::occurs_at(d, pat, i) by {
                if 0 <= i && i < body.len() {
                } else if crate::text::occurs_at(d, pat, i) {
                }
            }
        },
    }
}

/// A timestamp in the `YYYY-MM-DD HH:MM` form that flexi and clocking
/// write: sixteen characters, ASCII digits with `-`, ` `, `:` in their
/// places.
#[verifier::opaque]
pub open spec fn is_local_stamp(ts: Seq<char>) -> bool {
    &&& ts.len() == 16
    &&& ts[4] == '-' && ts[7] == '-' && ts[10] == ' ' && ts[13] == ':'
    &&& forall|i: int|
        0 <= i < 16 && i != 4 && i != 7 && i != 10 && i != 13 ==> '0' <= #[trigger] ts[i] <= '9'
}

/// A text of ASCII characters takes one byte per character.
proof fn lemma_ascii_byte_len(s: Seq<char>)
    requires
        forall|i: int| 0 <= i < s.len() ==> (#[trigger] s[i] as u32) < 0x80,
    ensures
        byte_len(s) == s.len(),
    decreases s.len(),
{
    if s.len() > 0 {
        let p = s.drop_last();
        assert forall|i: int| 0 <= i < p.len() implies (#[trigger] p[i] as u32) < 0x80 by {
            assert(p[i] == s[i]);
        }
        lemma_ascii_byte_len(p);
        assert((s[s.len() - 1] as u32) < 0x80);
    }
}

/// Leading whitespace goes in `trim_start`.
proof fn lemma_trim_start_ws(w: Seq<char>, d: Seq<char>)
    requires
        forall|i: int| 0 <= i < w.len() ==> is_ws(#[trigger] w[i]),
    ensures
        trim_start(w + d) == trim_start(d),
    decreases w.len(),
{
    if w.len() > 0 {
        assert(is_ws(w[0]));
        let w1 = w.drop_first();
        assert forall|i: int| 0 <= i < w1.len() implies is_ws(#[trigger] w1[i]) by {
            assert(w1[i] == w[i + 1]);
        }
        lemma_trim_start_ws(w1, d);
        assert((w + d).drop_first() =~= w1 + d);
    }
}

/// The byte counts of a `YYYY-MM-DD HH:MM` timestamp: one byte per
/// character.
proof fn lemma_local_stamp_bytes(ts: Seq<char>)
    requires
        is_local_stamp(ts),
    ensures
        ts.len() == 16,
        byte_len(ts) == 16,
        byte_len(ts.take(10)) == 10,
        ts[10] == ' ',
        !ts.contains('\n'),
{
    reveal(is_local_stamp);
    assert forall|i: int| 0 <= i < 16 implies (#[trigger] ts[i] as u32) < 0x80 by {
        if i != 4 && i != 7 && i != 10 && i != 13 {
            assert('0' <= ts[i] <= '9');
        }
    }
    lemma_ascii_byte_len(ts);
    assert forall|i: int| 0 <= i < 10 implies (#[trigger] ts.take(10)[i] as u32) < 0x80 by {
        assert(ts.take(10)[i] == ts[i]);
    }
    lemma_ascii_byte_len(ts.take(10));
    assert(!ts.contains('\n')) by {
        if ts.contains('\n') {
            let k = choose|k: int| 0 <= k < ts.len() && ts[k] == '\n';
            assert((ts[k] as u32) < 0x80);
            if k != 4 && k != 7 && k != 10 && k != 13 {
                assert('0' <= ts[k] <= '9');
            }
        }
    }
}

/// A line made of a `YYYY-MM-DD HH:MM` timestamp, whitespace, and a
/// description that does not start with whitespace splits back into that
/// timestamp and that description.
pub proof fn law_local_stamp_line_fields(ts: Seq<char>, w: Seq<char>, desc: Seq<char>)
    requires
        is_local_stamp(ts),
        w.len() > 0,
        forall|i: int| 0 <= i < w.len() ==> is_ws(#[trigger] w[i]),
        desc.len() > 0,
        !is_ws(desc[0]),
    ensures
        line_fields(ts + w + desc) == Some((ts, desc)),
{
    let line = ts + w + desc;
    lemma_local_stamp_bytes(ts);
    lemma_stamp_parts(ts, w + desc);
    assert(line =~= ts + (w + desc));
    lemma_sixteen_byte_stamp(line);
    lemma_trim_start_ws(w, desc);
}

/// The parts of a text that starts with a sixteen-character stamp.
proof fn lemma_stamp_parts(ts: Seq<char>, rest: Seq<char>)
    requires
        ts.len() == 16,
    ensures
        (ts + rest).take(16) == ts,
        (ts + rest).take(10) == ts.take(10),
        (ts + rest)[10] == ts[10],
        (ts + rest).skip(16) == rest,
{
    assert((ts + rest).take(16) =~= ts);
    assert((ts + rest).take(10) =~= ts.take(10));
    assert((ts + rest).skip(16) =~= rest);
}

/// A line whose first ten and sixteen characters take ten and sixteen
/// bytes, with no `T` at position 10, has a sixteen-byte timestamp that
/// ends at character 16.
proof fn lemma_sixteen_byte_stamp(line: Seq<char>)
    requires
        line.len() > 16,
        byte_len(line.take(10)) == 10,
        byte_len(line.take(16)) == 16,
        line[10] != 'T',
    ensures
        stamp_len(line) == 16,
        byte_len(line) > 16,
        is_boundary(line, 16),
        (choose|k: int| at_byte(line, 16, k)) == 16,
{
    assert(at_byte(line, 10, 10));
    assert(at_byte(line, 16, 16));
    assert(byte_len(line) > 16) by {
        lemma_byte_len_mono(line, 16, line.len() as int);
        assert(line.take(line.len() as int) =~= line);
    }
    assert(stamp_len(line) == 16) by {
        if exists|k: int| at_byte(line, 10, k) && k < line.len() && line[k] == 'T' {
            let k = choose|k: int| at_byte(line, 10, k) && k < line.len() && line[k] == 'T';
            lemma_at_byte_unique(line, 10, 10, k);
        }
    }
    let k = choose|k: int| at_byte(line, 16, k);
    lemma_at_byte_unique(line, 16, 16, k);
}

/// The balance is read from the last entry alone: where the last nonempty
/// line of a log is a `YYYY-MM-DD HH:MM` timestamp, whitespace, and a
/// description recording the balance `v`, the log records `v`, whatever
/// the earlier lines hold (`read_minutes` then gives `v`).
pub proof fn law_balance_from_last_entry(
    content: Seq<char>,
    ts: Seq<char>,
    w: Seq<char>,
    desc: Seq<char>,
    v: int,
)
    requires
        log_lines(content).len() > 0,
        log_lines(content).last() == ts + w + desc,
        is_local_stamp(ts),
        w.len() > 0,
        forall|i: int| 0 <= i < w.len() ==> is_ws(#[trigger] w[i]),
        desc.len() > 0,
        !is_ws(desc[0]),
        balance_of(desc) == Ok::<int, EntryFault>(v),
    ensures
        line_fields(log_lines(content).last()) == Some((ts, desc)),
        last_description(content) == desc,
        recorded_balance(content, v),
{
    law_local_stamp_line_fields(ts, w, desc);
}

/// Undoing an append with a `YYYY-MM-DD HH:MM` timestamp takes off just
/// the appended line: `pop_log` gives back the entry that was written, and
/// the text it leaves holds exactly the log's old lines.
pub proof fn law_pop_undoes_local_append(content: Seq<char>, ts: Seq<char>, desc: Seq<char>)
    requires
        content.len() == 0 || content.last() == '\n',
        is_local_stamp(ts),
        desc.len() > 0,
        !is_ws(desc[0]),
        !desc.contains('\n'),
        desc.last() != '\r',
    ensures
        log_lines(content + log_line_text(ts, desc)) == log_lines(content).push(
            ts + seq![' '] + desc,
        ),
        line_fields(log_lines(content + log_line_text(ts, desc)).last()) == Some((ts, desc)),
        (forall|i: int|
            0 <= i < log_lines(content).len() ==> #[trigger] log_lines(content)[i].last() != '\r')
            ==> log_lines(without_last(content + log_line_text(ts, desc))) == log_lines(content),
{
    law_local_stamp_line_fields(ts, seq![' '], desc);
    lemma_local_stamp_bytes(ts);
    law_pop_undoes_append(content, ts, desc);
}

} // verus!
