//! flexi: a flexi-time balance kept as a log of changes
//! (`+1 hr > 2 hr`, `= 3 hr`), and how its history is summed up and told.
use vstd::prelude::*;
use crate::text::{chars_of, string_of, append_str, append_chars, replace_all, replace_chars, has_prefix};
use crate::log::{LogEntry, LogError, EntryError, BalanceError, read_minutes, recorded_balance, last_description, note_of, body_of, delta_of, balance_of, arrow_split, reads_as, EntryFault, marker_of, last_entry, log_lines, line_fields};
use crate::dates::{Time, time_text, push_time};
use crate::time::{round_to_increment, rounded_to, parse_duration, DurationError, abs};
use crate::time::{plain, law_duration_round_trip, duration_value, DurationFault};
use crate::text::{occurs_at, first_occ, last_occ, contains_pat, split_once_spec, rsplit_once_spec, lemma_first_occ_unique, lemma_last_occ_unique, trim, lower, is_lower_ascii};
use crate::time::{format_duration, duration_text};
use crate::logview::{LogFilter, display_stamp, stamp_for_display};

verus! {

/// The settings a configuration file may give.
pub struct Config {
    pub path: Option<String>,
}

/// No log path was given and there is no data directory to default to.
#[derive(Debug, PartialEq, Eq)]
pub enum ConfigError {
    NoDataDir,
}

/// The log path: the configured one, else `default_path` (the log file
/// under the data directory, where there is one).
pub fn resolve_flexi_path(config: Config, default_path: Option<String>) -> (r: Result<String, ConfigError>)
    ensures
        match r {
            Ok(p) => p@ == (match config.path {
                Some(c) => c@,
                None => default_path->0@,
            }) && (config.path is Some || default_path is Some),
            Err(ConfigError::NoDataDir) => config.path is None && default_path is None,
        },
{
    match config.path {
        Some(p) => Ok(p),
        None => match default_path {
            Some(p) => Ok(p),
            None => Err(ConfigError::NoDataDir),
        },
    }
}

/// A change as the log and the screen write it: a `+` for no loss, then
/// the duration.
pub open spec fn signed_text(change: int) -> Seq<char> {
    if change >= 0 {
        "+"@ + duration_text(change)
    } else {
        duration_text(change)
    }
}

/// A change as `log` writes it (see `signed_text`).
pub fn signed_duration(change: i32) -> (r: String)
    ensures
        r@ == signed_text(change as int),
{
    let mut out: Vec<char> = Vec::new();
    if change >= 0 {
        append_str(&mut out, "+");
    }
    let d = format_duration(change);
    append_str(&mut out, d.as_str());
    string_of(&out)
}

/// ` # NOTE`, where there is a note.
pub open spec fn note_suffix(note: Option<Seq<char>>) -> Seq<char> {
    match note {
        Some(n) => " # "@ + n,
        None => seq![],
    }
}

pub open spec fn opt_view(o: Option<String>) -> Option<Seq<char>> {
    match o {
        Some(s) => Some(s@),
        None => None,
    }
}

fn push_note(out: &mut Vec<char>, note: &Option<String>)
    ensures
        final(out)@ == old(out)@ + note_suffix(opt_view(*note)),
{
    match note {
        Some(n) => {
            append_str(out, " # ");
            append_str(out, n.as_str());
        },
        None => {},
    }
}

/// The balance after adding `delta` minutes to `current`, or taking them
/// off where `subtract` is set.
pub open spec fn shifted(current: int, delta: int, subtract: bool) -> int {
    if subtract {
        current - delta
    } else {
        current + delta
    }
}

/// The new balance and the signed change for `add` (`subtract` unset) or
/// `remove` (`subtract` set) of `delta` minutes; `None` where either leaves
/// an `i32`.
pub fn apply_change(current: i32, delta: i32, subtract: bool) -> (r: Option<(i32, i32)>)
    ensures
        r == (if i32::MIN <= shifted(current as int, delta as int, subtract) <= i32::MAX
            && i32::MIN <= shifted(0, delta as int, subtract) <= i32::MAX {
            Some(
                (
                    shifted(current as int, delta as int, subtract) as i32,
                    shifted(0, delta as int, subtract) as i32,
                ),
            )
        } else {
            None
        }),
{
    let wide: i64 = if subtract {
        current as i64 - delta as i64
    } else {
        current as i64 + delta as i64
    };
    let change: i64 = if subtract {
        0 - delta as i64
    } else {
        delta as i64
    };
    if wide < i32::MIN as i64 || wide > i32::MAX as i64 || change < i32::MIN as i64 || change
        > i32::MAX as i64 {
        None
    } else {
        Some((wide as i32, change as i32))
    }
}

/// The description of a change from `current` to `new`:
/// `CHANGE > NEW[ # NOTE]`.
pub fn record_change(current: i32, new: i32, note: Option<String>) -> (r: String)
    requires
        i32::MIN <= new - current <= i32::MAX,
    ensures
        r@ == signed_text(new - current) + " > "@ + duration_text(new as int) + note_suffix(
            opt_view(note),
        ),
{
    let change = new - current;
    let mut out: Vec<char> = Vec::new();
    let s = signed_duration(change);
    append_str(&mut out, s.as_str());
    append_str(&mut out, " > ");
    let d = format_duration(new);
    append_str(&mut out, d.as_str());
    push_note(&mut out, &note);
    string_of(&out)
}

/// Reads the duration given to `add`, `remove` or `set`, rounded to the
/// nearest multiple of `increment` minutes (see `rounded_to`); out of range
/// where the rounding could leave an `i32`.
pub fn parse_amount(s: &str, increment: i32) -> (r: Result<i32, DurationError>)
    ensures
        match duration_value(lower(trim(s@))) {
            Ok(m) => match r {
                Ok(v) => v == rounded_to(m, increment as int),
                Err(e) => e@ == DurationFault::OutOfRange && increment > 1 && !(m > i32::MIN && abs(m)
                    + increment / 2 <= i32::MAX),
            },
            Err(f) => r matches Err(e) && e@ == f,
        },
{
    let m = match parse_duration(s) {
        Ok(m) => m,
        Err(e) => {
            return Err(e);
        },
    };
    if increment > 1 {
        let a: i64 = if m < 0 {
            -(m as i64)
        } else {
            m as i64
        };
        if m == i32::MIN || a + (increment / 2) as i64 > i32::MAX as i64 {
            return Err(DurationError::OutOfRange);
        }
    }
    Ok(round_to_increment(m, increment))
}

/// The description of setting the balance to `mins` (`reset` sets 0):
/// `= VALUE[ # NOTE]`.
pub fn set_description(mins: i32, note: Option<String>) -> (r: String)
    ensures
        r@ == "= "@ + duration_text(mins as int) + note_suffix(opt_view(note)),
{
    let mut out: Vec<char> = Vec::new();
    append_str(&mut out, "= ");
    let d = format_duration(mins);
    append_str(&mut out, d.as_str());
    push_note(&mut out, &note);
    string_of(&out)
}

/// The gains among the changes of `es`, and the losses.
pub open spec fn added_of(es: Seq<LogEntry>) -> int
    decreases es.len(),
{
    if es.len() == 0 {
        0
    } else {
        added_of(es.drop_last()) + match delta_of(es.last().description@) {
            Some(d) => if d > 0 {
                d
            } else {
                0
            },
            None => 0,
        }
    }
}

pub open spec fn removed_of(es: Seq<LogEntry>) -> int
    decreases es.len(),
{
    if es.len() == 0 {
        0
    } else {
        removed_of(es.drop_last()) + match delta_of(es.last().description@) {
            Some(d) => if d < 0 {
                d
            } else {
                0
            },
            None => 0,
        }
    }
}

/// The gains, and the losses, each fit in an `i32` (and so does every
/// running total on the way, the gains only growing and the losses only
/// falling).
pub open spec fn totals_fit(es: Seq<LogEntry>) -> bool {
    added_of(es) <= i32::MAX && i32::MIN <= removed_of(es)
}

proof fn lemma_signs(es: Seq<LogEntry>)
    ensures
        added_of(es) >= 0,
        removed_of(es) <= 0,
    decreases es.len(),
{
    if es.len() > 0 {
        lemma_signs(es.drop_last());
    }
}

/// Running totals grow toward the final ones.
proof fn lemma_totals_monotone(es: Seq<LogEntry>, k: int)
    requires
        0 <= k <= es.len(),
    ensures
        0 <= added_of(es.take(k)) <= added_of(es),
        removed_of(es) <= removed_of(es.take(k)) <= 0,
    decreases es.len() - k,
{
    lemma_signs(es.take(k));
    if k < es.len() {
        lemma_totals_monotone(es, k + 1);
        assert(es.take(k + 1).drop_last() =~= es.take(k));
    } else {
        assert(es.take(k) =~= es);
    }
}

/// Whether the gains and losses of `entries` can be added up in `i32`s.
pub fn totals_fit_check(entries: &Vec<LogEntry>) -> (b: bool)
    ensures
        b == totals_fit(entries@),
{
    let mut added: i64 = 0;
    let mut removed: i64 = 0;
    let mut i: usize = 0;
    assert(entries@.take(0) =~= Seq::<LogEntry>::empty());
    while i < entries.len()
        invariant
            i <= entries.len(),
            added == added_of(entries@.take(i as int)),
            removed == removed_of(entries@.take(i as int)),
            0 <= added <= i32::MAX,
            i32::MIN <= removed <= 0,
        decreases entries.len() - i,
    {
        assert(entries@.take(i + 1).drop_last() =~= entries@.take(i as int));
        assert(entries@.take(i + 1).last() == entries@[i as int]);
        match entries[i].delta_minutes() {
            Some(d) => {
                if d > 0 {
                    added = added + d as i64;
                } else if d < 0 {
                    removed = removed + d as i64;
                }
            },
            None => {},
        }
        i = i + 1;
        if added > 2147483647 || removed < -2147483648 {
            proof {
                lemma_totals_monotone(entries@, i as int);
            }
            return false;
        }
    }
    assert(entries@.take(i as int) =~= entries@);
    true
}

/// The minutes gained and the minutes lost (a negative number) over
/// `entries`; sets and notes that record no change count for neither.
pub fn totals(entries: &Vec<LogEntry>) -> (r: (i32, i32))
    requires
        totals_fit(entries@),
    ensures
        r.0 == added_of(entries@),
        r.1 == removed_of(entries@),
        r.0 >= 0,
        r.1 <= 0,
{
    let mut added: i32 = 0;
    let mut removed: i32 = 0;
    let mut i: usize = 0;
    assert(entries@.take(0) =~= Seq::<LogEntry>::empty());
    while i < entries.len()
        invariant
            i <= entries.len(),
            totals_fit(entries@),
            added == added_of(entries@.take(i as int)),
            removed == removed_of(entries@.take(i as int)),
        decreases entries.len() - i,
    {
        assert(entries@.take(i + 1).drop_last() =~= entries@.take(i as int));
        assert(entries@.take(i + 1).last() == entries@[i as int]);
        proof {
            lemma_totals_monotone(entries@, i + 1);
        }
        match entries[i].delta_minutes() {
            Some(d) => {
                if d > 0 {
                    added = added + d;
                } else if d < 0 {
                    removed = removed + d;
                }
            },
            None => {},
        }
        i = i + 1;
    }
    assert(entries@.take(i as int) =~= entries@);
    proof {
        lemma_signs(entries@);
    }
    (added, removed)
}

/// How a piece of text is coloured on a terminal.
#[derive(Clone, Copy, Debug, PartialEq, Eq)]
pub enum Tone {
    Plain,
    Gain,
    Loss,
}

/// Gains show as gains, losses as losses, zero plainly.
pub open spec fn tone_of(v: int) -> Tone {
    if v > 0 {
        Tone::Gain
    } else if v < 0 {
        Tone::Loss
    } else {
        Tone::Plain
    }
}

pub fn tone_for(v: i32) -> (t: Tone)
    ensures
        t == tone_of(v as int),
{
    if v > 0 {
        Tone::Gain
    } else if v < 0 {
        Tone::Loss
    } else {
        Tone::Plain
    }
}

/// A piece of text with its colour.
pub struct Segment {
    pub text: String,
    pub tone: Tone,
}

pub open spec fn segment_views(v: Seq<Segment>) -> Seq<(Seq<char>, Tone)> {
    Seq::new(v.len(), |i: int| (v[i].text@, v[i].tone))
}

/// The label of a period in `prose`.
pub open spec fn prose_label_text(f: LogFilter) -> Seq<char> {
    if f.today {
        "Today"@
    } else if f.yesterday {
        "Yesterday"@
    } else if f.week {
        "This week"@
    } else if f.month {
        "This month"@
    } else {
        match (f.since, f.until) {
            (Some(s), Some(u)) => "Between "@ + s@ + " and "@ + u@,
            (Some(s), None) => "Since "@ + s@,
            (None, Some(u)) => "Up to "@ + u@,
            (None, None) => "Overall"@,
        }
    }
}

/// The label of the period a filter selects, for `prose`.
pub fn prose_label(f: &LogFilter) -> (r: String)
    ensures
        r@ == prose_label_text(*f),
{
    let mut out: Vec<char> = Vec::new();
    if f.today {
        append_str(&mut out, "Today");
    } else if f.yesterday {
        append_str(&mut out, "Yesterday");
    } else if f.week {
        append_str(&mut out, "This week");
    } else if f.month {
        append_str(&mut out, "This month");
    } else {
        match (&f.since, &f.until) {
            (Some(s), Some(u)) => {
                append_str(&mut out, "Between ");
                append_str(&mut out, s.as_str());
                append_str(&mut out, " and ");
                append_str(&mut out, u.as_str());
            },
            (Some(s), None) => {
                append_str(&mut out, "Since ");
                append_str(&mut out, s.as_str());
            },
            (None, Some(u)) => {
                append_str(&mut out, "Up to ");
                append_str(&mut out, u.as_str());
            },
            (None, None) => {
                append_str(&mut out, "Overall");
            },
        }
    }
    string_of(&out)
}

/// The sentence `prose` tells of a period with gains `added` and losses
/// `removed` (negative), ending on `balance`, in coloured pieces: `no
/// change`, else `banked` (net gain) or `used` (net loss) and the net, with
/// the breakdown where there were both gains and losses, or `net zero` and
/// the breakdown; then the balance.
pub open spec fn prose_segments(label: Seq<char>, added: int, removed: int, balance: int) -> Seq<
    (Seq<char>, Tone),
> {
    let net = added + removed;
    let bal = (duration_text(balance), tone_of(balance));
    let breakdown = "(added "@ + duration_text(added) + ", removed "@ + duration_text(-removed) + ")"@;
    let both = added != 0 && removed != 0;
    if added == 0 && removed == 0 {
        seq![(label + ": no change. Balance now "@, Tone::Plain), bal, ("."@, Tone::Plain)]
    } else if net > 0 {
        seq![
            (label + ": banked "@, Tone::Plain),
            (duration_text(net), Tone::Gain),
            ((if both {
                " "@ + breakdown
            } else {
                seq![]
            }) + ". Balance now "@, Tone::Plain),
            bal,
            ("."@, Tone::Plain),
        ]
    } else if net < 0 {
        seq![
            (label + ": used "@, Tone::Plain),
            (duration_text(-net), Tone::Loss),
            ((if both {
                " "@ + breakdown
            } else {
                seq![]
            }) + ". Balance now "@, Tone::Plain),
            bal,
            ("."@, Tone::Plain),
        ]
    } else {
        seq![(label + ": net zero "@ + breakdown + ". Balance now "@, Tone::Plain), bal, ("."@, Tone::Plain)]
    }
}

fn segment(v: &Vec<char>, tone: Tone) -> (s: Segment)
    ensures
        s.text@ == v@,
        s.tone == tone,
{
    Segment { text: string_of(v), tone }
}

/// The coloured pieces of the `prose` sentence (see `prose_segments`).
#[verifier::rlimit(30)]
pub fn print_prose(label: &str, added: i32, removed: i32, balance: i32) -> (r: Vec<Segment>)
    requires
        i32::MIN < added + removed <= i32::MAX,
        removed != i32::MIN,
    ensures
        segment_views(r@) == prose_segments(label@, added as int, removed as int, balance as int),
{
    let net = added + removed;
    let bal_text = format_duration(balance);
    let bal_tone = tone_for(balance);
    let mut out: Vec<Segment> = Vec::new();
    let mut head: Vec<char> = Vec::new();
    append_str(&mut head, label);
    if added == 0 && removed == 0 {
        append_str(&mut head, ": no change. Balance now ");
        out.push(segment(&head, Tone::Plain));
        out.push(Segment { text: bal_text, tone: bal_tone });
        out.push(segment(&chars_of("."), Tone::Plain));
        assert(segment_views(out@) =~= prose_segments(label@, added as int, removed as int, balance as int));
        return out;
    }
    let mut breakdown: Vec<char> = Vec::new();
    append_str(&mut breakdown, "(added ");
    append_str(&mut breakdown, format_duration(added).as_str());
    append_str(&mut breakdown, ", removed ");
    append_str(&mut breakdown, format_duration(-removed).as_str());
    append_str(&mut breakdown, ")");
    let both = added != 0 && removed != 0;
    if net != 0 {
        let (word, mag, tone) = if net > 0 {
            (": banked ", net, Tone::Gain)
        } else {
            (": used ", -net, Tone::Loss)
        };
        append_str(&mut head, word);
        out.push(segment(&head, Tone::Plain));
        out.push(Segment { text: format_duration(mag), tone });
        let mut mid: Vec<char> = Vec::new();
        if both {
            append_str(&mut mid, " ");
            append_chars(&mut mid, &breakdown);
        }
        append_str(&mut mid, ". Balance now ");
        out.push(segment(&mid, Tone::Plain));
    } else {
        append_str(&mut head, ": net zero ");
        append_chars(&mut head, &breakdown);
        append_str(&mut head, ". Balance now ");
        out.push(segment(&head, Tone::Plain));
    }
    out.push(Segment { text: bal_text, tone: bal_tone });
    out.push(segment(&chars_of("."), Tone::Plain));
    assert(segment_views(out@) =~= prose_segments(label@, added as int, removed as int, balance as int));
    out
}

/// How `log` shows a flexi entry: the timestamp (see `display_stamp`); the
/// description without its note, every ` > ` and then every ` -> ` shown as
/// ` → `; its colour (gain where it opens with `+`, loss with `-`); and the
/// note.
pub struct EntryRow {
    pub stamp: String,
    pub body: String,
    pub tone: Tone,
    pub note: Option<String>,
}

pub open spec fn shown_body(d: Seq<char>) -> Seq<char> {
    replace_all(replace_all(body_of(d), " > "@, " → "@), " -> "@, " → "@)
}

pub open spec fn body_tone(b: Seq<char>) -> Tone {
    if b.len() > 0 && b[0] == '+' {
        Tone::Gain
    } else if b.len() > 0 && b[0] == '-' {
        Tone::Loss
    } else {
        Tone::Plain
    }
}

/// The row `log` shows for a flexi entry.
pub fn print_log_entry(e: &LogEntry) -> (r: EntryRow)
    ensures
        r.stamp@ == display_stamp(e.timestamp@),
        r.body@ == shown_body(e.description@),
        r.tone == body_tone(shown_body(e.description@)),
        match r.note {
            Some(n) => note_of(e.description@) == Some(n@),
            None => note_of(e.description@) is None,
        },
{
    let stamp = stamp_for_display(e.timestamp.as_str());
    let b = chars_of(e.body().as_str());
    let b1 = replace_chars(&b, " > ", " → ");
    let b2 = replace_chars(&b1, " -> ", " → ");
    let tone = if b2.len() > 0 && b2[0] == '+' {
        Tone::Gain
    } else if b2.len() > 0 && b2[0] == '-' {
        Tone::Loss
    } else {
        Tone::Plain
    };
    EntryRow { stamp, body: string_of(&b2), tone, note: e.note() }
}

/// The three rows of `summary`: gains, losses and the net (signed), each
/// with its label and colour.
pub fn summary_rows(added: i32, removed: i32) -> (r: Vec<(String, Segment)>)
    requires
        i32::MIN <= added + removed <= i32::MAX,
    ensures
        r.len() == 3,
        r@[0].0@ == "Added:   "@ && r@[0].1.text@ == duration_text(added as int) && r@[0].1.tone
            == Tone::Gain,
        r@[1].0@ == "Removed: "@ && r@[1].1.text@ == duration_text(removed as int) && r@[1].1.tone
            == Tone::Loss,
        r@[2].0@ == "Net:     "@ && r@[2].1.text@ == signed_text(added + removed) && r@[2].1.tone
            == tone_of(added + removed),
{
    let net = added + removed;
    let mut out: Vec<(String, Segment)> = Vec::new();
    out.push(("Added:   ".to_owned(), Segment { text: format_duration(added), tone: Tone::Gain }));
    out.push(("Removed: ".to_owned(), Segment { text: format_duration(removed), tone: Tone::Loss }));
    out.push(("Net:     ".to_owned(), Segment { text: signed_duration(net), tone: tone_for(net) }));
    out
}

/// Why `undo` cannot tell what it undid.
#[derive(Debug)]
pub enum UndoError {
    /// The entry taken off holds no balance.
    Entry(EntryError),
    /// The balance of the log left behind cannot be read.
    Balance(BalanceError),
    /// The change back does not fit in an `i32`.
    OutOfRange,
}

/// What `undo` reports after taking `popped` off the log, leaving `rest`:
/// the change back from the balance `popped` recorded to the balance `rest`
/// now records, and that balance.
#[verifier::rlimit(30)]
pub fn undo_change(popped: &LogEntry, rest: &str) -> (r: Result<(i32, i32), UndoError>)
    ensures
        match r {
            Ok((change, restored)) => {
                &&& balance_of(popped.description@) is Ok
                &&& recorded_balance(rest@, restored as int)
                &&& change == restored - balance_of(popped.description@)->Ok_0
            },
            Err(UndoError::Entry(e)) => balance_of(popped.description@) == Err::<int, EntryFault>(
                e@,
            ),
            Err(UndoError::Balance(BalanceError::Log(e))) => balance_of(popped.description@) is Ok
                && log_lines(rest@).len() > 0 && line_fields(log_lines(rest@).last()) is None && e@
                == log_lines(rest@).last(),
            Err(UndoError::Balance(BalanceError::Entry(e))) => balance_of(popped.description@) is Ok
                && log_lines(rest@).len() > 0 && line_fields(log_lines(rest@).last()) is Some
                && balance_of(last_description(rest@)) == Err::<int, EntryFault>(e@),
            Err(UndoError::OutOfRange) => balance_of(popped.description@) is Ok && exists|v: int|
                recorded_balance(rest@, v) && !(i32::MIN <= v - balance_of(popped.description@)->Ok_0
                    <= i32::MAX),
        },
{
    let popped_new = match popped.new_minutes() {
        Ok(v) => v,
        Err(e) => {
            return Err(UndoError::Entry(e));
        },
    };
    let restored = match read_minutes(rest) {
        Ok(v) => v,
        Err(e) => {
            return Err(UndoError::Balance(e));
        },
    };
    assert(recorded_balance(rest@, restored as int));
    match restored.checked_sub(popped_new) {
        Some(change) => Ok((change, restored)),
        None => Err(UndoError::OutOfRange),
    }
}

/// The open session, if any: the last entry of the log when it is a
/// session marker, and whether that session banks time (`in`) or spends it
/// (`away`).
pub fn open_session(content: &str) -> (r: Result<Option<(LogEntry, bool)>, LogError>)
    ensures
        match r {
            Ok(Some((e, banks))) => log_lines(content@).len() > 0 && line_fields(
                log_lines(content@).last(),
            ) == Some((e.timestamp@, e.description@)) && marker_of(e.description@) is Some
                && (marker_of(e.description@)->0).0 == banks,
            Ok(None) => log_lines(content@).len() == 0 || (line_fields(log_lines(content@).last())
                matches Some((_, d)) && marker_of(d) is None),
            Err(e) => log_lines(content@).len() > 0 && line_fields(log_lines(content@).last())
                is None && e@ == log_lines(content@).last(),
        },
{
    match last_entry(content)? {
        Some(e) => match e.marker() {
            Some((banks, _)) => Ok(Some((e, banks))),
            None => Ok(None),
        },
        None => Ok(None),
    }
}

/// The marker `in` (banking) or `away` (spending) logs: `@in BALANCE` or
/// `@out BALANCE`, then the note.
pub open spec fn marker_text(banks: bool, current: int, note: Option<Seq<char>>) -> Seq<char> {
    (if banks {
        "@in "@
    } else {
        "@out "@
    }) + duration_text(current) + note_suffix(note)
}

/// The description of a session marker (see `marker_text`).
pub fn marker_description(banks: bool, current: i32, note: Option<String>) -> (r: String)
    ensures
        r@ == marker_text(banks, current as int, opt_view(note)),
{
    let mut out: Vec<char> = Vec::new();
    if banks {
        append_str(&mut out, "@in ");
    } else {
        append_str(&mut out, "@out ");
    }
    let d = format_duration(current);
    append_str(&mut out, d.as_str());
    push_note(&mut out, &note);
    string_of(&out)
}

/// The span of a session: `HH:MM–HH:MM`.
pub open spec fn span_text(start: Time, end: Time) -> Seq<char> {
    time_text(start) + "–"@ + time_text(end)
}

pub fn session_span(start: Time, end: Time) -> (r: String)
    ensures
        r@ == span_text(start, end),
{
    let mut out: Vec<char> = Vec::new();
    push_time(&mut out, start);
    append_str(&mut out, "–");
    push_time(&mut out, end);
    string_of(&out)
}

/// The note a closed session records: its span, then the note it was
/// opened with and the note it is closed with, those there are, joined by
/// `; `.
pub open spec fn session_note(span: Seq<char>, open_note: Option<Seq<char>>, close_note: Option<Seq<char>>) -> Seq<char> {
    crate::text::join_with(
        seq![span] + (match open_note {
            Some(n) => seq![n],
            None => seq![],
        }) + (match close_note {
            Some(n) => seq![n],
            None => seq![],
        }),
        "; "@,
    )
}

/// Why closing a session records nothing.
#[derive(Debug)]
pub enum SessionError {
    /// The session began after now.
    Future,
    /// The session is longer than `max_session` and `--force` was not given.
    OverMax { elapsed: i32, cap: i32 },
    /// The marker holds no balance.
    Balance(EntryError),
    /// The new balance does not fit in an `i32`.
    OutOfRange,
}

/// What `out` (or `back`) records for the open session `marker`, `elapsed`
/// minutes long: refused for a negative time, for one over the cap without
/// `force`, for a marker without a balance, or where the new balance would
/// not fit; else the change from the marker's balance by the elapsed time
/// rounded to the increment (added for a banking session, taken for a
/// spending one), its note the session's (see `session_note`), and the new
/// balance. The marker is taken off the log and this change appended.
pub fn close_flexi_session(
    marker: &LogEntry,
    banks: bool,
    elapsed: i64,
    increment: i32,
    max_session: Option<i32>,
    force: bool,
    note: Option<String>,
    span: &str,
) -> (r: Result<(String, i32), SessionError>)
    requires
        elapsed < 0 || (elapsed <= i32::MAX && (increment <= 1 || elapsed + increment / 2
            <= i32::MAX)),
    ensures
        elapsed < 0 ==> r matches Err(SessionError::Future),
        elapsed >= 0 ==> match r {
            Ok((desc, new)) => {
                let mins = rounded_to(elapsed as int, increment as int);
                let change = if banks {
                    mins
                } else {
                    -mins
                };
                &&& !(max_session matches Some(cap) && elapsed > cap && !force)
                &&& balance_of(marker.description@) is Ok
                &&& new == balance_of(marker.description@)->Ok_0 + change
                &&& desc@ == signed_text(change) + " > "@ + duration_text(new as int) + note_suffix(
                    Some(session_note(span@, note_of(marker.description@), opt_view(note))),
                )
            },
            Err(SessionError::OverMax { elapsed: e, cap }) => max_session == Some(cap) && e
                == elapsed && elapsed > cap && !force,
            Err(SessionError::Balance(e)) => !(max_session matches Some(cap) && elapsed > cap
                && !force) && balance_of(marker.description@) == Err::<int, EntryFault>(e@),
            Err(SessionError::OutOfRange) => !(max_session matches Some(cap) && elapsed > cap
                && !force) && balance_of(marker.description@) is Ok && {
                let mins = rounded_to(elapsed as int, increment as int);
                let change = if banks {
                    mins
                } else {
                    -mins
                };
                !(i32::MIN <= balance_of(marker.description@)->Ok_0 + change <= i32::MAX)
            },
            Err(SessionError::Future) => false,
        },
{
    if elapsed < 0 {
        return Err(SessionError::Future);
    }
    let e = elapsed as i32;
    match max_session {
        Some(cap) => {
            if e > cap && !force {
                return Err(SessionError::OverMax { elapsed: e, cap });
            }
        },
        None => {},
    }
    let current = match marker.new_minutes() {
        Ok(v) => v,
        Err(err) => {
            return Err(SessionError::Balance(err));
        },
    };
    let mins = round_to_increment(e, increment);
    proof {
        if increment > 1 {
            crate::time::lemma_round_to_increment_nearest(e as int, increment as int);
        }
    }
    let change: i32 = if banks {
        mins
    } else {
        -mins
    };
    let new = match current.checked_add(change) {
        Some(n) => n,
        None => {
            return Err(SessionError::OutOfRange);
        },
    };
    let mut parts: Vec<Vec<char>> = Vec::new();
    parts.push(chars_of(span));
    let open_note = marker.note();
    match &open_note {
        Some(n) => {
            parts.push(chars_of(n.as_str()));
        },
        None => {},
    }
    match &note {
        Some(n) => {
            parts.push(chars_of(n.as_str()));
        },
        None => {},
    }
    let ghost pv = seq![span@] + (match note_of(marker.description@) {
        Some(n) => seq![n],
        None => Seq::<Seq<char>>::empty(),
    }) + (match opt_view(note) {
        Some(n) => seq![n],
        None => Seq::<Seq<char>>::empty(),
    });
    assert(crate::text::views(parts@) =~= pv);
    let sep = chars_of("; ");
    let joined = crate::text::join_chars(&parts, &sep);
    let desc = record_change(current, new, Some(string_of(&joined)));
    Ok((desc, new))
}

/// Text without the characters that mark the fields of a log entry.
spec fn free_of_marks(s: Seq<char>) -> bool {
    forall|i: int| 0 <= i < s.len() ==> #[trigger] s[i] != '#' && s[i] != '>' && s[i] != '→'
}

proof fn lemma_plain_free(s: Seq<char>)
    requires
        plain(s),
    ensures
        free_of_marks(s),
{
    assert forall|i: int| 0 <= i < s.len() implies #[trigger] s[i] != '#' && s[i] != '>' && s[i] != '→' by {
        let c = s[i];
        assert(crate::num::is_digit(c) || c == ' ' || c == '-' || 97 <= c as u32 <= 122);
    }
}

/// A change's text is a duration's: free of field marks, and it reads
/// back as the change.
proof fn lemma_signed_text(x: int)
    requires
        i32::MIN < x <= i32::MAX,
    ensures
        free_of_marks(signed_text(x)),
        reads_as(duration_text(x)) == Ok::<int, DurationFault>(x),
        free_of_marks(duration_text(x)),
{
    law_duration_round_trip(x as i32);
    lemma_plain_free(duration_text(x));
    reveal_strlit("+");
    let t = signed_text(x);
    if x >= 0 {
        assert forall|i: int| 0 <= i < t.len() implies #[trigger] t[i] != '#' && t[i] != '>' && t[i]
            != '→' by {
            if i > 0 {
                assert(t[i] == duration_text(x)[i - 1]);
            }
        }
    }
}

/// The note of a description is what follows its first ` # `.
proof fn lemma_note_split(body: Seq<char>, note: Option<Seq<char>>)
    requires
        forall|i: int| 0 <= i < body.len() ==> #[trigger] body[i] != '#',
    ensures
        body_of(body + note_suffix(note)) == body,
        note_of(body + note_suffix(note)) == note,
{
    crate::log::lemma_split_note(body, note);
    match note {
        Some(n) => {
            assert(body + note_suffix(note) =~= body + " # "@ + n);
        },
        None => {
            assert(body + note_suffix(note) =~= body);
        },
    }
}

/// The body of a change description, `CHANGE > NEW`, splits at its arrow.
proof fn lemma_arrow(c: Seq<char>, nt: Seq<char>)
    requires
        free_of_marks(c),
        free_of_marks(nt),
    ensures
        arrow_split(c + " > "@ + nt) == Some((c, nt)),
{
    let b = c + " > "@ + nt;
    let arrow = " → "@;
    let dash = " -> "@;
    let gt = " > "@;
    reveal_strlit(" → ");
    reveal_strlit(" -> ");
    reveal_strlit(" > ");
    let k = c.len() as int;
    assert(b =~= c + seq![' ', '>', ' '] + nt);
    assert forall|i: int| 0 <= i < b.len() && b[i] == '>' implies i == k + 1 by {
        if i < k {
            assert(b[i] == c[i]);
        } else if i > k + 2 {
            assert(b[i] == nt[i - k - 3]);
        }
    }
    assert forall|i: int| 0 <= i < b.len() implies b[i] != '→' by {
        if i < k {
            assert(b[i] == c[i]);
        } else if i > k + 2 {
            assert(b[i] == nt[i - k - 3]);
        }
    }
    assert forall|i: int| !occurs_at(b, arrow, i) by {
        if occurs_at(b, arrow, i) {
            assert(b.subrange(i, i + 3)[1] == b[i + 1]);
        }
    }
    assert forall|i: int| !occurs_at(b, dash, i) by {
        if occurs_at(b, dash, i) {
            assert(b.subrange(i, i + 4)[2] == b[i + 2]);
            assert(b.subrange(i, i + 4)[1] == b[i + 1]);
        }
    }
    assert(occurs_at(b, gt, k)) by {
        assert(b.subrange(k, k + 3) =~= gt);
    }
    assert forall|j: int| k < j implies !occurs_at(b, gt, j) by {
        if occurs_at(b, gt, j) {
            assert(b.subrange(j, j + 3)[1] == b[j + 1]);
        }
    }
    assert(last_occ(b, gt, k));
    let l = choose|l: int| last_occ(b, gt, l);
    lemma_last_occ_unique(b, gt, k, l);
    assert(b.take(k) =~= c);
    assert(b.skip(k + 3) =~= nt);
}

proof fn lemma_change_body(c: Seq<char>, nt: Seq<char>)
    requires
        free_of_marks(c),
        free_of_marks(nt),
    ensures
        forall|i: int| 0 <= i < (c + " > "@ + nt).len() ==> #[trigger] (c + " > "@ + nt)[i] != '#',
{
    reveal_strlit(" > ");
    let body = c + " > "@ + nt;
    assert forall|i: int| 0 <= i < body.len() implies #[trigger] body[i] != '#' by {
        if i < c.len() {
            assert(body[i] == c[i]);
        } else if i >= c.len() + 3 {
            assert(body[i] == nt[i - c.len() - 3]);
        }
    }
}

/// A change's text reads back as the change.
proof fn lemma_change_reads(ch: i32)
    requires
        ch != i32::MIN,
    ensures
        reads_as(signed_text(ch as int)) == Ok::<int, DurationFault>(ch as int),
{
    lemma_signed_text(ch as int);
    if ch >= 0 {
        crate::time::lemma_plus_duration(ch);
    }
}

/// What `record_change` logs reads back: its balance is the new balance,
/// its change the difference, its note the note. (`i32::MIN` is left out,
/// for the new balance and the change: its magnitude has no `i32`.)
pub proof fn law_change_reads_back(current: i32, new: i32, note: Option<Seq<char>>)
    requires
        new != i32::MIN,
        i32::MIN < new - current <= i32::MAX,
    ensures
        ({
            let d = signed_text(new - current) + " > "@ + duration_text(new as int) + note_suffix(
                note,
            );
            &&& balance_of(d) == Ok::<int, EntryFault>(new as int)
            &&& delta_of(d) == Some(new - current)
            &&& note_of(d) == note
        }),
{
    let ch = new - current;
    lemma_signed_text(ch);
    lemma_signed_text(new as int);
    lemma_change_reads(ch as i32);
    let c = signed_text(ch);
    let nt = duration_text(new as int);
    lemma_change_body(c, nt);
    lemma_note_split(c + " > "@ + nt, note);
    lemma_arrow(c, nt);
}

/// What `set_description` logs reads back as the balance set, with its
/// note (`i32::MIN` left out, as above).
#[verifier::rlimit(40)]
pub proof fn law_set_reads_back(mins: i32, note: Option<Seq<char>>)
    requires
        mins != i32::MIN,
    ensures
        ({
            let d = "= "@ + duration_text(mins as int) + note_suffix(note);
            &&& balance_of(d) == Ok::<int, EntryFault>(mins as int)
            &&& delta_of(d) is None
            &&& note_of(d) == note
        }),
{
    lemma_signed_text(mins as int);
    reveal_strlit("= ");
    reveal_strlit(" → ");
    reveal_strlit(" -> ");
    reveal_strlit(" > ");
    let dt = duration_text(mins as int);
    let body = "= "@ + dt;
    assert(body =~= seq!['=', ' '] + dt);
    assert forall|i: int| 0 <= i < body.len() implies #[trigger] body[i] != '#' && body[i] != '>'
        && body[i] != '→' by {
        if i >= 2 {
            assert(body[i] == dt[i - 2]);
        }
    }
    lemma_note_split(body, note);
    assert forall|i: int| !occurs_at(body, " → "@, i) by {
        if occurs_at(body, " → "@, i) {
            assert(body.subrange(i, i + 3)[1] == body[i + 1]);
        }
    }
    assert forall|i: int| !occurs_at(body, " -> "@, i) by {
        if occurs_at(body, " -> "@, i) {
            assert(body.subrange(i, i + 4)[2] == body[i + 2]);
        }
    }
    assert forall|i: int| !occurs_at(body, " > "@, i) by {
        if occurs_at(body, " > "@, i) {
            assert(body.subrange(i, i + 3)[1] == body[i + 1]);
        }
    }
    assert(arrow_split(body) is None);
    assert(crate::text::has_prefix(body, "= "@)) by {
        assert(body.take(2) =~= "= "@);
    }
    assert(body.skip(2) =~= dt);
}

/// What `in` or `away` logs keeps the balance: it reads back as the
/// balance it was opened on, as a marker of its kind, with no change and
/// with its note (`i32::MIN` left out, as above).
#[verifier::rlimit(40)]
pub proof fn law_marker_reads_back(banks: bool, current: i32, note: Option<Seq<char>>)
    requires
        current != i32::MIN,
    ensures
        ({
            let d = marker_text(banks, current as int, note);
            &&& balance_of(d) == Ok::<int, EntryFault>(current as int)
            &&& marker_of(d) is Some && (marker_of(d)->0).0 == banks
            &&& delta_of(d) is None
            &&& note_of(d) == note
        }),
{
    lemma_signed_text(current as int);
    reveal_strlit("@in ");
    reveal_strlit("@out ");
    reveal_strlit("= ");
    reveal_strlit(" → ");
    reveal_strlit(" -> ");
    reveal_strlit(" > ");
    let dt = duration_text(current as int);
    let pre: Seq<char> = if banks {
        "@in "@
    } else {
        "@out "@
    };
    let body = pre + dt;
    let k = pre.len() as int;
    assert forall|i: int| 0 <= i < body.len() implies #[trigger] body[i] != '#' && body[i] != '>'
        && body[i] != '→' by {
        if i >= k {
            assert(body[i] == dt[i - k]);
        }
    }
    lemma_note_split(body, note);
    assert(marker_text(banks, current as int, note) == body + note_suffix(note));
    assert forall|i: int| !occurs_at(body, " → "@, i) by {
        if occurs_at(body, " → "@, i) {
            assert(body.subrange(i, i + 3)[1] == body[i + 1]);
        }
    }
    assert forall|i: int| !occurs_at(body, " -> "@, i) by {
        if occurs_at(body, " -> "@, i) {
            assert(body.subrange(i, i + 4)[2] == body[i + 2]);
        }
    }
    assert forall|i: int| !occurs_at(body, " > "@, i) by {
        if occurs_at(body, " > "@, i) {
            assert(body.subrange(i, i + 3)[1] == body[i + 1]);
        }
    }
    assert(arrow_split(body) is None);
    assert(!crate::text::has_prefix(body, "= "@)) by {
        assert(body[0] == '@');
        if crate::text::has_prefix(body, "= "@) {
            assert(body.take(2)[0] == body[0]);
        }
    }
    if banks {
        assert(body.take(4) =~= "@in "@);
        assert(body.skip(4) =~= dt);
    } else {
        assert(!crate::text::has_prefix(body, "@in "@)) by {
            if crate::text::has_prefix(body, "@in "@) {
                assert(body.take(4)[1] == body[1]);
            }
        }
        assert(body.take(5) =~= "@out "@);
        assert(body.skip(5) =~= dt);
    }
}

} // verus!
