//! Durations in whole minutes: reading `1 hr 30 min`, `1h30m`, `1.5`,
//! `90m`, `-45 min` and the like, and writing them back as `N hr M min`.
use vstd::prelude::*;
use crate::text::{is_ws, is_word, is_lower_ascii, join_sp, lemma_words_join, trim_end, words, trim_start, views, split_ws, chars_of, trim_chars, trim_start_chars, to_lowercase, lowercase_of, lower, trim, string_of, copy_chars, eq_str};
use crate::num::{is_digit, all_digits, digits_val, parse_digits, lemma_digits_val_prefix, decimal, signed_decimal, digit_char, digit_val, push_decimal, lemma_decimal_len, lemma_digits_val_decimal, lemma_decimal_len_bound, pow10, lemma_digit_char};

verus! {

/// The fixed-point unit in which decimal numbers are read: values are held
/// as integers counting billionths.
pub open spec fn unit() -> int {
    1_000_000_000
}

/// Number of leading ASCII digits of `s`.
pub open spec fn lead_digits(s: Seq<char>) -> nat
    decreases s.len(),
{
    if s.len() > 0 && is_digit(s[0]) {
        1 + lead_digits(s.drop_first())
    } else {
        0
    }
}

/// A sign (`-` or `+`) at the front of `t`, if any, and the rest.
pub open spec fn split_sign(t: Seq<char>) -> (bool, Seq<char>) {
    if t.len() > 0 && t[0] == '-' {
        (true, t.drop_first())
    } else if t.len() > 0 && t[0] == '+' {
        (false, t.drop_first())
    } else {
        (false, t)
    }
}

/// The largest size a number is taken to have, in billionths: 10^18 whole
/// units, beyond the precision an `f64` keeps.
pub open spec fn cap() -> int {
    1_000_000_000_000_000_000_000_000_000
}

/// A number as `str::parse::<f64>` reads it: finite (in billionths), an
/// infinity (negative or not), or not a number.
#[derive(Clone, Copy, Debug)]
pub enum NumValue {
    Finite(i128),
    Infinite(bool),
    NotANumber,
}

/// `v`, but at most `cap()`.
pub open spec fn capped(v: int) -> int {
    if v > cap() {
        cap()
    } else {
        v
    }
}

/// The digits `d` read with the decimal point after the first `q - 9` of
/// them (padding with zeros on either side), in billionths, digits past the
/// ninth after the point dropped.
pub open spec fn shifted_units(d: Seq<char>, q: int) -> int {
    if q <= 0 {
        0
    } else if q >= d.len() {
        (digits_val(d) * pow10((q - d.len()) as nat)) as int
    } else {
        digits_val(d.take(q)) as int
    }
}

/// An exponent: an optional sign, then one or more digits (any number).
pub open spec fn exponent_value(x: Seq<char>) -> Option<int> {
    let (neg, ds) = split_sign(x);
    if ds.len() > 0 && all_digits(ds) {
        Some(
            if neg {
                -digits_val(ds)
            } else {
                digits_val(ds) as int
            },
        )
    } else {
        None
    }
}

/// A mantissa `DIGITS`, `DIGITS.DIGITS`, `DIGITS.` or `.DIGITS` (each run
/// of any length, at least one digit in all): its digits before and after
/// the point.
pub open spec fn mantissa_parts(m: Seq<char>) -> Option<(Seq<char>, Seq<char>)> {
    let p = lead_digits(m) as int;
    let parts = if p == m.len() {
        Some((m, Seq::<char>::empty()))
    } else if m[p] == '.' {
        Some((m.take(p), m.skip(p + 1)))
    } else {
        None
    };
    match parts {
        Some((ip, fp)) => if all_digits(fp) && ip.len() + fp.len() > 0 {
            Some((ip, fp))
        } else {
            None
        },
        None => None,
    }
}

/// The size, in billionths and at most `cap()`, of an unsigned finite
/// number: a mantissa, then optionally `e` and an exponent.
pub open spec fn finite_value(body: Seq<char>) -> Option<int> {
    let (m, e) = if has_char(body, 'e') {
        let p = choose|p: int| first_pos(body, 'e', p);
        (body.take(p), exponent_value(body.skip(p + 1)))
    } else {
        (body, Some(0int))
    };
    match (mantissa_parts(m), e) {
        (Some((ip, fp)), Some(x)) => Some(capped(shifted_units(ip + fp, ip.len() + x + 9))),
        _ => None,
    }
}

/// How `str::parse::<f64>` reads lowercase text: an optional sign, then
/// `inf`, `infinity`, `nan`, or a finite number (see `finite_value`);
/// `None` for any other text. A finite number is held exactly, in
/// billionths, rather than rounded to the nearest `f64`: digits past the
/// ninth after the point are dropped, and a size beyond 10^18 is taken as
/// 10^18, so on numbers with more significant digits than an `f64` keeps
/// the minutes read can differ by one from the rounding of an `f64`.
pub open spec fn number_value(t: Seq<char>) -> Option<NumValue> {
    let (neg, body) = split_sign(t);
    if body == "inf"@ || body == "infinity"@ {
        Some(NumValue::Infinite(neg))
    } else if body == "nan"@ {
        Some(NumValue::NotANumber)
    } else {
        match finite_value(body) {
            Some(v) => Some(
                NumValue::Finite(
                    (if neg {
                        -v
                    } else {
                        v
                    }) as i128,
                ),
            ),
            None => None,
        }
    }
}

/// A finite value read by `number_value` is within the cap.
pub open spec fn in_cap(n: NumValue) -> bool {
    match n {
        NumValue::Finite(v) => -cap() <= v <= cap(),
        _ => true,
    }
}

/// `i32::MIN` for a negative infinity, `i32::MAX` for a positive one (what
/// `as i32` makes of them).
pub open spec fn inf_minutes(neg: bool) -> int {
    if neg {
        i32::MIN as int
    } else {
        i32::MAX as int
    }
}

/// Whole minutes for `n` units of `per_unit` minutes each, rounded and
/// taken into `i32` as `(n * per_unit).round() as i32` does: infinities
/// saturate, not-a-number gives 0.
pub open spec fn num_minutes(n: NumValue, per_unit: int) -> int {
    match n {
        NumValue::Finite(v) => whole_minutes(per_unit * v),
        NumValue::Infinite(neg) => inf_minutes(neg),
        NumValue::NotANumber => 0,
    }
}

/// Whole minutes for `h` hours and `m` minutes, as
/// `(h * 60.0 + m).round() as i32` gives them: not-a-number, or
/// infinities of opposite signs, give 0; another infinity saturates.
pub open spec fn sum_minutes(h: NumValue, m: NumValue) -> int {
    match h {
        NumValue::NotANumber => 0,
        NumValue::Infinite(a) => match m {
            NumValue::NotANumber => 0,
            NumValue::Infinite(b) => if a == b {
                inf_minutes(a)
            } else {
                0
            },
            NumValue::Finite(_) => inf_minutes(a),
        },
        NumValue::Finite(x) => match m {
            NumValue::NotANumber => 0,
            NumValue::Infinite(b) => inf_minutes(b),
            NumValue::Finite(y) => whole_minutes(60 * x + y),
        },
    }
}

/// The integer nearest to `v` billionths, halves rounded away from zero
/// (what `f64::round` does).
pub open spec fn round_units(v: int) -> int {
    if v >= 0 {
        (2 * v + unit()) / (2 * unit())
    } else {
        -((-2 * v + unit()) / (2 * unit()))
    }
}

/// `v` clamped into the `i32` range (what an `as i32` cast of a float does).
pub open spec fn clamp_i32(v: int) -> int {
    if v > i32::MAX {
        i32::MAX as int
    } else if v < i32::MIN {
        i32::MIN as int
    } else {
        v
    }
}

/// Whole minutes for `v` billionths of a minute.
pub open spec fn whole_minutes(v: int) -> int {
    clamp_i32(round_units(v))
}

pub open spec fn has_char(s: Seq<char>, c: char) -> bool {
    exists|i: int| 0 <= i < s.len() && s[i] == c
}

/// Position of the first `c` in `s`.
pub open spec fn first_pos(s: Seq<char>, c: char, p: int) -> bool {
    0 <= p < s.len() && s[p] == c && forall|j: int| 0 <= j < p ==> s[j] != c
}

/// Compact forms without spaces: a bare decimal number of hours (`1.5`),
/// `<hours>h<minutes>m` with either part optional (`1h30m`, `1h`, `h30m`),
/// or `<minutes>m` (`30m`).
pub open spec fn compact_minutes(b: Seq<char>) -> Option<int> {
    match number_value(b) {
        Some(n) => Some(num_minutes(n, 60)),
        None => if has_char(b, 'h') {
            let p = choose|p: int| first_pos(b, 'h', p);
            let hs = b.take(p);
            let rest = b.skip(p + 1);
            let hv = if hs.len() == 0 {
                Some(NumValue::Finite(0))
            } else {
                number_value(hs)
            };
            let mv = if rest.len() == 0 {
                Some(NumValue::Finite(0))
            } else if rest.last() == 'm' {
                number_value(rest.drop_last())
            } else {
                None
            };
            match (hv, mv) {
                (Some(h), Some(m)) => Some(sum_minutes(h, m)),
                _ => None,
            }
        } else if b.len() > 0 && b.last() == 'm' {
            match number_value(b.drop_last()) {
                Some(m) => Some(num_minutes(m, 1)),
                None => None,
            }
        } else {
            None
        },
    }
}

pub open spec fn is_hour_unit(u: Seq<char>) -> bool {
    u == "hr"@ || u == "hrs"@ || u == "hour"@ || u == "hours"@
}

pub open spec fn is_minute_unit(u: Seq<char>) -> bool {
    u == "min"@ || u == "mins"@ || u == "minute"@ || u == "minutes"@
}

/// Why a duration could not be read.
pub enum DurationFault {
    EmptyTimeString,
    InvalidFormat(Seq<char>),
    ExpectedNumber(Seq<char>),
    ExpectedUnit(Seq<char>),
    UnknownUnit(Seq<char>),
    OutOfRange,
}

/// Why a duration could not be read, with the text at fault.
#[derive(Debug)]
pub enum DurationError {
    /// Nothing but a sign was given.
    EmptyTimeString,
    /// A compact form (no spaces) that is not one of the accepted shapes.
    InvalidFormat(String),
    /// A token where a number was expected.
    ExpectedNumber(String),
    /// A number with no unit after it.
    ExpectedUnit(String),
    /// A unit other than hr/hrs/hour/hours/min/mins/minute/minutes.
    UnknownUnit(String),
    /// The total does not fit in an `i32` number of minutes.
    OutOfRange,
}

impl View for DurationError {
    type V = DurationFault;

    open spec fn view(&self) -> DurationFault {
        match self {
            DurationError::EmptyTimeString => DurationFault::EmptyTimeString,
            DurationError::InvalidFormat(s) => DurationFault::InvalidFormat(s@),
            DurationError::ExpectedNumber(s) => DurationFault::ExpectedNumber(s@),
            DurationError::ExpectedUnit(s) => DurationFault::ExpectedUnit(s@),
            DurationError::UnknownUnit(s) => DurationFault::UnknownUnit(s@),
            DurationError::OutOfRange => DurationFault::OutOfRange,
        }
    }
}

/// Spaced form: `<number> <unit>` pairs read left to right from token `i`
/// on, added to `acc`; hour units count 60 minutes per unit, each pair
/// rounded to whole minutes on its own.
pub open spec fn spaced_from(toks: Seq<Seq<char>>, i: int, acc: int) -> Result<
    int,
    DurationFault,
>
    decreases toks.len() - i,
{
    if i < 0 || i >= toks.len() {
        Ok(acc)
    } else {
        match number_value(toks[i]) {
            None => Err(DurationFault::ExpectedNumber(toks[i])),
            Some(n) => if i + 1 >= toks.len() {
                Err(DurationFault::ExpectedUnit(toks[i]))
            } else {
                let u = toks[i + 1];
                if !is_hour_unit(u) && !is_minute_unit(u) {
                    Err(DurationFault::UnknownUnit(u))
                } else {
                    let part = if is_hour_unit(u) {
                        num_minutes(n, 60)
                    } else {
                        num_minutes(n, 1)
                    };
                    let next = acc + part;
                    if next < i32::MIN || next > i32::MAX {
                        Err(DurationFault::OutOfRange)
                    } else {
                        spaced_from(toks, i + 2, next)
                    }
                }
            },
        }
    }
}

/// `s` with every `,` replaced by `.`.
pub open spec fn commas_to_points(s: Seq<char>) -> Seq<char> {
    Seq::new(s.len(), |i: int| if s[i] == ',' { '.' } else { s[i] })
}

/// What a duration text reads as, once trimmed and lowercased: an optional
/// leading `-` (negating the result), then a compact form if the rest holds
/// no space, else the spaced form; `,` is read as a decimal point. Each
/// number is read as `str::parse::<f64>` would (digit runs of any length, an
/// exponent, `inf`, `nan`; see `number_value`), but exactly rather than as
/// the nearest `f64`: on numbers with more significant digits than an `f64`
/// keeps (about 16), rounding to whole minutes can differ by one, e.g.
/// `100000000.499999999 min` reads as 100000000 where the `f64` product
/// rounds to 100000001.
pub open spec fn duration_value(s: Seq<char>) -> Result<int, DurationFault> {
    let negative = s.len() > 0 && s[0] == '-';
    let body = if negative {
        trim_start(s.drop_first())
    } else {
        s
    };
    if body.len() == 0 {
        Err(DurationFault::EmptyTimeString)
    } else {
        let b = commas_to_points(body);
        let total = if !has_char(b, ' ') {
            match compact_minutes(b) {
                Some(t) => Ok(t),
                None => Err(DurationFault::InvalidFormat(b)),
            }
        } else {
            spaced_from(words(b), 0, 0)
        };
        match total {
            Ok(t) => if negative {
                if t == i32::MIN {
                    Err(DurationFault::OutOfRange)
                } else {
                    Ok(-t)
                }
            } else {
                Ok(t)
            },
            Err(e) => Err(e),
        }
    }
}


pub proof fn lemma_lead_digits(s: Seq<char>, i: int)
    requires
        0 <= i <= s.len(),
        forall|k: int| 0 <= k < i ==> is_digit(#[trigger] s[k]),
    ensures
        lead_digits(s) == i + lead_digits(s.skip(i)),
    decreases i,
{
    if i > 0 {
        assert(s.skip(1).skip(i - 1) =~= s.skip(i));
        lemma_lead_digits(s.drop_first(), i - 1);
        assert(s.drop_first() =~= s.skip(1));
    } else {
        assert(s.skip(0) =~= s);
    }
}

pub proof fn lemma_lead_digits_bound(s: Seq<char>)
    ensures
        lead_digits(s) <= s.len(),
        forall|k: int| 0 <= k < lead_digits(s) ==> is_digit(#[trigger] s[k]),
        lead_digits(s) < s.len() ==> !is_digit(s[lead_digits(s) as int]),
    decreases s.len(),
{
    if s.len() > 0 && is_digit(s[0]) {
        lemma_lead_digits_bound(s.drop_first());
        assert forall|k: int| 0 <= k < lead_digits(s) implies is_digit(#[trigger] s[k]) by {
            if k > 0 {
                assert(s[k] == s.drop_first()[k - 1]);
            }
        }
    }
}

fn pow10_exec(n: usize) -> (r: i128)
    requires
        n <= 9,
    ensures
        r == pow10(n as nat),
        r >= 1,
        r <= 1_000_000_000,
{
    let mut r: i128 = 1;
    let mut k: usize = 0;
    while k < n
        invariant
            k <= n <= 9,
            r == pow10(k as nat),
        decreases n - k,
    {
        proof {
            lemma_pow10_le((k + 1) as nat);
        }
        r = r * 10;
        k = k + 1;
    }
    proof {
        lemma_pow10_le(k as nat);
        lemma_pow10_split(k as nat);
    }
    r
}

pub proof fn lemma_pow10_split(k: nat)
    requires
        k <= 9,
    ensures
        pow10(k) * pow10((9 - k) as nat) == 1_000_000_000,
        pow10(k) >= 1,
        pow10((9 - k) as nat) >= 1,
{
    assert(pow10(0) == 1);
    assert(pow10(1) == 10);
    assert(pow10(2) == 100);
    assert(pow10(3) == 1000);
    assert(pow10(4) == 10000);
    assert(pow10(5) == 100000);
    assert(pow10(6) == 1000000);
    assert(pow10(7) == 10000000);
    assert(pow10(8) == 100000000);
    assert(pow10(9) == 1000000000);
    if k == 0 {
    } else if k == 1 {
    } else if k == 2 {
    } else if k == 3 {
    } else if k == 4 {
    } else if k == 5 {
    } else if k == 6 {
    } else if k == 7 {
    } else if k == 8 {
    } else {
        assert(k == 9);
    }
}

/// A run of at most nine digits is below a billion.
pub proof fn lemma_digits_bound(s: Seq<char>)
    requires
        all_digits(s),
        s.len() <= 9,
    ensures
        digits_val(s) < pow10(s.len()),
        digits_val(s) <= 999_999_999,
    decreases s.len(),
{
    if s.len() > 0 {
        let p = s.drop_last();
        assert(all_digits(p));
        lemma_digits_bound(p);
        assert(is_digit(s.last()));
        assert(digits_val(s) == digits_val(p) * 10 + (s.last() as u32 - 48));
        assert(pow10(s.len()) == 10 * pow10(p.len()));
        assert(digits_val(s) < pow10(s.len())) by (nonlinear_arith)
            requires
                digits_val(s) == digits_val(p) * 10 + (s.last() as u32 - 48),
                digits_val(p) < pow10(p.len()),
                (s.last() as u32 - 48) < 10,
                pow10(s.len()) == 10 * pow10(p.len()),
        ;
    }
    lemma_pow10_le(s.len());
}

pub proof fn lemma_pow10_le(n: nat)
    requires
        n <= 9,
    ensures
        pow10(n) <= 1_000_000_000,
{
    lemma_pow10_split(n);
    assert(pow10(n) <= 1_000_000_000) by (nonlinear_arith)
        requires
            pow10(n) * pow10((9 - n) as nat) == 1_000_000_000,
            pow10((9 - n) as nat) >= 1,
    ;
}

/// The smaller of `a` and `b`.
pub open spec fn min_int(a: int, b: int) -> int {
    if a < b {
        a
    } else {
        b
    }
}

proof fn lemma_sat_step(x: int, d: int, c: int)
    requires
        x >= 0,
        0 <= d <= 9,
        c > 0,
    ensures
        min_int(min_int(x, c) * 10 + d, c) == min_int(x * 10 + d, c),
{
}

/// The value of the digits `d[..n]`, but at most `c`.
fn sat_digits(d: &Vec<char>, n: usize, c: i128) -> (r: i128)
    requires
        n <= d.len(),
        all_digits(d@.take(n as int)),
        0 < c <= 1_000_000_000_000_000_000_000_000_000,
    ensures
        r == min_int(digits_val(d@.take(n as int)) as int, c as int),
        0 <= r <= c,
{
    let mut v: i128 = 0;
    let mut i: usize = 0;
    assert(d@.take(0) =~= Seq::<char>::empty());
    while i < n
        invariant
            i <= n <= d.len(),
            all_digits(d@.take(n as int)),
            0 < c <= 1_000_000_000_000_000_000_000_000_000,
            v == min_int(digits_val(d@.take(i as int)) as int, c as int),
            0 <= v <= c,
        decreases n - i,
    {
        assert(d@.take(i + 1).drop_last() =~= d@.take(i as int));
        assert(d@.take(i + 1).last() == d@[i as int]);
        assert(d@.take(n as int)[i as int] == d@[i as int]);
        assert(is_digit(d@[i as int]));
        let dg = (d[i] as u32 - 48) as i128;
        proof {
            lemma_sat_step(digits_val(d@.take(i as int)) as int, dg as int, c as int);
        }
        let w = v * 10 + dg;
        v = if w > c {
            c
        } else {
            w
        };
        i = i + 1;
    }
    v
}

/// Whether every character of `d` is an ASCII digit.
fn digits_only(d: &Vec<char>) -> (b: bool)
    ensures
        b == all_digits(d@),
{
    let mut i: usize = 0;
    while i < d.len()
        invariant
            i <= d.len(),
            forall|k: int| 0 <= k < i ==> is_digit(#[trigger] d@[k]),
        decreases d.len() - i,
    {
        if !(d[i] as u32 >= 48 && d[i] as u32 <= 57) {
            assert(!is_digit(d@[i as int]));
            return false;
        }
        i = i + 1;
    }
    true
}

pub proof fn lemma_pow10_mono(a: nat, b: nat)
    requires
        a <= b,
    ensures
        pow10(a) <= pow10(b),
    decreases b,
{
    if a < b {
        lemma_pow10_mono(a, (b - 1) as nat);
    }
}

/// From 27 on, a power of ten is at least the cap.
proof fn lemma_pow10_cap(k: nat)
    requires
        k >= 27,
    ensures
        pow10(k) >= cap(),
{
    assert(pow10(27) == cap()) by {
        reveal_with_fuel(pow10, 28);
    }
    lemma_pow10_mono(27, k);
}

/// Reads a mantissa (see `mantissa_parts`).
fn read_mantissa(m: &Vec<char>) -> (r: Option<(Vec<char>, Vec<char>)>)
    ensures
        match r {
            Some((ip, fp)) => mantissa_parts(m@) == Some((ip@, fp@)) && all_digits(ip@),
            None => mantissa_parts(m@) is None,
        },
{
    let mut p: usize = 0;
    while p < m.len() && m[p] as u32 >= 48 && m[p] as u32 <= 57
        invariant
            p <= m.len(),
            forall|k: int| 0 <= k < p ==> is_digit(#[trigger] m@[k]),
        decreases m.len() - p,
    {
        p = p + 1;
    }
    proof {
        lemma_lead_digits(m@, p as int);
        if p < m.len() {
            assert(!is_digit(m@.skip(p as int)[0]));
        }
        assert(lead_digits(m@.skip(p as int)) == 0);
    }
    let (ip, fp) = if p == m.len() {
        assert(m@.take(p as int) =~= m@);
        (copy_chars(m), Vec::new())
    } else if m[p] == '.' {
        let ip = crate::text::slice_chars(m, 0, p);
        let fp = crate::text::slice_chars(m, p + 1, m.len());
        assert(fp@ =~= m@.skip(p + 1));
        (ip, fp)
    } else {
        return None;
    };
    assert(ip@ =~= m@.take(p as int));
    assert(all_digits(ip@));
    assert(fp@.len() == 0 ==> fp@ =~= Seq::<char>::empty());
    if digits_only(&fp) && ip.len() + fp.len() > 0 {
        Some((ip, fp))
    } else {
        None
    }
}

/// The largest exponent size read exactly; a larger one (a number of more
/// than 10^20 digits) is beyond any text here.
pub open spec fn exp_bound() -> int {
    100_000_000_000_000_000_000
}

/// Reads an exponent (see `exponent_value`): its sign and its size, but at
/// most `exp_bound()`.
fn read_exponent(x: &Vec<char>) -> (r: Option<(bool, i128)>)
    ensures
        match r {
            Some((neg, v)) => {
                let (n, ds) = split_sign(x@);
                &&& exponent_value(x@) is Some
                &&& n == neg
                &&& v == min_int(digits_val(ds) as int, exp_bound())
            },
            None => exponent_value(x@) is None,
        },
{
    let mut start: usize = 0;
    let mut neg = false;
    if x.len() > 0 && x[0] == '-' {
        start = 1;
        neg = true;
    } else if x.len() > 0 && x[0] == '+' {
        start = 1;
    }
    let ds = crate::text::slice_chars(x, start, x.len());
    assert(ds@ == split_sign(x@).1 && neg == split_sign(x@).0) by {
        if start == 1 {
            assert(ds@ =~= x@.drop_first());
        } else {
            assert(ds@ =~= x@);
        }
    }
    if ds.len() == 0 || !digits_only(&ds) {
        return None;
    }
    assert(ds@.take(ds.len() as int) =~= ds@);
    let v = sat_digits(&ds, ds.len(), 100_000_000_000_000_000_000);
    Some((neg, v))
}

/// Reads an unsigned finite number (see `finite_value`), in billionths.
fn read_finite(body: &Vec<char>) -> (r: Option<i128>)
    ensures
        match r {
            Some(v) => finite_value(body@) == Some(v as int) && 0 <= v <= cap(),
            None => finite_value(body@) is None,
        },
{
    let (m, ex) = match find_char(body, 'e') {
        Some(p) => {
            assert(p < body.len());
            proof {
                let q = choose|q: int| first_pos(body@, 'e', q);
                lemma_first_pos_unique(body@, 'e', p as int, q);
            }
            let m = crate::text::slice_chars(body, 0, p);
            let x = crate::text::slice_chars(body, p + 1, body.len());
            assert(m@ =~= body@.take(p as int));
            assert(x@ =~= body@.skip(p + 1));
            match read_exponent(&x) {
                Some(e) => (m, e),
                None => {
                    return None;
                },
            }
        },
        None => (copy_chars(body), (false, 0i128)),
    };
    let ghost xv: int = if has_char(body@, 'e') {
        exponent_value(body@.skip((choose|p: int| first_pos(body@, 'e', p)) + 1))->0
    } else {
        0
    };
    let (ip, fp) = match read_mantissa(&m) {
        Some(parts) => parts,
        None => {
            return None;
        },
    };
    let mut d = copy_chars(&ip);
    crate::text::append_chars(&mut d, &fp);
    assert(d@ == ip@ + fp@);
    assert(all_digits(d@)) by {
        assert forall|k: int| 0 <= k < d@.len() implies is_digit(#[trigger] d@[k]) by {
            if k < ip@.len() {
                assert(d@[k] == ip@[k]);
            } else {
                assert(d@[k] == fp@[k - ip@.len()]);
            }
        }
    }
    assert(d@.take(d.len() as int) =~= d@);
    let big: i128 = 1_000_000_000_000_000_000_000_000_000;
    let (eneg, ev) = ex;
    proof {
        assert(d.len() <= usize::MAX);
        assert(ip.len() <= usize::MAX);
    }
    let q0 = ip.len() as i128 + 9;
    if ev == 100_000_000_000_000_000_000 {
        if eneg {
            assert(xv <= -exp_bound());
            assert(shifted_units(d@, ip@.len() + xv + 9) == 0);
            return Some(0);
        }
        let v0 = sat_digits(&d, d.len(), big);
        let ghost k: int = ip@.len() + xv + 9 - d@.len();
        assert(k >= 27);
        if v0 == 0 {
            assert(shifted_units(d@, ip@.len() + xv + 9) == 0) by {
                assert(digits_val(d@) == 0);
            }
            return Some(0);
        }
        proof {
            lemma_pow10_cap(k as nat);
            assert(digits_val(d@) * pow10(k as nat) >= cap()) by (nonlinear_arith)
                requires
                    digits_val(d@) >= 1,
                    pow10(k as nat) >= cap(),
            ;
        }
        return Some(big);
    }
    let x: i128 = if eneg {
        -ev
    } else {
        ev
    };
    assert(x == xv);
    let q: i128 = q0 + x;
    if q <= 0 {
        return Some(0);
    }
    if q >= d.len() as i128 {
        let k = q - d.len() as i128;
        let mut v = sat_digits(&d, d.len(), big);
        if v == 0 {
            assert(digits_val(d@) == 0);
            return Some(0);
        }
        if k >= 27 {
            proof {
                lemma_pow10_cap(k as nat);
                assert(digits_val(d@) * pow10(k as nat) >= cap()) by (nonlinear_arith)
                    requires
                        digits_val(d@) >= 1,
                        pow10(k as nat) >= cap(),
                ;
            }
            return Some(big);
        }
        let mut j: i128 = 0;
        assert(pow10(0) == 1);
        assert(digits_val(d@) * pow10(0) == digits_val(d@));
        while j < k
            invariant
                0 <= j <= k < 27,
                big == cap(),
                v == min_int((digits_val(d@) * pow10(j as nat)) as int, cap()),
                0 <= v <= cap(),
            decreases k - j,
        {
            proof {
                let dv = digits_val(d@) as int;
                let pj = pow10(j as nat) as int;
                assert(pow10((j + 1) as nat) == 10 * pj);
                assert(dv * pow10((j + 1) as nat) == (dv * pj) * 10) by (nonlinear_arith)
                    requires
                        pow10((j + 1) as nat) == 10 * pj,
                ;
                assert(dv * pj >= 0) by (nonlinear_arith)
                    requires
                        dv >= 0,
                        pj >= 0,
                ;
                lemma_sat_step(dv * pj, 0, cap());
            }
            let w = v * 10;
            v = if w > big {
                big
            } else {
                w
            };
            j = j + 1;
        }
        return Some(v);
    }
    let v = sat_digits(&d, q as usize, big);
    Some(v)
}

/// Reads a number as `str::parse::<f64>` does lowercase text (see
/// `number_value`).
pub fn read_number(t: &Vec<char>) -> (r: Option<NumValue>)
    ensures
        r == number_value(t@),
        r matches Some(n) ==> in_cap(n),
{
    let mut start: usize = 0;
    let mut neg = false;
    if t.len() > 0 && t[0] == '-' {
        start = 1;
        neg = true;
    } else if t.len() > 0 && t[0] == '+' {
        start = 1;
    }
    let body = crate::text::slice_chars(t, start, t.len());
    assert(body@ == split_sign(t@).1 && neg == split_sign(t@).0) by {
        if start == 1 {
            assert(body@ =~= t@.drop_first());
        } else {
            assert(body@ =~= t@);
        }
    }
    if eq_str(&body, "inf") || eq_str(&body, "infinity") {
        return Some(NumValue::Infinite(neg));
    }
    if eq_str(&body, "nan") {
        return Some(NumValue::NotANumber);
    }
    match read_finite(&body) {
        Some(v) => Some(
            NumValue::Finite(
                if neg {
                    -v
                } else {
                    v
                },
            ),
        ),
        None => None,
    }
}

/// Whole minutes for `n` units of `per_unit` minutes (see `num_minutes`).
pub fn minutes_of(n: NumValue, per_unit: i128) -> (r: i32)
    requires
        per_unit == 1 || per_unit == 60,
        in_cap(n),
    ensures
        r == num_minutes(n, per_unit as int),
{
    match n {
        NumValue::Finite(v) => {
            assert(-cap() <= v <= cap());
            let w: i128 = if per_unit == 60 {
                60 * v
            } else {
                v
            };
            to_whole_minutes(w)
        },
        NumValue::Infinite(neg) => if neg {
            -2147483648i32
        } else {
            2147483647i32
        },
        NumValue::NotANumber => 0,
    }
}

/// Whole minutes for `h` hours and `m` minutes (see `sum_minutes`).
pub fn sum_of(h: NumValue, m: NumValue) -> (r: i32)
    requires
        in_cap(h),
        in_cap(m),
    ensures
        r == sum_minutes(h, m),
{
    match h {
        NumValue::NotANumber => 0,
        NumValue::Infinite(a) => match m {
            NumValue::NotANumber => 0,
            NumValue::Infinite(b) => if a == b {
                minutes_of(h, 1)
            } else {
                0
            },
            NumValue::Finite(_) => minutes_of(h, 1),
        },
        NumValue::Finite(x) => match m {
            NumValue::NotANumber => 0,
            NumValue::Infinite(_) => minutes_of(m, 1),
            NumValue::Finite(y) => {
                assert(-cap() <= x <= cap() && -cap() <= y <= cap());
                to_whole_minutes(60 * x + y)
            },
        },
    }
}

/// Rounds `v` billionths to whole minutes and clamps into `i32`.
pub fn to_whole_minutes(v: i128) -> (r: i32)
    requires
        -100_000_000_000_000_000_000_000_000_000 < v < 100_000_000_000_000_000_000_000_000_000,
    ensures
        r == whole_minutes(v as int),
{
    let u: i128 = 1_000_000_000;
    let rounded: i128 = if v >= 0 {
        (2 * v + u) / (2 * u)
    } else {
        -((u - 2 * v) / (2 * u))
    };
    if rounded > 2147483647 {
        2147483647
    } else if rounded < -2147483648 {
        -2147483648
    } else {
        rounded as i32
    }
}


pub proof fn lemma_first_pos_unique(s: Seq<char>, c: char, p: int, q: int)
    requires
        first_pos(s, c, p),
        first_pos(s, c, q),
    ensures
        p == q,
{
    if p < q {
        assert(s[p] == c);
    } else if q < p {
        assert(s[q] == c);
    }
}

/// Position of the first `c` in `s`, like `str::find` with a `char`.
pub fn find_char(s: &Vec<char>, c: char) -> (r: Option<usize>)
    ensures
        match r {
            Some(p) => first_pos(s@, c, p as int),
            None => !has_char(s@, c),
        },
{
    let mut i: usize = 0;
    while i < s.len()
        invariant
            i <= s.len(),
            forall|j: int| 0 <= j < i ==> s@[j] != c,
        decreases s.len() - i,
    {
        if s[i] == c {
            return Some(i);
        }
        i = i + 1;
    }
    None
}

/// The result of reading a duration, as the contracts speak of it.
pub open spec fn outcome(r: Result<i32, DurationError>) -> Result<int, DurationFault> {
    match r {
        Ok(v) => Ok(v as int),
        Err(e) => Err(e@),
    }
}

/// Reads a compact duration (no spaces): see `compact_minutes`.
pub fn parse_compact(b: &Vec<char>) -> (r: Option<i32>)
    ensures
        match r {
            Some(v) => compact_minutes(b@) == Some(v as int),
            None => compact_minutes(b@) is None,
        },
{
    match read_number(b) {
        Some(n) => {
            return Some(minutes_of(n, 60));
        },
        None => {},
    }
    match find_char(b, 'h') {
        Some(p) => {
            assert(p < b.len());
            proof {
                let q = choose|q: int| first_pos(b@, 'h', q);
                lemma_first_pos_unique(b@, 'h', p as int, q);
            }
            let hs = crate::text::slice_chars(b, 0, p);
            let rest = crate::text::slice_chars(b, p + 1, b.len());
            assert(hs@ =~= b@.take(p as int));
            assert(rest@ =~= b@.skip(p + 1));
            let hv: Option<NumValue> = if hs.len() == 0 {
                Some(NumValue::Finite(0))
            } else {
                read_number(&hs)
            };
            let mv: Option<NumValue> = if rest.len() == 0 {
                Some(NumValue::Finite(0))
            } else if rest[rest.len() - 1] == 'm' {
                let digits = crate::text::slice_chars(&rest, 0, rest.len() - 1);
                assert(digits@ =~= rest@.drop_last());
                read_number(&digits)
            } else {
                None
            };
            match (hv, mv) {
                (Some(h), Some(m)) => Some(sum_of(h, m)),
                _ => None,
            }
        },
        None => {
            if b.len() > 0 && b[b.len() - 1] == 'm' {
                let digits = crate::text::slice_chars(b, 0, b.len() - 1);
                assert(digits@ =~= b@.drop_last());
                match read_number(&digits) {
                    Some(m) => Some(minutes_of(m, 1)),
                    None => None,
                }
            } else {
                None
            }
        },
    }
}

/// Reads the spaced form: see `spaced_from`.
pub fn parse_spaced(b: &Vec<char>) -> (r: Result<i32, DurationError>)
    ensures
        outcome(r) == spaced_from(words(b@), 0, 0),
{
    let toks = split_ws(b);
    let ghost t = views(toks@);
    let mut total: i32 = 0;
    let mut i: usize = 0;
    while i < toks.len()
        invariant
            t == views(toks@),
            t == words(b@),
            i <= toks.len(),
            spaced_from(t, 0, 0) == spaced_from(t, i as int, total as int),
        decreases toks.len() - i,
    {
        let tok = &toks[i];
        assert(tok@ == t[i as int]);
        let n = match read_number(tok) {
            Some(n) => n,
            None => {
                return Err(DurationError::ExpectedNumber(string_of(tok)));
            },
        };
        if i + 1 >= toks.len() {
            return Err(DurationError::ExpectedUnit(string_of(tok)));
        }
        let u = &toks[i + 1];
        assert(u@ == t[i + 1]);
        let hour = eq_str(u, "hr") || eq_str(u, "hrs") || eq_str(u, "hour") || eq_str(u, "hours");
        let minute = eq_str(u, "min") || eq_str(u, "mins") || eq_str(u, "minute") || eq_str(
            u,
            "minutes",
        );
        if !hour && !minute {
            return Err(DurationError::UnknownUnit(string_of(u)));
        }
        let part: i32 = if hour {
            minutes_of(n, 60)
        } else {
            minutes_of(n, 1)
        };
        let next: i64 = total as i64 + part as i64;
        if next < -2147483648 || next > 2147483647 {
            return Err(DurationError::OutOfRange);
        }
        total = next as i32;
        i = i + 2;
    }
    Ok(total)
}

/// `s` with every `,` replaced by `.`.
pub fn replace_commas(s: &Vec<char>) -> (r: Vec<char>)
    ensures
        r@ == commas_to_points(s@),
{
    let mut r: Vec<char> = Vec::new();
    let mut i: usize = 0;
    while i < s.len()
        invariant
            i <= s.len(),
            r@ == commas_to_points(s@).take(i as int),
        decreases s.len() - i,
    {
        r.push(if s[i] == ',' { '.' } else { s[i] });
        i = i + 1;
        assert(r@ =~= commas_to_points(s@).take(i as int));
    }
    assert(commas_to_points(s@).take(i as int) =~= commas_to_points(s@));
    r
}

/// Reads a duration from text that is already trimmed and lowercased: see
/// `duration_value`.
pub fn parse_lowered_duration(s: &str) -> (r: Result<i32, DurationError>)
    ensures
        outcome(r) == duration_value(s@),
{
    let v = chars_of(s);
    let negative = v.len() > 0 && v[0] == '-';
    let body = if negative {
        let rest = crate::text::slice_chars(&v, 1, v.len());
        assert(rest@ =~= v@.drop_first());
        trim_start_chars(&rest)
    } else {
        copy_chars(&v)
    };
    if body.len() == 0 {
        return Err(DurationError::EmptyTimeString);
    }
    let b = replace_commas(&body);
    let total = match find_char(&b, ' ') {
        None => match parse_compact(&b) {
            Some(t) => Ok(t),
            None => Err(DurationError::InvalidFormat(string_of(&b))),
        },
        Some(_) => parse_spaced(&b),
    };
    match total {
        Ok(t) => if negative {
            if t == -2147483648i32 {
                Err(DurationError::OutOfRange)
            } else {
                Ok(-t)
            }
        } else {
            Ok(t)
        },
        Err(e) => Err(e),
    }
}

/// Reads a duration such as `1 hr 30 min`, `2 hours`, `45 mins`, `1h30m`,
/// `30m`, `1.5`, `1,5 hours` or `-45 min`, in minutes: the text is trimmed
/// and lowercased, then read as `duration_value` says.
pub fn parse_duration(s: &str) -> (r: Result<i32, DurationError>)
    ensures
        outcome(r) == duration_value(lower(trim(s@))),
{
    let v = chars_of(s);
    let t = trim_chars(&v);
    let ts = string_of(&t);
    let lowered = to_lowercase(ts.as_str());
    parse_lowered_duration(lowered.as_str())
}


/// The text after the sign: hours and minutes, as `N hr M min`, `N hr`,
/// `M min` or `0 min`.
pub open spec fn duration_body(h: int, m: int) -> Seq<char> {
    if h == 0 && m == 0 {
        "0 min"@
    } else if h == 0 {
        signed_decimal(m) + " min"@
    } else if m == 0 {
        signed_decimal(h) + " hr"@
    } else {
        signed_decimal(h) + " hr "@ + signed_decimal(m) + " min"@
    }
}

pub open spec fn abs(x: int) -> int {
    if x < 0 {
        -x
    } else {
        x
    }
}

/// How `format_duration` writes `t` minutes: `-` for a negative value, then
/// whole hours and the remaining minutes. (For `i32::MIN`, whose magnitude
/// does not fit in an `i32`, the magnitude wraps to itself and is split by
/// truncating division: -35791394 hours and -8 minutes.)
pub open spec fn duration_text(t: int) -> Seq<char> {
    let body = if t == i32::MIN {
        duration_body(-35791394, -8)
    } else {
        duration_body(abs(t) / 60, abs(t) % 60)
    };
    if t < 0 {
        seq!['-'] + body
    } else {
        body
    }
}

fn push_signed_small(out: &mut Vec<char>, n: i64)
    requires
        n > i64::MIN,
    ensures
        final(out)@ == old(out)@ + signed_decimal(n as int),
{
    crate::num::push_signed(out, n);
}

/// Writes `total_mins` as `N hr M min` (e.g. `1 hr 30 min`, `2 hr`,
/// `45 min`, `0 min`, `-1 hr 30 min`).
pub fn format_duration(total_mins: i32) -> (r: String)
    ensures
        r@ == duration_text(total_mins as int),
{
    let negative = total_mins < 0;
    let (h, m): (i64, i64) = if total_mins == -2147483648i32 {
        (-35791394, -8)
    } else {
        let a: i64 = if negative {
            -(total_mins as i64)
        } else {
            total_mins as i64
        };
        (a / 60, a % 60)
    };
    let mut out: Vec<char> = Vec::new();
    if negative {
        out.push('-');
    }
    let ghost pre = out@;
    if h == 0 && m == 0 {
        crate::text::append_str(&mut out, "0 min");
    } else if h == 0 {
        push_signed_small(&mut out, m);
        crate::text::append_str(&mut out, " min");
    } else if m == 0 {
        push_signed_small(&mut out, h);
        crate::text::append_str(&mut out, " hr");
    } else {
        push_signed_small(&mut out, h);
        crate::text::append_str(&mut out, " hr ");
        push_signed_small(&mut out, m);
        crate::text::append_str(&mut out, " min");
    }
    proof {
        assert(out@ =~= pre + duration_body(h as int, m as int));
        if negative {
            assert(pre =~= seq!['-']);
        } else {
            assert(pre =~= Seq::<char>::empty());
        }
        assert(out@ =~= duration_text(total_mins as int));
    }
    string_of(&out)
}

/// `mins` rounded to the nearest multiple of `increment`, halves away from
/// zero; unchanged when `increment` is at most 1.
pub open spec fn rounded_to(mins: int, increment: int) -> int {
    if increment <= 1 {
        mins
    } else {
        let sign = if mins < 0 {
            -1int
        } else {
            1int
        };
        sign * (((abs(mins) + increment / 2) / increment) * increment)
    }
}

/// Rounds a duration to the nearest multiple of `increment` minutes (half
/// away from zero). `increment <= 1` is a no-op. Sign is preserved so debit
/// deltas round symmetrically.
pub fn round_to_increment(mins: i32, increment: i32) -> (r: i32)
    requires
        increment <= 1 || (mins > i32::MIN && abs(mins as int) + increment / 2 <= i32::MAX),
    ensures
        r == rounded_to(mins as int, increment as int),
{
    if increment <= 1 {
        return mins;
    }
    let sign: i32 = if mins < 0 {
        -1
    } else {
        1
    };
    let a: i32 = if mins < 0 {
        -mins
    } else {
        mins
    };
    let q = (a + increment / 2) / increment;
    proof {
        assert(q * increment <= a + increment / 2) by (nonlinear_arith)
            requires
                q as int == (a as int + increment as int / 2) / increment as int,
                increment > 1,
                a as int + increment as int / 2 >= 0,
        ;
        assert(q * increment >= 0) by (nonlinear_arith)
            requires
                q as int == (a as int + increment as int / 2) / increment as int,
                increment > 1,
                a as int + increment as int / 2 >= 0,
        ;
    }
    let rounded = q * increment;
    sign * rounded
}

/// Rounding to an increment gives the multiple of it nearest to the
/// duration, of the same sign, with halves going away from zero.
pub proof fn lemma_round_to_increment_nearest(mins: int, increment: int)
    requires
        increment > 1,
    ensures
        rounded_to(mins, increment) % increment == 0,
        mins >= 0 ==> rounded_to(mins, increment) >= 0,
        mins < 0 ==> rounded_to(mins, increment) <= 0,
        abs(rounded_to(mins, increment)) - increment / 2 <= abs(mins),
        abs(mins) < abs(rounded_to(mins, increment)) + (increment - increment / 2),
{
    let a = abs(mins);
    let q = (a + increment / 2) / increment;
    let h = increment / 2;
    assert(q * increment <= a + h < q * increment + increment) by (nonlinear_arith)
        requires
            q == (a + h) / increment,
            increment > 1,
            a + h >= 0,
    ;
    assert(q >= 0) by (nonlinear_arith)
        requires
            q == (a + h) / increment,
            increment > 1,
            a + h >= 0,
    ;
    assert((q * increment) % increment == 0) by (nonlinear_arith)
        requires
            increment > 1,
    ;
    assert(q * increment >= 0) by (nonlinear_arith)
        requires
            q >= 0,
            increment > 1,
    ;
    let k = q * increment;
    assert(k >= 0);
    assert(k - h <= a < k + (increment - h));
    if mins < 0 {
        assert(-1 * k <= 0);
        assert(abs(-1 * k) == k);
        assert(rounded_to(mins, increment) == -1 * k);
        assert(-1 * k == (-q) * increment) by (nonlinear_arith)
            requires
                k == q * increment,
        ;
        assert(((-q) * increment) % increment == 0) by (nonlinear_arith)
            requires
                increment > 1,
        ;
    } else {
        assert(rounded_to(mins, increment) == 1 * k);
    }
}


proof fn lemma_decimal_value_of_nat(n: nat)
    requires
        n < 1_000_000_000,
    ensures
        number_value(decimal(n)) == Some(NumValue::Finite((n * unit()) as i128)),
        (n * unit()) as i128 == n * unit(),
        is_word(decimal(n)),
        is_lower_ascii(decimal(n)),
        decimal(n).len() >= 1,
        is_digit(decimal(n)[0]),
{
    let s = decimal(n);
    lemma_digits_val_decimal(n);
    lemma_decimal_len(n);
    assert(pow10(9) == 1_000_000_000) by {
        assert(pow10(0) == 1);
        assert(pow10(1) == 10);
        assert(pow10(2) == 100);
        assert(pow10(3) == 1000);
        assert(pow10(4) == 10000);
        assert(pow10(5) == 100000);
        assert(pow10(6) == 1000000);
        assert(pow10(7) == 10000000);
        assert(pow10(8) == 100000000);
    }
    lemma_decimal_len_bound(n, 9);
    assert(is_digit(s[0]));
    assert(split_sign(s) == (false, s));
    reveal_strlit("inf");
    reveal_strlit("infinity");
    reveal_strlit("nan");
    assert(s != "inf"@ && s != "infinity"@ && s != "nan"@) by {
        assert(s[0] != "inf"@[0]);
        assert(s[0] != "infinity"@[0]);
        assert(s[0] != "nan"@[0]);
    }
    assert(!has_char(s, 'e')) by {
        if has_char(s, 'e') {
            let k = choose|k: int| 0 <= k < s.len() && s[k] == 'e';
            assert(is_digit(s[k]));
        }
    }
    lemma_lead_digits(s, s.len() as int);
    assert(s.skip(s.len() as int) =~= Seq::<char>::empty());
    assert(lead_digits(s) == s.len());
    assert(all_digits(Seq::<char>::empty()));
    assert(mantissa_parts(s) == Some((s, Seq::<char>::empty())));
    assert(s + Seq::<char>::empty() =~= s);
    let q: int = s.len() as int + 9;
    assert(shifted_units(s, q) == n * pow10(9));
    assert(n * unit() < cap());
    assert(finite_value(s) == Some(n * unit()));
    assert(is_word(s)) by {
        assert forall|i: int| 0 <= i < s.len() implies !is_ws(#[trigger] s[i]) by {
            assert(is_digit(s[i]));
        }
    }
    assert(is_lower_ascii(s)) by {
        assert forall|i: int| 0 <= i < s.len() implies (#[trigger] s[i] as u32) < 128 && !(65
            <= s[i] as u32 <= 90) by {
            assert(is_digit(s[i]));
        }
    }
}

proof fn lemma_round_whole(k: int)
    requires
        k >= 0,
    ensures
        round_units(k * unit()) == k,
{
    let u = unit();
    assert(k * u >= 0) by (nonlinear_arith)
        requires
            k >= 0,
            u > 0,
    ;
    assert((2 * (k * u) + u) / (2 * u) == k) by (nonlinear_arith)
        requires
            k >= 0,
            u == 1_000_000_000,
    ;
}

proof fn lemma_word_lit(w: Seq<char>)
    requires
        w.len() > 0,
        forall|i: int| 0 <= i < w.len() ==> 97 <= (#[trigger] w[i]) as u32 <= 122,
    ensures
        is_word(w),
        plain(w),
{
}

/// Text made only of digits, spaces, `-` and lowercase ASCII letters.
pub open spec fn plain(s: Seq<char>) -> bool {
    forall|i: int|
        0 <= i < s.len() ==> {
            let c = #[trigger] s[i];
            is_digit(c) || c == ' ' || c == '-' || 97 <= c as u32 <= 122
        }
}

proof fn lemma_plain_concat(a: Seq<char>, b: Seq<char>)
    requires
        plain(a),
        plain(b),
    ensures
        plain(a + b),
{
    assert forall|i: int| 0 <= i < (a + b).len() implies {
        let c = #[trigger] (a + b)[i];
        is_digit(c) || c == ' ' || c == '-' || 97 <= c as u32 <= 122
    } by {
        if i < a.len() {
            assert((a + b)[i] == a[i]);
        } else {
            assert((a + b)[i] == b[i - a.len()]);
        }
    }
}

proof fn lemma_plain_facts(s: Seq<char>)
    requires
        plain(s),
    ensures
        is_lower_ascii(s),
        commas_to_points(s) == s,
{
    assert(commas_to_points(s) =~= s);
}

proof fn lemma_decimal_plain(n: nat)
    requires
        n < 1_000_000_000,
    ensures
        plain(decimal(n)),
{
    lemma_decimal_value_of_nat(n);
    assert forall|i: int| 0 <= i < decimal(n).len() implies {
        let c = #[trigger] decimal(n)[i];
        is_digit(c) || c == ' ' || c == '-' || 97 <= c as u32 <= 122
    } by {
        lemma_digits_val_decimal(n);
    }
}

proof fn lemma_units()
    ensures
        is_word("min"@),
        plain("min"@),
        is_word("hr"@),
        plain("hr"@),
        is_minute_unit("min"@),
        !is_hour_unit("min"@),
        is_hour_unit("hr"@),
        "min"@.last() == 'n',
        "hr"@.last() == 'r',
{
    reveal_strlit("min");
    reveal_strlit("hr");
    reveal_strlit("hrs");
    reveal_strlit("hour");
    reveal_strlit("hours");
    lemma_word_lit("min"@);
    lemma_word_lit("hr"@);
    assert("min"@ != "hr"@) by {
        assert("min"@.len() != "hr"@.len());
    }
    assert("min"@ != "hrs"@) by {
        assert("min"@[0] != "hrs"@[0]);
    }
    assert("min"@ != "hour"@) by {
        assert("min"@.len() != "hour"@.len());
    }
    assert("min"@ != "hours"@) by {
        assert("min"@.len() != "hours"@.len());
    }
}

/// The words of the text `duration_body` writes for `h` hours, `m` minutes.
pub open spec fn body_tokens(h: nat, m: nat) -> Seq<Seq<char>> {
    if h == 0 && m == 0 {
        seq![decimal(0), "min"@]
    } else if h == 0 {
        seq![decimal(m), "min"@]
    } else if m == 0 {
        seq![decimal(h), "hr"@]
    } else {
        seq![decimal(h), "hr"@, decimal(m), "min"@]
    }
}

#[verifier::rlimit(40)]
proof fn lemma_body_shape(h: nat, m: nat)
    requires
        h < 1_000_000_000,
        m < 60,
    ensures
        duration_body(h as int, m as int) == join_sp(body_tokens(h, m)),
        plain(duration_body(h as int, m as int)),
        words(duration_body(h as int, m as int)) == body_tokens(h, m),
        has_char(duration_body(h as int, m as int), ' '),
        is_digit(duration_body(h as int, m as int)[0]),
        duration_body(h as int, m as int).last() == 'n' || duration_body(h as int, m as int).last() == 'r',
{
    reveal_strlit("0 min");
    reveal_strlit(" min");
    reveal_strlit(" hr");
    reveal_strlit(" hr ");
    lemma_units();
    let dh = decimal(h);
    let dm = decimal(m);
    let d0 = decimal(0);
    lemma_decimal_value_of_nat(h);
    lemma_decimal_value_of_nat(m);
    lemma_decimal_value_of_nat(0);
    lemma_decimal_plain(h);
    lemma_decimal_plain(m);
    lemma_decimal_plain(0);
    assert(d0 =~= seq!['0']);
    let sp = seq![' '];
    assert(plain(sp));
    let toks = body_tokens(h, m);
    let body = duration_body(h as int, m as int);
    reveal_strlit("min");
    reveal_strlit("hr");
    assert(" min"@ =~= sp + "min"@);
    assert(" hr"@ =~= sp + "hr"@);
    assert(" hr "@ =~= sp + "hr"@ + sp);
    assert("0 min"@ =~= d0 + sp + "min"@);
    assert(signed_decimal(h as int) == dh);
    assert(signed_decimal(m as int) == dm);
    if h == 0 || m == 0 {
        assert(body =~= toks[0] + sp + toks[1]);
        assert(join_sp(toks) =~= toks[0] + sp + toks[1]) by {
            reveal_with_fuel(crate::text::join_with, 3);
        }
        lemma_plain_concat(toks[0], sp);
        lemma_plain_concat(toks[0] + sp, toks[1]);
    } else {
        let b1 = dh + sp + "hr"@;
        let b2 = b1 + sp + dm;
        assert(body =~= b2 + sp + "min"@);
        assert(join_sp(toks) =~= b2 + sp + "min"@) by {
            reveal_with_fuel(crate::text::join_with, 5);
            assert(toks.drop_last().drop_last().drop_last() =~= seq![dh]);
        }
        lemma_plain_concat(dh, sp);
        lemma_plain_concat(dh + sp, "hr"@);
        lemma_plain_concat(b1, sp);
        lemma_plain_concat(b1 + sp, dm);
        lemma_plain_concat(b2, sp);
        lemma_plain_concat(b2 + sp, "min"@);
    }
    assert(body[toks[0].len() as int] == ' ');
    assert forall|i: int| 0 <= i < toks.len() implies is_word(#[trigger] toks[i]) by {}
    lemma_words_join(toks);
}

proof fn lemma_body_value(h: int, m: int)
    requires
        0 <= h < 1_000_000_000,
        0 <= m < 60,
        60 * h + m <= i32::MAX,
    ensures
        spaced_from(body_tokens(h as nat, m as nat), 0, 0) == Ok::<int, DurationFault>(60 * h + m),
{
    lemma_units();
    lemma_decimal_value_of_nat(h as nat);
    lemma_decimal_value_of_nat(m as nat);
    lemma_decimal_value_of_nat(0);
    lemma_round_whole(m);
    lemma_round_whole(60 * h);
    lemma_round_whole(0);
    assert(60 * (h * unit()) == (60 * h) * unit()) by (nonlinear_arith);
    assert(0 * unit() == 0);
    let toks = body_tokens(h as nat, m as nat);
    if h == 0 && m == 0 {
        assert(spaced_from(toks, 2, 0) == Ok::<int, DurationFault>(0));
    } else if h == 0 {
        assert(spaced_from(toks, 2, m) == Ok::<int, DurationFault>(m));
    } else if m == 0 {
        assert(spaced_from(toks, 2, 60 * h) == Ok::<int, DurationFault>(60 * h));
    } else {
        assert(spaced_from(toks, 4, 60 * h + m) == Ok::<int, DurationFault>(60 * h + m));
        assert(spaced_from(toks, 2, 60 * h) == Ok::<int, DurationFault>(60 * h + m));
    }
}

/// Writing a duration and reading it back gives the same number of minutes
/// (the text is also already trimmed and lowercase, so `parse_duration`
/// reads it exactly as `duration_value` does). `i32::MIN` is left out: its
/// magnitude does not fit in an `i32`.
pub proof fn law_duration_round_trip(x: i32)
    requires
        x != i32::MIN,
    ensures
        duration_value(duration_text(x as int)) == Ok::<int, DurationFault>(x as int),
        trim(duration_text(x as int)) == duration_text(x as int),
        is_lower_ascii(duration_text(x as int)),
        plain(duration_text(x as int)),
{
    let a = abs(x as int);
    let h = a / 60;
    let m = a % 60;
    assert(0 <= h < 1_000_000_000);
    assert(0 <= m < 60);
    assert(60 * h + m == a);
    lemma_body_shape(h as nat, m as nat);
    lemma_body_value(h, m);
    let body = duration_body(h, m);
    lemma_plain_facts(body);
    let text = duration_text(x as int);
    if x < 0 {
        assert(text =~= seq!['-'] + body);
        assert(text.drop_first() =~= body);
        assert(trim_start(body) == body);
        assert(plain(seq!['-']));
        lemma_plain_concat(seq!['-'], body);
    } else {
        assert(text == body);
    }
    assert(trim_start(text) == text);
    assert(trim_end(text) == text);
    lemma_plain_facts(text);
}

/// `spaced_from` reads only the tokens from `i` on.
proof fn lemma_spaced_from_tail(t1: Seq<Seq<char>>, t2: Seq<Seq<char>>, i: int, acc: int)
    requires
        t1.len() == t2.len(),
        0 <= i,
        forall|j: int| i <= j < t1.len() ==> t1[j] == t2[j],
    ensures
        spaced_from(t1, i, acc) == spaced_from(t2, i, acc),
    decreases t1.len() - i,
{
    if i < t1.len() {
        assert(t1[i] == t2[i]);
        if i + 1 < t1.len() {
            assert(t1[i + 1] == t2[i + 1]);
        }
        match number_value(t1[i]) {
            Some(n) => if i + 1 < t1.len() {
                let u = t1[i + 1];
                if is_hour_unit(u) || is_minute_unit(u) {
                    let part = if is_hour_unit(u) {
                        num_minutes(n, 60)
                    } else {
                        num_minutes(n, 1)
                    };
                    lemma_spaced_from_tail(t1, t2, i + 2, acc + part);
                }
            },
            None => {},
        }
    }
}

/// Putting `p` in front of the first of several words puts it in front of
/// their join.
proof fn lemma_join_front(ws: Seq<Seq<char>>, p: Seq<char>)
    requires
        ws.len() > 0,
    ensures
        join_sp(ws.update(0, p + ws[0])) == p + join_sp(ws),
    decreases ws.len(),
{
    if ws.len() == 1 {
        assert(ws.update(0, p + ws[0]) =~= seq![p + ws[0]]);
        assert(ws =~= seq![ws[0]]);
    } else {
        let w2 = ws.update(0, p + ws[0]);
        lemma_join_front(ws.drop_last(), p);
        assert(w2.drop_last() =~= ws.drop_last().update(0, p + ws[0]));
        assert(w2.last() == ws.last());
        assert(join_sp(w2) =~= p + join_sp(ws));
    }
}

proof fn lemma_plus_words(h: nat, m: nat)
    requires
        h < 1_000_000_000,
        m < 60,
    ensures
        words(seq!['+'] + duration_body(h as int, m as int)) == body_tokens(h, m).update(
            0,
            seq!['+'] + body_tokens(h, m)[0],
        ),
{
    lemma_body_shape(h, m);
    let toks = body_tokens(h, m);
    let t2 = toks.update(0, seq!['+'] + toks[0]);
    lemma_join_front(toks, seq!['+']);
    assert forall|i: int| 0 <= i < toks.len() implies is_word(#[trigger] toks[i]) by {
        assert(words(duration_body(h as int, m as int)) == toks);
        crate::text::lemma_words_are_words(duration_body(h as int, m as int));
    }
    let w0 = seq!['+'] + toks[0];
    assert(is_word(w0)) by {
        assert forall|i: int| 0 <= i < w0.len() implies !is_ws(#[trigger] w0[i]) by {
            if i > 0 {
                assert(w0[i] == toks[0][i - 1]);
            }
        }
    }
    assert forall|i: int| 0 <= i < t2.len() implies is_word(#[trigger] t2[i]) by {
        if i > 0 {
            assert(t2[i] == toks[i]);
        }
    }
    lemma_words_join(t2);
}

proof fn lemma_plus_value(h: int, m: int)
    requires
        0 <= h < 1_000_000_000,
        0 <= m < 60,
        60 * h + m <= i32::MAX,
    ensures
        spaced_from(body_tokens(h as nat, m as nat).update(0, seq!['+'] + body_tokens(h as nat, m as nat)[0]), 0, 0)
            == Ok::<int, DurationFault>(60 * h + m),
{
    lemma_body_value(h, m);
    let toks = body_tokens(h as nat, m as nat);
    let t2 = toks.update(0, seq!['+'] + toks[0]);
    lemma_decimal_value_of_nat(h as nat);
    lemma_decimal_value_of_nat(m as nat);
    lemma_decimal_value_of_nat(0);
    let w0 = seq!['+'] + toks[0];
    assert(w0.drop_first() =~= toks[0]);
    assert(split_sign(w0) == split_sign(toks[0]));
    assert(number_value(w0) == number_value(toks[0]));
    let n = number_value(toks[0])->0;
    let u = toks[1];
    let part = if is_hour_unit(u) {
        num_minutes(n, 60)
    } else {
        num_minutes(n, 1)
    };
    lemma_spaced_from_tail(t2, toks, 2, part);
}

/// A duration of zero or more written with a `+` in front reads back as
/// the duration, as `parse_duration` reads it.
pub proof fn lemma_plus_duration(x: i32)
    requires
        x >= 0,
    ensures
        duration_value(lower(trim("+"@ + duration_text(x as int)))) == Ok::<int, DurationFault>(
            x as int,
        ),
        plain(duration_text(x as int)),
{
    reveal_strlit("+");
    law_duration_round_trip(x);
    let a = x as int;
    let h = a / 60;
    let m = a % 60;
    lemma_body_shape(h as nat, m as nat);
    lemma_plus_words(h as nat, m as nat);
    lemma_plus_value(h, m);
    let body = duration_text(a);
    assert(body == duration_body(h, m));
    let s = seq!['+'] + body;
    assert("+"@ + body =~= s);
    assert(is_lower_ascii(s)) by {
        assert forall|i: int| 0 <= i < s.len() implies (#[trigger] s[i] as u32) < 128 && !(65 <= s[i] as u32 <= 90) by {
            if i > 0 {
                assert(s[i] == body[i - 1]);
            }
        }
    }
    assert(trim_start(s) == s);
    assert(!is_ws(s.last())) by {
        assert(s.last() == body.last());
    }
    assert(trim_end(s) == s);
    assert(commas_to_points(s) =~= s) by {
        assert forall|i: int| 0 <= i < s.len() implies s[i] != ',' by {
            if i > 0 {
                assert(s[i] == body[i - 1]);
            }
        }
    }
    assert(has_char(s, ' ')) by {
        let k = choose|k: int| 0 <= k < body.len() && body[k] == ' ';
        assert(s[k + 1] == ' ');
    }
}

/// A number written without a `-` in front reads as zero minutes or more.
proof fn lemma_part_nonneg(t: Seq<char>, per_unit: int)
    requires
        t.len() > 0,
        t[0] != '-',
        number_value(t) is Some,
        per_unit == 1 || per_unit == 60,
    ensures
        num_minutes(number_value(t)->0, per_unit) >= 0,
{
    let (neg, body) = split_sign(t);
    assert(!neg);
    match number_value(t)->0 {
        NumValue::Finite(v) => {
            let fv = finite_value(body)->0;
            assert(fv >= 0) by {
                let (m, e) = if has_char(body, 'e') {
                    let p = choose|p: int| first_pos(body, 'e', p);
                    (body.take(p), exponent_value(body.skip(p + 1)))
                } else {
                    (body, Some(0int))
                };
                let (ip, fp) = mantissa_parts(m)->0;
                let x = e->0;
                let q = ip.len() + x + 9;
                let d = ip + fp;
                assert(shifted_units(d, q) >= 0) by {
                    if q > 0 && q >= d.len() {
                        assert(digits_val(d) * pow10((q - d.len()) as nat) >= 0) by (nonlinear_arith);
                    }
                }
            }
            assert(fv <= cap());
            assert(v == fv);
            assert(per_unit * v >= 0) by (nonlinear_arith)
                requires
                    per_unit >= 0,
                    v >= 0,
            ;
            assert(round_units(per_unit * v) >= 0) by (nonlinear_arith)
                requires
                    per_unit * v >= 0,
                    round_units(per_unit * v) == (2 * (per_unit * v) + unit()) / (2 * unit()),
                    unit() == 1_000_000_000,
            ;
        },
        NumValue::Infinite(b) => {
            assert(!b);
        },
        NumValue::NotANumber => {},
    }
}

/// Tokens of a spaced duration as `law_spaced_durations_add` takes them:
/// two or more, each a word of lowercase ASCII without a comma, and those
/// at even positions (the numbers) not starting with `-`.
pub open spec fn plain_pair_tokens(ts: Seq<Seq<char>>) -> bool {
    &&& ts.len() >= 2
    &&& forall|i: int|
        0 <= i < ts.len() ==> is_word(#[trigger] ts[i]) && is_lower_ascii(ts[i]) && !ts[i].contains(
            ',',
        )
    &&& forall|i: int| 0 <= i < ts.len() && i % 2 == 0 ==> (#[trigger] ts[i])[0] != '-'
}

/// Such tokens joined by spaces are already trimmed and lowercase, and the
/// text reads as its spaced form.
proof fn lemma_pair_text(ts: Seq<Seq<char>>)
    requires
        plain_pair_tokens(ts),
    ensures
        lower(trim(join_sp(ts))) == join_sp(ts),
        duration_value(join_sp(ts)) == spaced_from(ts, 0, 0),
{
    let s = join_sp(ts);
    let p = |c: char| (c as u32) < 128 && !(65 <= c as u32 <= 90) && c != ',';
    assert forall|i: int, j: int| 0 <= i < ts.len() && 0 <= j < ts[i].len() implies p(
        #[trigger] ts[i][j],
    ) by {
        assert(is_lower_ascii(ts[i]));
        assert(!ts[i].contains(','));
    }
    crate::text::lemma_join_sp_chars(ts, p);
    assert forall|i: int| 0 <= i < ts.len() implies (#[trigger] ts[i]).len() > 0 by {
        assert(is_word(ts[i]));
    }
    crate::text::lemma_join_sp_ends(ts);
    assert(!is_ws(s[0])) by {
        assert(is_word(ts[0]));
    }
    assert(!is_ws(s.last())) by {
        assert(is_word(ts[ts.len() - 1]));
        assert(ts.last() == ts[ts.len() - 1]);
    }
    assert(trim_start(s) == s);
    assert(trim_end(s) == s);
    assert(is_lower_ascii(s)) by {
        assert forall|k: int| 0 <= k < s.len() implies (#[trigger] s[k] as u32) < 128 && !(65
            <= s[k] as u32 <= 90) by {
            assert(p(s[k]));
        }
    }
    assert(commas_to_points(s) =~= s) by {
        assert forall|k: int| 0 <= k < s.len() implies s[k] != ',' by {
            assert(p(s[k]));
        }
    }
    assert(has_char(s, ' ')) by {
        assert(s[ts[0].len() as int] == ' ');
    }
    assert(ts[0][0] != '-');
    assert forall|i: int| 0 <= i < ts.len() implies is_word(#[trigger] ts[i]) by {}
    lemma_words_join(ts);
}

/// Reading the tokens after a prefix `p` is reading them on their own.
proof fn lemma_spaced_shift(p: Seq<Seq<char>>, q: Seq<Seq<char>>, j: int, acc: int)
    requires
        0 <= j,
    ensures
        spaced_from(p + q, p.len() + j, acc) == spaced_from(q, j, acc),
    decreases q.len() - j,
{
    if j < q.len() {
        assert((p + q)[p.len() + j] == q[j]);
        if j + 1 < q.len() {
            assert((p + q)[p.len() + j + 1] == q[j + 1]);
        }
        match number_value(q[j]) {
            Some(n) => if j + 1 < q.len() {
                let u = q[j + 1];
                if is_hour_unit(u) || is_minute_unit(u) {
                    let part = if is_hour_unit(u) {
                        num_minutes(n, 60)
                    } else {
                        num_minutes(n, 1)
                    };
                    lemma_spaced_shift(p, q, j + 2, acc + part);
                }
            },
            None => {},
        }
    }
}

/// Reading `p + q` is reading `p`, then going on with `q` from what `p`
/// gave.
proof fn lemma_spaced_prefix(p: Seq<Seq<char>>, q: Seq<Seq<char>>, i: int, acc: int)
    requires
        0 <= i <= p.len(),
        (p.len() - i) % 2 == 0,
        spaced_from(p, i, acc) is Ok,
    ensures
        spaced_from(p + q, i, acc) == spaced_from(q, 0, spaced_from(p, i, acc)->Ok_0),
    decreases p.len() - i,
{
    if i == p.len() {
        lemma_spaced_shift(p, q, 0, acc);
    } else {
        assert((p + q)[i] == p[i]);
        assert((p + q)[i + 1] == p[i + 1]);
        let n = number_value(p[i])->0;
        let u = p[i + 1];
        let part = if is_hour_unit(u) {
            num_minutes(n, 60)
        } else {
            num_minutes(n, 1)
        };
        lemma_spaced_prefix(p, q, i + 2, acc + part);
    }
}

/// The minutes the `NUMBER UNIT` pair at position `i` stands for, the
/// pair rounded on its own.
pub open spec fn pair_minutes(ts: Seq<Seq<char>>, i: int) -> int {
    let per = if is_hour_unit(ts[i + 1]) {
        60
    } else {
        1
    };
    num_minutes(number_value(ts[i])->0, per)
}

/// The tokens from `j` on come in `NUMBER UNIT` pairs: a number that
/// `number_value` reads and that does not start with `-`, then an hour or
/// minute unit.
pub open spec fn unit_pairs_from(ts: Seq<Seq<char>>, j: int) -> bool {
    &&& 0 <= j <= ts.len()
    &&& (ts.len() - j) % 2 == 0
    &&& forall|k: int|
        j <= k < ts.len() && (k - j) % 2 == 0 ==> {
            &&& (#[trigger] ts[k]).len() > 0
            &&& ts[k][0] != '-'
            &&& number_value(ts[k]) is Some
            &&& (is_hour_unit(ts[k + 1]) || is_minute_unit(ts[k + 1]))
        }
}

/// The sum of the pairs' minutes from position `j` on.
pub open spec fn pairs_total(ts: Seq<Seq<char>>, j: int) -> int
    decreases ts.len() - j,
{
    if j < 0 || j + 1 >= ts.len() {
        0
    } else {
        pair_minutes(ts, j) + pairs_total(ts, j + 2)
    }
}

/// Pairs from `j + 2` on, given pairs from `j` on.
proof fn lemma_unit_pairs_next(ts: Seq<Seq<char>>, j: int)
    requires
        unit_pairs_from(ts, j),
        j < ts.len(),
    ensures
        unit_pairs_from(ts, j + 2),
        pair_minutes(ts, j) >= 0,
{
    assert(ts[j].len() > 0 && ts[j][0] != '-' && number_value(ts[j]) is Some);
    let per = if is_hour_unit(ts[j + 1]) {
        60int
    } else {
        1int
    };
    lemma_part_nonneg(ts[j], per);
    assert forall|k: int| j + 2 <= k < ts.len() && (k - (j + 2)) % 2 == 0 implies {
        &&& (#[trigger] ts[k]).len() > 0
        &&& ts[k][0] != '-'
        &&& number_value(ts[k]) is Some
        &&& (is_hour_unit(ts[k + 1]) || is_minute_unit(ts[k + 1]))
    } by {
        assert((k - j) % 2 == 0);
    }
}

/// Pairs of numbers that are not negative add up to zero minutes or more.
proof fn lemma_pairs_total_nonneg(ts: Seq<Seq<char>>, j: int)
    requires
        unit_pairs_from(ts, j),
    ensures
        pairs_total(ts, j) >= 0,
    decreases ts.len() - j,
{
    if j < ts.len() {
        lemma_unit_pairs_next(ts, j);
        lemma_pairs_total_nonneg(ts, j + 2);
    }
}

/// Reading pairs from `j` on, starting from `acc`, succeeds with `acc` plus
/// their minutes wherever that fits in an `i32`.
proof fn lemma_pairs_read(ts: Seq<Seq<char>>, j: int, acc: int)
    requires
        unit_pairs_from(ts, j),
        i32::MIN <= acc,
        acc + pairs_total(ts, j) <= i32::MAX,
    ensures
        spaced_from(ts, j, acc) == Ok::<int, DurationFault>(acc + pairs_total(ts, j)),
    decreases ts.len() - j,
{
    if j < ts.len() {
        lemma_unit_pairs_next(ts, j);
        lemma_pairs_total_nonneg(ts, j + 2);
        lemma_pairs_read(ts, j + 2, acc + pair_minutes(ts, j));
    }
}

/// Tokens of a spaced duration as `law_spaced_durations_add` takes them:
/// `NUMBER UNIT` pairs (see `unit_pairs_from`), two tokens or more, each a
/// word of lowercase ASCII without a comma.
pub open spec fn spaced_pair_tokens(ts: Seq<Seq<char>>) -> bool {
    &&& plain_pair_tokens(ts)
    &&& unit_pairs_from(ts, 0)
}

/// Durations in the spaced form add up: a text of `NUMBER UNIT` pairs
/// separated by single spaces (lowercase, no number starting with `-`, no
/// decimal comma) reads as the sum of its pairs' minutes wherever that fits
/// in an `i32`; so two such texts joined by a space read as the sum of what
/// each reads as. This is what `parse_duration` gives, since it reads
/// `duration_value(lower(trim(..)))`.
pub proof fn law_spaced_durations_add(ta: Seq<Seq<char>>, tb: Seq<Seq<char>>)
    requires
        spaced_pair_tokens(ta),
        spaced_pair_tokens(tb),
        pairs_total(ta, 0) + pairs_total(tb, 0) <= i32::MAX,
    ensures
        duration_value(lower(trim(join_sp(ta)))) == Ok::<int, DurationFault>(pairs_total(ta, 0)),
        duration_value(lower(trim(join_sp(tb)))) == Ok::<int, DurationFault>(pairs_total(tb, 0)),
        duration_value(lower(trim(join_sp(ta) + seq![' '] + join_sp(tb)))) == Ok::<
            int,
            DurationFault,
        >(pairs_total(ta, 0) + pairs_total(tb, 0)),
{
    let x = pairs_total(ta, 0);
    let y = pairs_total(tb, 0);
    lemma_pairs_total_nonneg(ta, 0);
    lemma_pairs_total_nonneg(tb, 0);
    lemma_pair_text(ta);
    lemma_pair_text(tb);
    lemma_pairs_read(ta, 0, 0);
    lemma_pairs_read(tb, 0, 0);
    let t = ta + tb;
    assert(plain_pair_tokens(t)) by {
        assert forall|i: int| 0 <= i < t.len() implies is_word(#[trigger] t[i]) && is_lower_ascii(
            t[i],
        ) && !t[i].contains(',') by {
            if i < ta.len() {
                assert(t[i] == ta[i]);
            } else {
                assert(t[i] == tb[i - ta.len()]);
            }
        }
        assert forall|i: int| 0 <= i < t.len() && i % 2 == 0 implies (#[trigger] t[i])[0] != '-' by {
            if i < ta.len() {
                assert(t[i] == ta[i]);
            } else {
                assert(t[i] == tb[i - ta.len()]);
                assert((i - ta.len()) % 2 == 0);
            }
        }
    }
    crate::text::lemma_join_sp_concat(ta, tb);
    lemma_pair_text(t);
    lemma_spaced_prefix(ta, tb, 0, 0);
    lemma_pairs_read(tb, 0, x);
}

} // verus!
