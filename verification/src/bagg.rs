//! bagg: a plaintext shopping list, one item per line
//! `[x ][(A) ][PRICE ]NAME[ xQTY]`.
use vstd::prelude::*;
use crate::text::{
    chars_of, string_of, words, views, split_ws, join_sp, join_with, join_chars, split_once,
    split_once_spec, eq_str, is_ws, is_whitespace, copy_chars, slice_chars, append_chars,
    append_str, is_word, occurs_at, first_occ, lemma_first_occ_unique, lemma_words_are_words,
    lemma_join_sp_concat, lemma_words_join,
};
use crate::num::{
    is_digit, all_digits, digits_val, parse_digits, decimal, signed_decimal, zero_padded,
    push_decimal, push_signed, push_zero_padded, pow10, lemma_digits_val_decimal, lemma_decimal_len,
    lemma_decimal_len_bound, lemma_zero_padded,
};

use crate::lines::{read_lines, record_lines, string_views};
use crate::sort::{stable_order, stable_sort_order, key_views, order_view, lex_lt};

verus! {

/// The decimal shape a price is parsed/formatted with — configurable so a
/// user's own locale convention (separator character, decimal-place count)
/// is honored rather than hardcoded to `.`/2 places.
#[derive(Debug, Clone, Copy, PartialEq, Eq, Structural)]
pub struct PriceFormat {
    pub separator: char,
    pub places: u32,
}

impl Default for PriceFormat {
    fn default() -> (r: PriceFormat)
        ensures
            r == (PriceFormat { separator: '.', places: 2 }),
    {
        PriceFormat { separator: '.', places: 2 }
    }
}

/// Explicit "price unspecified" token — occupies the PRICE slot positionally
/// without being a real value, so a NAME that itself opens with a
/// PRICE-shaped token can still be told apart from a real price.
pub const UNSPECIFIED_PRICE: &'static str = "?";

/// One item, parsed from a line `[x ][(A) ][PRICE ]NAME[ xQTY]`.
///
/// - Leading `x` marks the item as got; absent means not-got.
/// - `(A)`-`(Z)` is an optional priority.
/// - `PRICE` is an optional decimal amount (e.g. `12.99`), stored in minor
///   units (cents), or the literal `?` for "unspecified".
/// - `NAME` is required free text.
/// - A trailing `xN` token (e.g. `x3`) is the desired quantity; absent means 1.
#[derive(Debug, Clone, PartialEq)]
pub struct Item {
    pub got: bool,
    pub priority: Option<char>,
    pub price: Option<i32>,
    pub qty: u32,
    pub name: String,
    /// The exact source line, so `rm`/`got` can locate it without reformatting.
    pub raw: String,
}

/// The fields of an item, as the contracts speak of them.
pub struct ItemView {
    pub got: bool,
    pub priority: Option<char>,
    pub price: Option<int>,
    pub qty: int,
    pub name: Seq<char>,
}

impl Item {
    pub open spec fn fields(&self) -> ItemView {
        ItemView {
            got: self.got,
            priority: self.priority,
            price: match self.price {
                Some(p) => Some(p as int),
                None => None,
            },
            qty: self.qty as int,
            name: self.name@,
        }
    }
}

/// A priority token: `(` then an uppercase ASCII letter then `)`.
pub open spec fn priority_of(t: Seq<char>) -> Option<char> {
    if t.len() == 3 && t[0] == '(' && t[2] == ')' && 65 <= t[1] as u32 <= 90 {
        Some(t[1])
    } else {
        None
    }
}

/// A price token under `fmt`, in minor units: with no decimal places a
/// run of digits; otherwise digits, the separator (its first occurrence),
/// then exactly `places` digits. The value must fit in an `i32`.
#[verifier::opaque]
pub open spec fn price_value(s: Seq<char>, fmt: PriceFormat) -> Option<int> {
    if fmt.places == 0 {
        if s.len() > 0 && all_digits(s) && digits_val(s) <= i32::MAX {
            Some(digits_val(s) as int)
        } else {
            None
        }
    } else {
        match split_once_spec(s, seq![fmt.separator]) {
            None => None,
            Some((w, f)) => if w.len() > 0 && all_digits(w) && f.len() == fmt.places && all_digits(
                f,
            ) && digits_val(w) <= i32::MAX && digits_val(w) * pow10(fmt.places as nat)
                + digits_val(f) <= i32::MAX {
                Some((digits_val(w) * pow10(fmt.places as nat) + digits_val(f)) as int)
            } else {
                None
            },
        }
    }
}

/// A quantity tag: `x` then digits, the number fitting in a `u32`.
pub open spec fn qty_of(t: Seq<char>) -> Option<int> {
    if t.len() >= 2 && t[0] == 'x' && all_digits(t.skip(1)) && digits_val(t.skip(1)) <= u32::MAX {
        Some(digits_val(t.skip(1)) as int)
    } else {
        None
    }
}

/// Truncating division and remainder (Rust's `/` and `%`), for `b > 0`.
pub open spec fn trunc_div(a: int, b: int) -> int {
    if a >= 0 {
        a / b
    } else {
        -((-a) / b)
    }
}

pub open spec fn trunc_rem(a: int, b: int) -> int {
    a - b * trunc_div(a, b)
}

/// `{:0width$}` of a signed number: a minus sign, then the digits padded
/// with zeros so that the whole is at least `width` characters.
pub open spec fn padded_signed(r: int, width: nat) -> Seq<char> {
    if r < 0 {
        seq!['-'] + zero_padded((-r) as nat, if width >= 1 { (width - 1) as nat } else { 0 })
    } else {
        zero_padded(r as nat, width)
    }
}

/// How a price in minor units is written under `fmt`.
pub open spec fn price_text(cents: int, fmt: PriceFormat) -> Seq<char> {
    if fmt.places == 0 {
        signed_decimal(cents)
    } else {
        let scale = pow10(fmt.places as nat) as int;
        signed_decimal(trunc_div(cents, scale)) + seq![fmt.separator] + padded_signed(
            trunc_rem(cents, scale),
            fmt.places as nat,
        )
    }
}

/// Why a line is not an item.
#[derive(Debug)]
pub enum ItemError {
    EmptyLine,
    MissingName(String),
}

/// The error that reading `line` gives where it is no item: `EmptyLine`
/// where it has no token, else `MissingName` with the line.
pub open spec fn error_matches(e: ItemError, line: Seq<char>) -> bool {
    match e {
        ItemError::EmptyLine => words(line).len() == 0,
        ItemError::MissingName(l) => words(line).len() > 0 && l@ == line,
    }
}

/// The item a line reads as under `fmt` (see `Item`): tokens are claimed
/// from the front for status, priority and price (or `?`), from the back
/// for the quantity tag; what is left, joined by single spaces, is the
/// name, which must not be empty.
pub open spec fn item_of(line: Seq<char>, fmt: PriceFormat) -> Option<ItemView> {
    item_of_tokens(words(line), fmt)
}

/// The item that a line's tokens `t0` read as (see `item_of`).
pub open spec fn item_of_tokens(t0: Seq<Seq<char>>, fmt: PriceFormat) -> Option<ItemView> {
    let got = got_of(t0);
    let t1 = drop_first_if(t0, got);
    let pr = lead_priority(t1);
    let t2 = drop_first_if(t1, pr is Some);
    let pv = lead_price(t2, fmt);
    let t3 = drop_first_if(t2, lead_unspecified(t2) || pv is Some);
    let q = trail_qty(t3);
    let t4 = if q is Some {
        t3.drop_last()
    } else {
        t3
    };
    if t4.len() == 0 {
        None
    } else {
        Some(
            ItemView {
                got,
                priority: pr,
                price: pv,
                qty: match q {
                    Some(v) => v,
                    None => 1,
                },
                name: join_sp(t4),
            },
        )
    }
}

/// The tokens open with the got mark `x`.
pub open spec fn got_of(t: Seq<Seq<char>>) -> bool {
    t.len() > 0 && t[0] == seq!['x']
}

/// `t` without its first token where `b` holds.
pub open spec fn drop_first_if(t: Seq<Seq<char>>, b: bool) -> Seq<Seq<char>> {
    if b {
        t.drop_first()
    } else {
        t
    }
}

/// The priority that the first token states, if it states one.
pub open spec fn lead_priority(t: Seq<Seq<char>>) -> Option<char> {
    if t.len() > 0 {
        priority_of(t[0])
    } else {
        None
    }
}

/// The first token is the unspecified-price mark `?`.
pub open spec fn lead_unspecified(t: Seq<Seq<char>>) -> bool {
    t.len() > 0 && t[0] == seq!['?']
}

/// The price that the first token states, if it is no `?` and reads as one.
pub open spec fn lead_price(t: Seq<Seq<char>>, fmt: PriceFormat) -> Option<int> {
    if t.len() > 0 && !lead_unspecified(t) {
        price_value(t[0], fmt)
    } else {
        None
    }
}

/// The quantity that the last token states, if it is a quantity tag.
pub open spec fn trail_qty(t: Seq<Seq<char>>) -> Option<int> {
    if t.len() > 0 {
        qty_of(t.last())
    } else {
        None
    }
}

/// Reads a priority token `(A)`..`(Z)`.
pub fn parse_priority(s: &Vec<char>) -> (r: Option<char>)
    ensures
        r == priority_of(s@),
{
    if s.len() == 3 && s[0] == '(' && s[2] == ')' && s[1] as u32 >= 65 && s[1] as u32 <= 90 {
        Some(s[1])
    } else {
        None
    }
}

fn all_digit_chars(s: &Vec<char>) -> (b: bool)
    ensures
        b == all_digits(s@),
{
    let mut i: usize = 0;
    while i < s.len()
        invariant
            i <= s.len(),
            forall|k: int| 0 <= k < i ==> is_digit(#[trigger] s@[k]),
        decreases s.len() - i,
    {
        if !(s[i] as u32 >= 48 && s[i] as u32 <= 57) {
            return false;
        }
        i = i + 1;
    }
    true
}

fn pow10_i64(n: u32) -> (r: i64)
    requires
        n <= 9,
    ensures
        r == pow10(n as nat),
        1 <= r <= 1_000_000_000,
{
    let mut r: i64 = 1;
    let mut k: u32 = 0;
    while k < n
        invariant
            k <= n <= 9,
            r == pow10(k as nat),
            1 <= r <= pow10(k as nat),
            pow10(k as nat) <= 1_000_000_000,
        decreases n - k,
    {
        proof {
            crate::time::lemma_pow10_le((k + 1) as nat);
        }
        r = r * 10;
        k = k + 1;
    }
    r
}

/// Reads a price token under `fmt` (see `price_value`).
pub fn parse_price_chars(s: &Vec<char>, fmt: PriceFormat) -> (r: Option<i32>)
    requires
        fmt.places <= 9,
    ensures
        match r {
            Some(v) => price_value(s@, fmt) == Some(v as int),
            None => price_value(s@, fmt) is None,
        },
{
    reveal(price_value);
    if fmt.places == 0 {
        return match parse_digits(s, 2147483647) {
            Some(v) => Some(v as i32),
            None => None,
        };
    }
    let mut sep = Vec::new();
    sep.push(fmt.separator);
    let sep_s = string_of(&sep);
    assert(sep_s@ =~= seq![fmt.separator]);
    let (w, f) = match split_once(s, sep_s.as_str()) {
        Some(p) => p,
        None => {
            return None;
        },
    };
    if w.len() == 0 || !all_digit_chars(&w) {
        return None;
    }
    if f.len() != fmt.places as usize || !all_digit_chars(&f) {
        return None;
    }
    let wv = match parse_digits(&w, 2147483647) {
        Some(v) => v,
        None => {
            return None;
        },
    };
    let fv = match parse_digits(&f, 2147483647) {
        Some(v) => v,
        None => {
            proof {
                crate::time::lemma_digits_bound(f@);
            }
            return None;
        },
    };
    let scale = pow10_i64(fmt.places);
    proof {
        assert((wv as int) * (scale as int) <= 2147483647 * 1_000_000_000) by (nonlinear_arith)
            requires
                wv <= 2147483647,
                1 <= scale <= 1_000_000_000,
        ;
    }
    let total: i64 = (wv as i64) * scale + (fv as i64);
    if total > 2147483647 {
        return None;
    }
    Some(total as i32)
}

/// Parses a price token in minor units (cents), per `fmt`. With
/// `places == 0` this is a bare integer; otherwise it's `\d+<sep>\d{places}`
/// — the required separator is what keeps a price token shape-distinct from
/// a bare integer. `None` also where the value would not fit in an `i32`.
pub fn parse_price(s: &str, fmt: PriceFormat) -> (r: Option<i32>)
    requires
        fmt.places <= 9,
    ensures
        match r {
            Some(v) => price_value(s@, fmt) == Some(v as int),
            None => price_value(s@, fmt) is None,
        },
{
    let v = chars_of(s);
    parse_price_chars(&v, fmt)
}

/// Writes a price given in minor units under `fmt` (e.g. `1299` as `12.99`).
pub fn format_price(cents: i32, fmt: PriceFormat) -> (r: String)
    requires
        fmt.places <= 9,
    ensures
        r@ == price_text(cents as int, fmt),
{
    let mut out: Vec<char> = Vec::new();
    push_price(&mut out, cents, fmt);
    assert(out@ =~= price_text(cents as int, fmt));
    string_of(&out)
}

fn push_price(out: &mut Vec<char>, cents: i32, fmt: PriceFormat)
    requires
        fmt.places <= 9,
    ensures
        final(out)@ == old(out)@ + price_text(cents as int, fmt),
{
    let ghost base = out@;
    if fmt.places == 0 {
        push_signed(out, cents as i64);
        return;
    }
    let scale = pow10_i64(fmt.places);
    let c = cents as i64;
    let (q, r): (i64, i64) = if c >= 0 {
        let q1 = c / scale;
        assert(0 <= scale * q1 <= c && c - scale * q1 < scale) by (nonlinear_arith)
            requires
                q1 == c / scale,
                c >= 0,
                scale >= 1,
        ;
        (q1, c - scale * q1)
    } else {
        let nc = -c;
        let q1 = nc / scale;
        assert(0 <= scale * q1 <= nc && nc - scale * q1 < scale) by (nonlinear_arith)
            requires
                q1 == nc / scale,
                nc >= 0,
                scale >= 1,
        ;
        assert(scale * (-q1) == -(scale * q1)) by (nonlinear_arith);
        (-q1, c + scale * q1)
    };
    assert(q == trunc_div(cents as int, scale as int));
    assert(r == trunc_rem(cents as int, scale as int)) by (nonlinear_arith)
        requires
            q == trunc_div(cents as int, scale as int),
            r == c - scale * q,
            c == cents,
    ;
    push_signed(out, q);
    out.push(fmt.separator);
    if r < 0 {
        out.push('-');
        push_zero_padded(out, (-r) as u64, (fmt.places - 1) as usize);
    } else {
        push_zero_padded(out, r as u64, fmt.places as usize);
    }
    assert(final(out)@ =~= base + price_text(cents as int, fmt));
}

/// Reads a quantity tag `xN`.
pub fn parse_qty_tag(s: &Vec<char>) -> (r: Option<u32>)
    ensures
        match r {
            Some(v) => qty_of(s@) == Some(v as int),
            None => qty_of(s@) is None,
        },
{
    if s.len() < 2 || s[0] != 'x' {
        return None;
    }
    let rest = slice_chars(s, 1, s.len());
    assert(rest@ =~= s@.skip(1));
    match parse_digits(&rest, 4294967295) {
        Some(v) => Some(v as u32),
        None => None,
    }
}

/// The tokens `views(toks)[start..end]`.
spec fn token_range(toks: Seq<Seq<char>>, start: int, end: int) -> Seq<Seq<char>> {
    toks.subrange(start, end)
}

/// A one-character token.
fn is_single(t: &Vec<char>, c: char) -> (b: bool)
    ensures
        b == (t@ == seq![c]),
{
    if t.len() == 1 && t[0] == c {
        assert(t@ =~= seq![c]);
        true
    } else {
        false
    }
}

/// The tokens `ws[start..end]`, copied.
fn copy_range(ws: &Vec<Vec<char>>, start: usize, end: usize) -> (r: Vec<Vec<char>>)
    requires
        start <= end <= ws.len(),
    ensures
        views(r@) == views(ws@).subrange(start as int, end as int),
{
    let mut r: Vec<Vec<char>> = Vec::new();
    let mut k: usize = start;
    while k < end
        invariant
            start <= k <= end <= ws.len(),
            views(r@) == views(ws@).subrange(start as int, k as int),
        decreases end - k,
    {
        let t = copy_chars(&ws[k]);
        let ghost pre = r@;
        r.push(t);
        assert(r@ == pre.push(t));
        assert(t@ == ws@[k as int]@);
        assert(views(r@) =~= views(pre).push(t@));
        assert(views(ws@).subrange(start as int, k + 1) =~= views(ws@).subrange(start as int, k as int).push(ws@[k as int]@));
        assert(views(r@) =~= views(ws@).subrange(start as int, k + 1));
        k = k + 1;
    }
    r
}

impl Item {
    /// Reads one line under `fmt` (see `item_of`): `EmptyLine` where the
    /// line has no token, `MissingName` (with the line) where nothing is
    /// left for the name once the other fields have taken their tokens.
    pub fn parse(line: &str, fmt: PriceFormat) -> (r: Result<Item, ItemError>)
        requires
            fmt.places <= 9,
        ensures
            match r {
                Ok(it) => item_of(line@, fmt) == Some(it.fields()) && it.raw@ == line@,
                Err(e) => item_of(line@, fmt) is None && error_matches(e, line@),
            },
            r is Err <==> item_of(line@, fmt) is None,
    {
        let v = chars_of(line);
        let toks = split_ws(&v);
        let ghost t0 = words(line@);
        assert(views(toks@) == t0);
        if toks.len() == 0 {
            return Err(ItemError::EmptyLine);
        }
        let mut start: usize = 0;
        let mut end: usize = toks.len();
        let got = is_single(&toks[0], 'x');
        assert(got == (t0[0] == seq!['x']));
        if got {
            start = 1;
        }
        let ghost t1 = t0.subrange(start as int, end as int);
        assert(t1 =~= if got { t0.drop_first() } else { t0 });
        let priority = if start < end {
            parse_priority(&toks[start])
        } else {
            None
        };
        assert(start < end ==> t1[0] == views(toks@)[start as int]);
        if priority.is_some() {
            start = start + 1;
        }
        let ghost t2 = t0.subrange(start as int, end as int);
        assert(t2 =~= if priority is Some { t1.drop_first() } else { t1 });
        let mut price: Option<i32> = None;
        let mut unspecified = false;
        if start < end {
            assert(t2[0] == views(toks@)[start as int]);
            if is_single(&toks[start], '?') {
                unspecified = true;
                start = start + 1;
            } else {
                price = parse_price_chars(&toks[start], fmt);
                if price.is_some() {
                    start = start + 1;
                }
            }
        }
        let ghost t3 = t0.subrange(start as int, end as int);
        assert(t3 =~= if unspecified || price is Some { t2.drop_first() } else { t2 });
        let qty = if start < end {
            parse_qty_tag(&toks[end - 1])
        } else {
            None
        };
        assert(start < end ==> t3.last() == views(toks@)[end - 1]);
        if qty.is_some() {
            end = end - 1;
        }
        let ghost t4 = t0.subrange(start as int, end as int);
        assert(t4 =~= if qty is Some { t3.drop_last() } else { t3 });
        if start >= end {
            return Err(ItemError::MissingName(line.to_owned()));
        }
        let name_toks = copy_range(&toks, start, end);
        let sep = vec![' '];
        let name_chars = join_chars(&name_toks, &sep);
        let name = string_of(&name_chars);
        let q: u32 = match qty {
            Some(n) => n,
            None => 1,
        };
        let it = Item { got, priority, price, qty: q, name, raw: line.to_owned() };
        assert(sep@ =~= seq![' ']);
        assert(it.name@ == join_sp(t4));
        assert(it.fields().price == lead_price(t2, fmt));
        assert(it.fields().qty == (match trail_qty(t3) { Some(v) => v, None => 1 }));
        assert(it.fields() == item_of(line@, fmt)->0);
        Ok(it)
    }
}

/// The name's first word reads as a price under `fmt`.
pub open spec fn name_collides(name: Seq<char>, fmt: PriceFormat) -> bool {
    words(name).len() > 0 && price_value(words(name)[0], fmt) is Some
}

/// The tokens of an item's storage line, in order: `x` if got, the
/// priority `(P)`, the price (or `?` where the price is absent and either
/// `always` is set or the name's first word would read as a price), the
/// name, and `xN` where the quantity is not 1.
pub open spec fn line_tokens(it: ItemView, fmt: PriceFormat, always: bool) -> Seq<Seq<char>> {
    let p0: Seq<Seq<char>> = if it.got {
        seq![seq!['x']]
    } else {
        seq![]
    };
    let p1 = match it.priority {
        Some(c) => p0.push(seq!['(', c, ')']),
        None => p0,
    };
    let p2 = match it.price {
        Some(c) => p1.push(price_text(c, fmt)),
        None => if always || name_collides(it.name, fmt) {
            p1.push(seq!['?'])
        } else {
            p1
        },
    };
    let p3 = p2.push(it.name);
    if it.qty != 1 {
        p3.push(seq!['x'] + decimal(it.qty as nat))
    } else {
        p3
    }
}

impl Item {
    /// The canonical storage line of this item: its tokens (see
    /// `line_tokens`) joined by single spaces.
    pub fn to_line(&self, fmt: PriceFormat, always_show_unspecified_price: bool) -> (r: String)
        requires
            fmt.places <= 9,
        ensures
            r@ == join_sp(line_tokens(self.fields(), fmt, always_show_unspecified_price)),
    {
        let ghost f = self.fields();
        let mut parts: Vec<Vec<char>> = Vec::new();
        if self.got {
            let t = vec!['x'];
            assert(t@ =~= seq!['x']);
            parts.push(t);
        }
        assert(views(parts@) =~= (if f.got { seq![seq!['x']] } else { Seq::<Seq<char>>::empty() }));
        let ghost p0 = views(parts@);
        match self.priority {
            Some(c) => {
                let t = vec!['(', c, ')'];
                assert(t@ =~= seq!['(', c, ')']);
                parts.push(t);
                assert(views(parts@) =~= p0.push(seq!['(', c, ')']));
            },
            None => {},
        }
        let ghost p1 = views(parts@);
        let name_v = chars_of(self.name.as_str());
        match self.price {
            Some(cents) => {
                let mut t: Vec<char> = Vec::new();
                push_price(&mut t, cents, fmt);
                assert(t@ =~= price_text(cents as int, fmt));
                parts.push(t);
                assert(views(parts@) =~= p1.push(price_text(cents as int, fmt)));
            },
            None => {
                let ws = split_ws(&name_v);
                let collide = if ws.len() > 0 {
                    assert(views(ws@)[0] == ws@[0]@);
                    parse_price_chars(&ws[0], fmt).is_some()
                } else {
                    false
                };
                assert(collide == name_collides(f.name, fmt));
                if always_show_unspecified_price || collide {
                    let t = vec!['?'];
                    assert(t@ =~= seq!['?']);
                    parts.push(t);
                    assert(views(parts@) =~= p1.push(seq!['?']));
                }
            },
        }
        let ghost p2 = views(parts@);
        parts.push(name_v);
        assert(views(parts@) =~= p2.push(f.name));
        let ghost p3 = views(parts@);
        if self.qty != 1 {
            let mut t = vec!['x'];
            push_decimal(&mut t, self.qty as u64);
            assert(t@ =~= seq!['x'] + decimal(self.qty as nat));
            parts.push(t);
            assert(views(parts@) =~= p3.push(seq!['x'] + decimal(f.qty as nat)));
        }
        assert(views(parts@) == line_tokens(f, fmt, always_show_unspecified_price));
        let sep = vec![' '];
        assert(sep@ =~= seq![' ']);
        let out = join_chars(&parts, &sep);
        string_of(&out)
    }
}

/// A price format whose separator is neither a digit nor whitespace, with
/// at most nine decimal places: what a configuration may hold.
pub open spec fn format_ok(fmt: PriceFormat) -> bool {
    fmt.places <= 9 && !is_digit(fmt.separator) && !is_ws(fmt.separator)
}

/// A price of zero or more is written as a word that opens with a digit and
/// reads back as the same price.
pub proof fn lemma_price_round_trip(c: int, fmt: PriceFormat)
    requires
        0 <= c <= i32::MAX,
        format_ok(fmt),
    ensures
        price_value(price_text(c, fmt), fmt) == Some(c),
        is_word(price_text(c, fmt)),
        is_digit(price_text(c, fmt)[0]),
{
    reveal(price_value);
    let t = price_text(c, fmt);
    if fmt.places == 0 {
        lemma_digits_val_decimal(c as nat);
        lemma_decimal_len(c as nat);
        assert(t == decimal(c as nat));
    } else {
        let scale = pow10(fmt.places as nat) as int;
        crate::time::lemma_pow10_le(fmt.places as nat);
        assert(scale >= 10) by {
            assert(pow10(fmt.places as nat) == 10 * pow10((fmt.places - 1) as nat));
            crate::time::lemma_pow10_split((fmt.places - 1) as nat);
        }
        let q = c / scale;
        let r = c % scale;
        assert(trunc_div(c, scale) == q);
        assert(trunc_rem(c, scale) == r) by (nonlinear_arith)
            requires
                q == c / scale,
                r == c % scale,
                scale > 0,
                trunc_div(c, scale) == q,
                trunc_rem(c, scale) == c - scale * trunc_div(c, scale),
        ;
        assert(0 <= q <= c) by (nonlinear_arith)
            requires
                q == c / scale,
                c >= 0,
                scale >= 1,
        ;
        let w = decimal(q as nat);
        let f = zero_padded(r as nat, fmt.places as nat);
        assert(signed_decimal(q) == w);
        assert(padded_signed(r, fmt.places as nat) == f);
        assert(t == w + seq![fmt.separator] + f);
        lemma_digits_val_decimal(q as nat);
        lemma_decimal_len(q as nat);
        lemma_decimal_len_bound(r as nat, fmt.places as nat);
        lemma_zero_padded(r as nat, fmt.places as nat);
        let i = w.len() as int;
        let pat = seq![fmt.separator];
        assert(occurs_at(t, pat, i)) by {
            assert(t.subrange(i, i + 1) =~= pat);
        }
        assert forall|j: int| 0 <= j < i implies !occurs_at(t, pat, j) by {
            assert(t[j] == w[j]);
            assert(is_digit(w[j]));
            if occurs_at(t, pat, j) {
                assert(t.subrange(j, j + 1)[0] == t[j]);
            }
        }
        assert(first_occ(t, pat, i));
        let k = choose|k: int| first_occ(t, pat, k);
        lemma_first_occ_unique(t, pat, i, k);
        assert(t.take(i) =~= w);
        assert(t.skip(i + 1) =~= f);
        assert(split_once_spec(t, pat) == Some((w, f)));
        assert(q * scale + r == c) by (nonlinear_arith)
            requires
                q == c / scale,
                r == c % scale,
                scale > 0,
        ;
        assert(is_word(t)) by {
            assert forall|j: int| 0 <= j < t.len() implies !is_ws(#[trigger] t[j]) by {
                if j < i {
                    assert(t[j] == w[j]);
                    assert(is_digit(w[j]));
                } else if j > i {
                    assert(t[j] == f[j - i - 1]);
                    assert(is_digit(f[j - i - 1]));
                }
            }
        }
        assert(t[0] == w[0]);
    }
}

/// The items whose storage line reads back as themselves: a name made of
/// whitespace-free words joined by single spaces, a priority letter `A`-`Z`,
/// a price of zero or more, a name whose last word is no quantity tag where
/// none is written after it, and, where the name's first word comes right
/// after what the line states before it, a first word that is no `?` and
/// does not read as a field that could stand there (priority, got mark).
pub open spec fn line_reads_back(it: ItemView, fmt: PriceFormat, always: bool) -> bool {
    let ws = words(it.name);
    &&& ws.len() > 0
    &&& join_sp(ws) == it.name
    &&& (it.priority matches Some(c) ==> 65 <= c as u32 <= 90)
    &&& (it.price matches Some(c) ==> 0 <= c <= i32::MAX)
    &&& 0 <= it.qty <= u32::MAX
    &&& (it.qty == 1 ==> qty_of(ws.last()) is None)
    &&& (it.price is None && !always && !name_collides(it.name, fmt) ==> ws[0] != seq!['?'] && (
    it.priority is None ==> priority_of(ws[0]) is None && (!it.got ==> ws[0] != seq!['x'])))
}

/// A quantity tag reads back as its number.
proof fn lemma_qty_tag(n: nat)
    requires
        n <= u32::MAX,
    ensures
        qty_of(seq!['x'] + decimal(n)) == Some(n as int),
        is_word(seq!['x'] + decimal(n)),
{
    let t = seq!['x'] + decimal(n);
    lemma_digits_val_decimal(n);
    lemma_decimal_len(n);
    assert(t.skip(1) =~= decimal(n));
    assert forall|j: int| 0 <= j < t.len() implies !is_ws(#[trigger] t[j]) by {
        if j > 0 {
            assert(t[j] == decimal(n)[j - 1]);
        }
    }
}

/// The tokens a storage line splits into: `line_tokens` with the name
/// spread out into its words.
pub open spec fn token_list(f: ItemView, fmt: PriceFormat, always: bool) -> Seq<Seq<char>> {
    let a: Seq<Seq<char>> = if f.got {
        seq![seq!['x']]
    } else {
        seq![]
    };
    a + prio_part(f) + price_part(f, fmt, always) + words(f.name) + qty_part(f)
}

/// The storage line of an item splits into `token_list`.
proof fn lemma_line_words(f: ItemView, fmt: PriceFormat, always: bool)
    requires
        format_ok(fmt),
        line_reads_back(f, fmt, always),
    ensures
        words(join_sp(line_tokens(f, fmt, always))) == token_list(f, fmt, always),
{
    let ws = words(f.name);
    lemma_words_are_words(f.name);
    let a: Seq<Seq<char>> = if f.got {
        seq![seq!['x']]
    } else {
        seq![]
    };
    let b: Seq<Seq<char>> = match f.priority {
        Some(c) => seq![seq!['(', c, ')']],
        None => seq![],
    };
    let c: Seq<Seq<char>> = match f.price {
        Some(v) => seq![price_text(v, fmt)],
        None => if always || name_collides(f.name, fmt) {
            seq![seq!['?']]
        } else {
            seq![]
        },
    };
    let tag = seq!['x'] + decimal(f.qty as nat);
    let e: Seq<Seq<char>> = if f.qty != 1 {
        seq![tag]
    } else {
        seq![]
    };
    let p2 = a + b + c;
    let t = token_list(f, fmt, always);
    assert(t == p2 + ws + e);
    let lt = line_tokens(f, fmt, always);
    assert(lt =~= if f.qty != 1 { p2.push(f.name).push(tag) } else { p2.push(f.name) });
    assert(join_sp(p2.push(f.name)) == join_sp(p2 + ws)) by {
        if p2.len() == 0 {
            assert(p2.push(f.name) =~= seq![f.name]);
            assert(p2 + ws =~= ws);
        } else {
            assert(p2.push(f.name).drop_last() =~= p2);
            lemma_join_sp_concat(p2, ws);
        }
    }
    assert(join_sp(lt) == join_sp(t)) by {
        if f.qty != 1 {
            assert(p2.push(f.name).push(tag).drop_last() =~= p2.push(f.name));
            assert((p2 + ws).push(tag) =~= t);
            assert(t.drop_last() =~= p2 + ws);
        } else {
            assert(t =~= p2 + ws);
        }
    }
    if let Some(v) = f.price {
        lemma_price_round_trip(v, fmt);
    }
    if f.qty != 1 {
        lemma_qty_tag(f.qty as nat);
    }
    assert forall|i: int| 0 <= i < t.len() implies is_word(#[trigger] t[i]) by {
        if i < a.len() {
            assert(t[i] == a[i]);
        } else if i < a.len() + b.len() {
            assert(t[i] == b[i - a.len()]);
            let pt = seq!['(', f.priority->0, ')'];
            assert(is_word(pt)) by {
                assert forall|j: int| 0 <= j < 3 implies !is_ws(#[trigger] pt[j]) by {}
            }
        } else if i < p2.len() {
            assert(t[i] == c[i - a.len() - b.len()]);
        } else if i < p2.len() + ws.len() {
            assert(t[i] == ws[i - p2.len()]);
        } else {
            assert(t[i] == e[i - p2.len() - ws.len()]);
        }
    }
    lemma_words_join(t);
}

/// The priority token of an item's line, if it has a priority.
pub open spec fn prio_part(f: ItemView) -> Seq<Seq<char>> {
    match f.priority {
        Some(c) => seq![seq!['(', c, ')']],
        None => seq![],
    }
}

/// The price token of an item's line: its price, or `?` where it is written.
pub open spec fn price_part(f: ItemView, fmt: PriceFormat, always: bool) -> Seq<Seq<char>> {
    match f.price {
        Some(v) => seq![price_text(v, fmt)],
        None => if always || name_collides(f.name, fmt) {
            seq![seq!['?']]
        } else {
            seq![]
        },
    }
}

/// The quantity tag of an item's line, where the quantity is not 1.
pub open spec fn qty_part(f: ItemView) -> Seq<Seq<char>> {
    if f.qty != 1 {
        seq![seq!['x'] + decimal(f.qty as nat)]
    } else {
        seq![]
    }
}

proof fn lemma_stage_got(f: ItemView, fmt: PriceFormat, always: bool)
    requires
        format_ok(fmt),
        line_reads_back(f, fmt, always),
    ensures
        got_of(token_list(f, fmt, always)) == f.got,
        drop_first_if(token_list(f, fmt, always), f.got) == prio_part(f) + price_part(f, fmt, always)
            + words(f.name) + qty_part(f),
{
    let t0 = token_list(f, fmt, always);
    let rest = prio_part(f) + price_part(f, fmt, always) + words(f.name) + qty_part(f);
    if f.got {
        assert(t0 =~= seq![seq!['x']] + rest);
        assert(t0.drop_first() =~= rest);
    } else {
        assert(t0 =~= rest);
        if let Some(c) = f.priority {
            assert(t0[0] == seq!['(', c, ')']);
            assert(t0[0].len() == 3);
        } else if let Some(v) = f.price {
            lemma_price_round_trip(v, fmt);
            assert(t0[0] == price_text(v, fmt));
            assert(t0[0][0] != 'x');
        } else if always || name_collides(f.name, fmt) {
            assert(t0[0] == seq!['?']);
            assert(t0[0][0] != 'x');
        } else {
            assert(t0[0] == words(f.name)[0]);
        }
    }
}

proof fn lemma_stage_priority(f: ItemView, fmt: PriceFormat, always: bool)
    requires
        format_ok(fmt),
        line_reads_back(f, fmt, always),
    ensures
        ({
            let t1 = prio_part(f) + price_part(f, fmt, always) + words(f.name) + qty_part(f);
            &&& lead_priority(t1) == f.priority
            &&& drop_first_if(t1, f.priority is Some) == price_part(f, fmt, always) + words(f.name)
                + qty_part(f)
        }),
{
    let rest = price_part(f, fmt, always) + words(f.name) + qty_part(f);
    let t1 = prio_part(f) + rest;
    assert(t1 =~= prio_part(f) + price_part(f, fmt, always) + words(f.name) + qty_part(f));
    if let Some(c) = f.priority {
        assert(t1[0] == seq!['(', c, ')']);
        assert(t1.drop_first() =~= rest);
    } else {
        assert(t1 =~= rest);
        if let Some(v) = f.price {
            lemma_price_round_trip(v, fmt);
            assert(t1[0] == price_text(v, fmt));
        }
    }
}

proof fn lemma_stage_price(f: ItemView, fmt: PriceFormat, always: bool)
    requires
        format_ok(fmt),
        line_reads_back(f, fmt, always),
    ensures
        ({
            let t2 = price_part(f, fmt, always) + words(f.name) + qty_part(f);
            &&& lead_price(t2, fmt) == f.price
            &&& drop_first_if(t2, lead_unspecified(t2) || f.price is Some) == words(f.name) + qty_part(
                f,
            )
        }),
{
    let rest = words(f.name) + qty_part(f);
    let t2 = price_part(f, fmt, always) + rest;
    assert(t2 =~= price_part(f, fmt, always) + words(f.name) + qty_part(f));
    if let Some(v) = f.price {
        lemma_price_round_trip(v, fmt);
        assert(t2[0] == price_text(v, fmt));
        assert(t2[0][0] != '?');
        assert(t2.drop_first() =~= rest);
    } else if always || name_collides(f.name, fmt) {
        assert(t2[0] == seq!['?']);
        assert(t2.drop_first() =~= rest);
    } else {
        assert(t2 =~= rest);
        assert(t2[0] == words(f.name)[0]);
    }
}

proof fn lemma_stage_qty(f: ItemView)
    requires
        words(f.name).len() > 0,
        0 <= f.qty <= u32::MAX,
        f.qty == 1 ==> qty_of(words(f.name).last()) is None,
    ensures
        ({
            let t3 = words(f.name) + qty_part(f);
            &&& trail_qty(t3) == (if f.qty != 1 {
                Some(f.qty)
            } else {
                None::<int>
            })
            &&& (if trail_qty(t3) is Some {
                t3.drop_last()
            } else {
                t3
            }) == words(f.name)
        }),
{
    let ws = words(f.name);
    let t3 = ws + qty_part(f);
    if f.qty != 1 {
        lemma_qty_tag(f.qty as nat);
        assert(t3.last() == seq!['x'] + decimal(f.qty as nat));
        assert(t3.drop_last() =~= ws);
    } else {
        assert(t3 =~= ws);
    }
}

/// The tokens of a storage line read back as the item.
proof fn lemma_read_tokens(f: ItemView, fmt: PriceFormat, always: bool)
    requires
        format_ok(fmt),
        line_reads_back(f, fmt, always),
    ensures
        item_of_tokens(token_list(f, fmt, always), fmt) == Some(f),
{
    lemma_stage_got(f, fmt, always);
    lemma_stage_priority(f, fmt, always);
    lemma_stage_price(f, fmt, always);
    lemma_stage_qty(f);
}

/// Writing an item as its storage line (`Item::to_line`) and reading the
/// line back (`Item::parse`) gives the same item, for every item whose
/// line can tell its fields apart (see `line_reads_back`).
pub proof fn law_line_round_trip(it: Item, fmt: PriceFormat, always: bool)
    requires
        format_ok(fmt),
        line_reads_back(it.fields(), fmt, always),
    ensures
        item_of(join_sp(line_tokens(it.fields(), fmt, always)), fmt) == Some(it.fields()),
{
    lemma_line_words(it.fields(), fmt, always);
    lemma_read_tokens(it.fields(), fmt, always);
}

/// The order in which items are listed: not got before got, then priority
/// (the low byte of the letter's code; none last), then price (none last).
pub open spec fn sort_key_of(f: ItemView) -> (int, int, int) {
    (
        if f.got {
            1
        } else {
            0
        },
        match f.priority {
            Some(p) => (p as u32 % 256) as int,
            None => 255,
        },
        match f.price {
            Some(p) => p,
            None => i32::MAX as int,
        },
    )
}

/// `sort_key_of` as a sequence, compared lexicographically.
pub open spec fn key_seq(f: ItemView) -> Seq<i64> {
    let k = sort_key_of(f);
    seq![k.0 as i64, k.1 as i64, k.2 as i64]
}

impl Item {
    /// Sort key: not-got before got, then priority A..Z (none last), then
    /// price cheap-first (none last).
    pub fn sort_key(&self) -> (r: (u8, u8, i32))
        ensures
            (r.0 as int, r.1 as int, r.2 as int) == sort_key_of(self.fields()),
    {
        let status: u8 = if self.got {
            1
        } else {
            0
        };
        let priority: u8 = match self.priority {
            Some(p) => (p as u32 % 256) as u8,
            None => 255,
        };
        let price: i32 = match self.price {
            Some(p) => p,
            None => i32::MAX,
        };
        (status, priority, price)
    }

    /// A copy of this item.
    pub fn copy(&self) -> (r: Item)
        ensures
            r.fields() == self.fields(),
            r.raw@ == self.raw@,
    {
        Item {
            got: self.got,
            priority: self.priority,
            price: self.price,
            qty: self.qty,
            name: self.name.clone(),
            raw: self.raw.clone(),
        }
    }
}

/// Every line reads as an item.
pub open spec fn all_items(ls: Seq<Seq<char>>, fmt: PriceFormat) -> bool {
    forall|i: int| 0 <= i < ls.len() ==> (#[trigger] item_of(ls[i], fmt)) is Some
}

/// Line `k` is the first that reads as no item.
pub open spec fn first_bad_line(ls: Seq<Seq<char>>, fmt: PriceFormat, k: int) -> bool {
    &&& 0 <= k < ls.len()
    &&& item_of(ls[k], fmt) is None
    &&& forall|j: int| 0 <= j < k ==> (#[trigger] item_of(ls[j], fmt)) is Some
}

/// What reading the records `ls` gives: each line's item where all read,
/// else the error of the first line that does not.
pub open spec fn read_outcome(ls: Seq<Seq<char>>, fmt: PriceFormat, r: Result<Vec<Item>, ItemError>) -> bool {
    match r {
        Ok(v) => all_items(ls, fmt) && v.len() == ls.len() && forall|i: int|
            0 <= i < v.len() ==> item_of(ls[i], fmt) == Some((#[trigger] v@[i]).fields()) && v@[i].raw@
                == ls[i],
        Err(e) => exists|k: int| first_bad_line(ls, fmt, k) && error_matches(e, ls[k]),
    }
}

/// Reads every nonblank line of a list file's text as an item, failing on
/// the first line that is no item.
pub fn read_items(content: &str, fmt: PriceFormat) -> (r: Result<Vec<Item>, ItemError>)
    requires
        fmt.places <= 9,
    ensures
        read_outcome(record_lines(content@), fmt, r),
        r is Ok <==> all_items(record_lines(content@), fmt),
{
    let lines = read_lines(content);
    let ghost ls = record_lines(content@);
    let mut out: Vec<Item> = Vec::new();
    let mut i: usize = 0;
    while i < lines.len()
        invariant
            i <= lines.len(),
            string_views(lines@) == ls,
            ls == record_lines(content@),
            fmt.places <= 9,
            out.len() == i,
            forall|j: int| 0 <= j < i ==> (#[trigger] item_of(ls[j], fmt)) is Some,
            forall|j: int|
                0 <= j < i ==> item_of(ls[j], fmt) == Some((#[trigger] out@[j]).fields())
                    && out@[j].raw@ == ls[j],
        decreases lines.len() - i,
    {
        assert(lines[i as int]@ == ls[i as int]);
        match Item::parse(lines[i].as_str(), fmt) {
            Ok(it) => {
                out.push(it);
            },
            Err(e) => {
                assert(first_bad_line(ls, fmt, i as int));
                assert(error_matches(e, ls[i as int]));
                assert(!all_items(ls, fmt)) by {
                    assert(item_of(ls[i as int], fmt) is None);
                }
                return Err(e);
            },
        }
        i = i + 1;
    }
    Ok(out)
}

/// The sort keys of items, as sequences.
pub open spec fn item_keys(v: Seq<Item>) -> Seq<Seq<i64>> {
    Seq::new(v.len(), |i: int| key_seq(v[i].fields()))
}

/// `sorted` holds the items of `v` in the order `order`, which sorts them
/// by key, ties in the order they came.
pub open spec fn sorted_as(v: Seq<Item>, sorted: Seq<Item>) -> bool {
    exists|order: Seq<int>|
        #![trigger stable_order(item_keys(v), order)]
        stable_order(item_keys(v), order) && sorted.len() == order.len() && forall|i: int|
            0 <= i < sorted.len() ==> (#[trigger] sorted[i]).fields() == v[order[i]].fields()
                && sorted[i].raw@ == v[order[i]].raw@
}

/// `a` comes strictly before `b` in the order of `(u8, u8, i32)` tuples:
/// by the first member, then the second, then the third.
pub open spec fn key_before(a: (int, int, int), b: (int, int, int)) -> bool {
    a.0 < b.0 || (a.0 == b.0 && (a.1 < b.1 || (a.1 == b.1 && a.2 < b.2)))
}

/// Its priority, if any, is an uppercase ASCII letter (as `Item::parse`
/// reads it).
pub open spec fn letter_priority(f: ItemView) -> bool {
    f.priority matches Some(p) ==> 65 <= p as u32 <= 90
}

/// `b` may be listed after `a`: a got item comes after the items not got;
/// among items of one status, priorities run A to Z and items with none
/// come last; among items of one status and priority, prices run cheap
/// first and items with none come last (level with a price of `i32::MAX`).
pub open spec fn may_follow(a: ItemView, b: ItemView) -> bool {
    &&& (a.got ==> b.got)
    &&& (a.got == b.got && a.priority is None ==> b.priority is None)
    &&& (a.got == b.got && a.priority is Some && b.priority is Some ==> a.priority->0 as u32
        <= b.priority->0 as u32)
    &&& (a.got == b.got && a.priority == b.priority && a.price is Some && b.price is Some
        ==> a.price->0 <= b.price->0)
    &&& (a.got == b.got && a.priority == b.priority && a.price is None ==> b.price is None || b.price
        == Some(i32::MAX as int))
}

/// Comparing the key sequences is comparing the `sort_key` tuples.
proof fn lemma_key_seq_order(a: Item, b: Item)
    ensures
        lex_lt(key_seq(a.fields()), key_seq(b.fields())) == key_before(
            sort_key_of(a.fields()),
            sort_key_of(b.fields()),
        ),
{
    let ka = key_seq(a.fields());
    let kb = key_seq(b.fields());
    assert(ka.drop_first() =~= seq![ka[1], ka[2]]);
    assert(kb.drop_first() =~= seq![kb[1], kb[2]]);
    assert(ka.drop_first().drop_first() =~= seq![ka[2]]);
    assert(kb.drop_first().drop_first() =~= seq![kb[2]]);
    assert(ka.drop_first().drop_first().drop_first() =~= Seq::<i64>::empty());
    assert(kb.drop_first().drop_first().drop_first() =~= Seq::<i64>::empty());
    reveal_with_fuel(lex_lt, 4);
}

/// Items in the order of their `sort_key` tuples, with letter priorities,
/// are in list order (see `may_follow`).
proof fn lemma_key_order_follows(a: Item, b: Item)
    requires
        !key_before(sort_key_of(b.fields()), sort_key_of(a.fields())),
        letter_priority(a.fields()),
        letter_priority(b.fields()),
    ensures
        may_follow(a.fields(), b.fields()),
{
}

/// A sort of items lists them in the order of `Item::sort_key` (as
/// tuples): no item's key comes before that of an item listed ahead of
/// it. For items with letter priorities this is list order: not got
/// first, then priority A to Z with none last, then price cheap first
/// (see `may_follow`).
pub proof fn law_items_sorted_by_key(v: Seq<Item>, r: Seq<Item>)
    requires
        sorted_as(v, r),
    ensures
        forall|i: int, j: int|
            0 <= i < j < r.len() ==> !key_before(
                sort_key_of((#[trigger] r[j]).fields()),
                sort_key_of((#[trigger] r[i]).fields()),
            ),
        forall|i: int, j: int|
            0 <= i < j < r.len() && letter_priority((#[trigger] r[i]).fields()) && letter_priority(
                (#[trigger] r[j]).fields(),
            ) ==> may_follow(r[i].fields(), r[j].fields()),
{
    let order = choose|order: Seq<int>|
        #![trigger stable_order(item_keys(v), order)]
        stable_order(item_keys(v), order) && r.len() == order.len() && forall|i: int|
            0 <= i < r.len() ==> (#[trigger] r[i]).fields() == v[order[i]].fields() && r[i].raw@
                == v[order[i]].raw@;
    let keys = item_keys(v);
    assert forall|i: int, j: int| 0 <= i < j < r.len() implies !key_before(
        sort_key_of((#[trigger] r[j]).fields()),
        sort_key_of((#[trigger] r[i]).fields()),
    ) by {
        assert(r[i].fields() == v[order[i]].fields());
        assert(r[j].fields() == v[order[j]].fields());
        assert(!lex_lt(keys[order[j]], keys[order[i]]));
        lemma_key_seq_order(r[j], r[i]);
    }
    assert forall|i: int, j: int|
        0 <= i < j < r.len() && letter_priority((#[trigger] r[i]).fields()) && letter_priority(
            (#[trigger] r[j]).fields(),
        ) implies may_follow(r[i].fields(), r[j].fields()) by {
        lemma_key_order_follows(r[i], r[j]);
    }
}

/// `v` sorted by `Item::sort_key`, stably.
pub fn sort_items(v: &Vec<Item>) -> (r: Vec<Item>)
    ensures
        sorted_as(v@, r@),
        forall|i: int, j: int|
            0 <= i < j < r.len() ==> !key_before(
                sort_key_of((#[trigger] r@[j]).fields()),
                sort_key_of((#[trigger] r@[i]).fields()),
            ),
        forall|i: int, j: int|
            0 <= i < j < r.len() && letter_priority((#[trigger] r@[i]).fields()) && letter_priority(
                (#[trigger] r@[j]).fields(),
            ) ==> may_follow(r@[i].fields(), r@[j].fields()),
{
    let mut keys: Vec<Vec<i64>> = Vec::new();
    let mut i: usize = 0;
    while i < v.len()
        invariant
            i <= v.len(),
            key_views(keys@) == item_keys(v@).take(i as int),
        decreases v.len() - i,
    {
        let (a, b, c) = v[i].sort_key();
        let k = vec![a as i64, b as i64, c as i64];
        assert(k@ =~= key_seq(v@[i as int].fields()));
        let ghost pre = key_views(keys@);
        keys.push(k);
        assert(key_views(keys@) =~= pre.push(k@));
        i = i + 1;
        assert(key_views(keys@) =~= item_keys(v@).take(i as int));
    }
    assert(item_keys(v@).take(i as int) =~= item_keys(v@));
    let order = stable_sort_order(&keys);
    let ghost ov = order_view(order@);
    let mut out: Vec<Item> = Vec::new();
    let mut j: usize = 0;
    while j < order.len()
        invariant
            j <= order.len(),
            ov == order_view(order@),
            stable_order(item_keys(v@), ov),
            out.len() == j,
            forall|a: int|
                0 <= a < j ==> (#[trigger] out@[a]).fields() == v@[ov[a]].fields() && out@[a].raw@
                    == v@[ov[a]].raw@,
        decreases order.len() - j,
    {
        let o = order[j];
        assert(0 <= ov[j as int] < v.len());
        out.push(v[o].copy());
        j = j + 1;
    }
    assert(sorted_as(v@, out@));
    proof {
        law_items_sorted_by_key(v@, out@);
    }
    out
}

} // verus!
