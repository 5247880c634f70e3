//! bagg's commands: the settings it runs with, the arguments it takes, the
//! sorted list that `list`, `got` and `rm` number, and what `list` shows.
use vstd::prelude::*;
use crate::text::{chars_of, string_of, views, join_sp, join_chars, trim, trim_chars, is_ws, is_whitespace, eq_str};
use crate::num::is_digit;
use crate::lines::record_lines;
use crate::sort::stable_order;
use crate::tags::matches_spec;
use crate::bagg::{
    Item, ItemView, ItemError, PriceFormat, price_value, parse_price, read_items, sort_items,
    all_items, first_bad_line, error_matches, item_of, key_seq, line_tokens, format_ok,
};

verus! {

/// The settings a configuration file may give; each may be absent.
pub struct RawConfig {
    pub path: Option<String>,
    pub decimal_separator: Option<char>,
    pub decimal_places: Option<u32>,
    pub always_show_unspecified_price: Option<bool>,
}

/// The settings bagg runs with.
pub struct ResolvedConfig {
    pub path: String,
    pub decimal_separator: char,
    pub decimal_places: u32,
    pub always_show_unspecified_price: bool,
}

/// Why a configuration is refused.
#[derive(Debug, PartialEq, Eq)]
pub enum ConfigError {
    /// No list path was given and there is no data directory to default to.
    NoDataDir,
    /// The separator is alphanumeric, whitespace, or one of `( ) ?`.
    InvalidSeparator(char),
    /// More than nine decimal places.
    InvalidPlaces(u32),
}

/// `char::is_ascii_alphanumeric`.
pub open spec fn is_ascii_alnum(c: char) -> bool {
    is_digit(c) || (65 <= c as u32 <= 90) || (97 <= c as u32 <= 122)
}

/// A separator that no other part of an item line could be taken for.
pub open spec fn separator_ok(c: char) -> bool {
    !is_ascii_alnum(c) && !is_ws(c) && c != '(' && c != ')' && c != '?'
}

/// Settles the configuration: the list path (the configured one, else
/// `default_path`, the list file under the data directory where there is
/// one), the decimal separator (`.` by default) and places (2 by default),
/// and whether `?` is always written for an absent price (no by default).
pub fn resolve(raw: RawConfig, default_path: Option<String>) -> (r: Result<ResolvedConfig, ConfigError>)
    ensures
        ({
            let sep = match raw.decimal_separator {
                Some(c) => c,
                None => '.',
            };
            let places = match raw.decimal_places {
                Some(n) => n,
                None => 2,
            };
            match r {
                Ok(c) => {
                    &&& (raw.path is Some || default_path is Some)
                    &&& separator_ok(sep)
                    &&& places <= 9
                    &&& c.path@ == (match raw.path {
                        Some(p) => p@,
                        None => default_path->0@,
                    })
                    &&& c.decimal_separator == sep
                    &&& c.decimal_places == places
                    &&& c.always_show_unspecified_price == (match raw.always_show_unspecified_price {
                        Some(b) => b,
                        None => false,
                    })
                },
                Err(ConfigError::NoDataDir) => raw.path is None && default_path is None,
                Err(ConfigError::InvalidSeparator(c)) => (raw.path is Some || default_path is Some)
                    && c == sep && !separator_ok(sep),
                Err(ConfigError::InvalidPlaces(n)) => (raw.path is Some || default_path is Some)
                    && separator_ok(sep) && n == places && places > 9,
            }
        }),
{
    let path = match raw.path {
        Some(p) => p,
        None => match default_path {
            Some(p) => p,
            None => {
                return Err(ConfigError::NoDataDir);
            },
        },
    };
    let sep = match raw.decimal_separator {
        Some(c) => c,
        None => '.',
    };
    let u = sep as u32;
    let alnum = (u >= 48 && u <= 57) || (u >= 65 && u <= 90) || (u >= 97 && u <= 122);
    if alnum || is_whitespace(sep) || sep == '(' || sep == ')' || sep == '?' {
        return Err(ConfigError::InvalidSeparator(sep));
    }
    let places = match raw.decimal_places {
        Some(n) => n,
        None => 2,
    };
    if places > 9 {
        return Err(ConfigError::InvalidPlaces(places));
    }
    let always = match raw.always_show_unspecified_price {
        Some(b) => b,
        None => false,
    };
    Ok(
        ResolvedConfig {
            path,
            decimal_separator: sep,
            decimal_places: places,
            always_show_unspecified_price: always,
        },
    )
}

impl ResolvedConfig {
    /// The price format the configuration sets.
    pub fn price_format(&self) -> (f: PriceFormat)
        ensures
            f.separator == self.decimal_separator,
            f.places == self.decimal_places,
    {
        PriceFormat { separator: self.decimal_separator, places: self.decimal_places }
    }
}

/// A configuration that `resolve` accepts gives a price format whose
/// prices read back as written.
pub proof fn lemma_resolved_format_ok(sep: char, places: u32)
    requires
        separator_ok(sep),
        places <= 9,
    ensures
        format_ok(PriceFormat { separator: sep, places }),
{
}

/// Reads a `--price` argument under `fmt` (see `price_value`): `?` marks
/// the price as deliberately unspecified (`Some(None)`); `None` where the
/// argument is neither.
pub fn parse_price_arg(s: &str, fmt: PriceFormat) -> (r: Option<Option<i32>>)
    requires
        fmt.places <= 9,
    ensures
        s@ == "?"@ ==> r == Some(None::<i32>),
        s@ != "?"@ ==> match r {
            Some(Some(v)) => price_value(s@, fmt) == Some(v as int),
            Some(None) => false,
            None => price_value(s@, fmt) is None,
        },
{
    let v = chars_of(s);
    if eq_str(&v, "?") {
        return Some(None);
    }
    match parse_price(s, fmt) {
        Some(p) => Some(Some(p)),
        None => None,
    }
}

/// Reads a `--priority` argument: exactly one uppercase ASCII letter.
pub fn parse_priority_arg(s: &str) -> (r: Option<char>)
    ensures
        match r {
            Some(c) => s@ == seq![c] && 65 <= c as u32 <= 90,
            None => !(s@.len() == 1 && 65 <= s@[0] as u32 <= 90),
        },
{
    let v = chars_of(s);
    if v.len() == 1 && v[0] as u32 >= 65 && v[0] as u32 <= 90 {
        assert(s@ =~= seq![v[0]]);
        Some(v[0])
    } else {
        None
    }
}

/// The item and source line of each item, in order.
pub open spec fn entries(v: Seq<Item>) -> Seq<(ItemView, Seq<char>)> {
    Seq::new(v.len(), |i: int| (v[i].fields(), v[i].raw@))
}

/// The item each record line reads as, with the line.
pub open spec fn line_entries(ls: Seq<Seq<char>>, fmt: PriceFormat) -> Seq<(ItemView, Seq<char>)> {
    Seq::new(ls.len(), |i: int| (item_of(ls[i], fmt)->0, ls[i]))
}

pub open spec fn entry_keys(es: Seq<(ItemView, Seq<char>)>) -> Seq<Seq<i64>> {
    Seq::new(es.len(), |i: int| key_seq(es[i].0))
}

/// `out` is `es` sorted by key, equal keys in the order they came.
pub open spec fn sorted_entries(es: Seq<(ItemView, Seq<char>)>, out: Seq<(ItemView, Seq<char>)>) -> bool {
    exists|order: Seq<int>|
        #![trigger stable_order(entry_keys(es), order)]
        stable_order(entry_keys(es), order) && out.len() == order.len() && forall|i: int|
            0 <= i < out.len() ==> #[trigger] out[i] == es[order[i]]
}

/// All items of a list file, sorted by status, priority and price, ties
/// in file order. `got` and `rm` number items by their place here.
pub fn all_sorted(content: &str, fmt: PriceFormat) -> (r: Result<Vec<Item>, ItemError>)
    requires
        fmt.places <= 9,
    ensures
        match r {
            Ok(v) => all_items(record_lines(content@), fmt) && sorted_entries(
                line_entries(record_lines(content@), fmt),
                entries(v@),
            ),
            Err(e) => exists|k: int|
                first_bad_line(record_lines(content@), fmt, k) && error_matches(
                    e,
                    record_lines(content@)[k],
                ),
        },
        r is Ok <==> all_items(record_lines(content@), fmt),
        r matches Ok(v) ==> forall|i: int, j: int|
            0 <= i < j < v.len() ==> !crate::bagg::key_before(
                crate::bagg::sort_key_of((#[trigger] v@[j]).fields()),
                crate::bagg::sort_key_of((#[trigger] v@[i]).fields()),
            ),
        r matches Ok(v) ==> forall|i: int, j: int|
            0 <= i < j < v.len() && crate::bagg::letter_priority((#[trigger] v@[i]).fields())
                && crate::bagg::letter_priority((#[trigger] v@[j]).fields())
                ==> crate::bagg::may_follow(v@[i].fields(), v@[j].fields()),
{
    let items = read_items(content, fmt)?;
    let sorted = sort_items(&items);
    proof {
        let ls = record_lines(content@);
        assert(entries(items@) =~= line_entries(ls, fmt));
        let order = choose|order: Seq<int>|
            stable_order(crate::bagg::item_keys(items@), order) && sorted@.len() == order.len()
                && forall|i: int|
                0 <= i < sorted@.len() ==> (#[trigger] sorted@[i]).fields() == items@[order[i]].fields()
                    && sorted@[i].raw@ == items@[order[i]].raw@;
        assert(crate::bagg::item_keys(items@) =~= entry_keys(line_entries(ls, fmt)));
        assert forall|i: int| 0 <= i < entries(sorted@).len() implies #[trigger] entries(sorted@)[i]
            == line_entries(ls, fmt)[order[i]] by {
            assert(sorted@[i].fields() == items@[order[i]].fields());
        }
        assert(stable_order(entry_keys(line_entries(ls, fmt)), order));
    }
    Ok(sorted)
}

/// Why `got` or `rm` found no item.
#[derive(Debug)]
pub enum FindError {
    /// The list file holds a line that is no item.
    Read(ItemError),
    /// No item has this number.
    NoItem(usize),
}

/// The item numbered `index` (from 1) in the sorted list.
pub fn find_item(content: &str, fmt: PriceFormat, index: usize) -> (r: Result<Item, FindError>)
    requires
        fmt.places <= 9,
    ensures
        ({
            let ls = record_lines(content@);
            match r {
                Ok(it) => all_items(ls, fmt) && 1 <= index <= ls.len() && exists|
                    sorted: Seq<(ItemView, Seq<char>)>,
                |
                    #![trigger sorted_entries(line_entries(ls, fmt), sorted)]
                    sorted_entries(line_entries(ls, fmt), sorted) && sorted[index - 1] == (
                        it.fields(),
                        it.raw@,
                    ),
                Err(FindError::NoItem(n)) => all_items(ls, fmt) && n == index && !(1 <= index
                    <= ls.len()),
                Err(FindError::Read(e)) => exists|k: int|
                    first_bad_line(ls, fmt, k) && error_matches(e, ls[k]),
            }
        }),
{
    let items = match all_sorted(content, fmt) {
        Ok(v) => v,
        Err(e) => {
            return Err(FindError::Read(e));
        },
    };
    proof {
        let ls = record_lines(content@);
        let order = choose|order: Seq<int>|
            #![trigger stable_order(entry_keys(line_entries(ls, fmt)), order)]
            stable_order(entry_keys(line_entries(ls, fmt)), order) && entries(items@).len()
                == order.len() && forall|i: int|
                0 <= i < entries(items@).len() ==> #[trigger] entries(items@)[i] == line_entries(
                    ls,
                    fmt,
                )[order[i]];
        assert(items.len() == ls.len());
    }
    if index == 0 || index > items.len() {
        return Err(FindError::NoItem(index));
    }
    let it = items[index - 1].copy();
    assert(entries(items@)[index - 1] == (it.fields(), it.raw@));
    Ok(it)
}

/// One row of `list`: the item's number, its line, and whether it is got
/// (shown dimmed).
pub struct ListRow {
    pub number: usize,
    pub line: String,
    pub got: bool,
}

/// An item is shown under the filters: `pending` hides got items, `got`
/// hides the others, and the tag queries must match its name.
pub open spec fn shown(f: ItemView, pending: bool, got: bool, queries: Seq<Seq<char>>) -> bool {
    !(pending && f.got) && !(got && !f.got) && matches_spec(f.name, queries)
}

/// The rows of `list` for the sorted items `fs`: each shown item with its
/// number (its place in `fs`, from 1) and line.
pub open spec fn list_view(
    fs: Seq<ItemView>,
    pending: bool,
    got: bool,
    queries: Seq<Seq<char>>,
    fmt: PriceFormat,
    always: bool,
) -> Seq<(int, Seq<char>, bool)>
    decreases fs.len(),
{
    if fs.len() == 0 {
        seq![]
    } else {
        let prev = list_view(fs.drop_last(), pending, got, queries, fmt, always);
        let f = fs.last();
        if shown(f, pending, got, queries) {
            prev.push((fs.len() as int, join_sp(line_tokens(f, fmt, always)), f.got))
        } else {
            prev
        }
    }
}

pub open spec fn item_views(v: Seq<Item>) -> Seq<ItemView> {
    Seq::new(v.len(), |i: int| v[i].fields())
}

pub open spec fn row_views(v: Seq<ListRow>) -> Seq<(int, Seq<char>, bool)> {
    Seq::new(v.len(), |i: int| (v[i].number as int, v[i].line@, v[i].got))
}

/// The rows `list` shows for the sorted `items` (see `list_view`).
pub fn list_rows(
    items: &Vec<Item>,
    pending: bool,
    got: bool,
    tag_queries: &[String],
    fmt: PriceFormat,
    always: bool,
) -> (r: Vec<ListRow>)
    requires
        fmt.places <= 9,
    ensures
        row_views(r@) == list_view(
            item_views(items@),
            pending,
            got,
            tag_queries@.map_values(|q: String| q@),
            fmt,
            always,
        ),
{
    let ghost qs = tag_queries@.map_values(|q: String| q@);
    let ghost fs = item_views(items@);
    let mut out: Vec<ListRow> = Vec::new();
    let mut i: usize = 0;
    while i < items.len()
        invariant
            i <= items.len(),
            fmt.places <= 9,
            fs == item_views(items@),
            qs == tag_queries@.map_values(|q: String| q@),
            row_views(out@) == list_view(fs.take(i as int), pending, got, qs, fmt, always),
        decreases items.len() - i,
    {
        let it = &items[i];
        assert(fs.take(i + 1).drop_last() =~= fs.take(i as int));
        assert(fs.take(i + 1).last() == it.fields());
        let show = !(pending && it.got) && !(got && !it.got) && crate::tags::matches(it.name.as_str(), tag_queries);
        let ghost pre = row_views(out@);
        if show {
            let line = it.to_line(fmt, always);
            out.push(ListRow { number: i + 1, line, got: it.got });
            assert(row_views(out@) =~= pre.push(((i + 1) as int, line@, it.got)));
        }
        i = i + 1;
    }
    assert(fs.take(i as int) =~= fs);
    out
}

/// Why `add` refuses an item.
#[derive(Debug, PartialEq, Eq)]
pub enum AddError {
    /// The name is empty or only whitespace.
    NoName,
    /// The name holds a line break.
    Newline,
}

/// The item `add` appends: not got, with the name words joined by spaces,
/// quantity 1 unless given. Refused where the name is blank or holds a
/// `\n` or `\r`.
pub fn new_item(
    name_words: &Vec<String>,
    price: Option<i32>,
    qty: Option<u32>,
    priority: Option<char>,
) -> (r: Result<Item, AddError>)
    ensures
        ({
            let name = join_sp(name_words@.map_values(|w: String| w@));
            match r {
                Ok(it) => {
                    &&& trim(name).len() > 0
                    &&& !name.contains('\n') && !name.contains('\r')
                    &&& it.fields() == (ItemView {
                        got: false,
                        priority,
                        price: match price {
                            Some(p) => Some(p as int),
                            None => None,
                        },
                        qty: match qty {
                            Some(q) => q as int,
                            None => 1,
                        },
                        name,
                    })
                    &&& it.raw@.len() == 0
                },
                Err(AddError::NoName) => trim(name).len() == 0,
                Err(AddError::Newline) => trim(name).len() > 0 && (name.contains('\n')
                    || name.contains('\r')),
            }
        }),
{
    let ghost ws = name_words@.map_values(|w: String| w@);
    let mut parts: Vec<Vec<char>> = Vec::new();
    let mut i: usize = 0;
    while i < name_words.len()
        invariant
            i <= name_words.len(),
            ws == name_words@.map_values(|w: String| w@),
            views(parts@) == ws.take(i as int),
        decreases name_words.len() - i,
    {
        let ghost pre = views(parts@);
        parts.push(chars_of(name_words[i].as_str()));
        assert(views(parts@) =~= pre.push(ws[i as int]));
        i = i + 1;
        assert(ws.take(i as int) =~= pre.push(ws[i - 1]));
    }
    assert(ws.take(i as int) =~= ws);
    let sep = vec![' '];
    assert(sep@ =~= seq![' ']);
    let name_v = join_chars(&parts, &sep);
    let t = trim_chars(&name_v);
    if t.len() == 0 {
        return Err(AddError::NoName);
    }
    let mut k: usize = 0;
    while k < name_v.len()
        invariant
            k <= name_v.len(),
            ws == name_words@.map_values(|w: String| w@),
            name_v@ == join_sp(ws),
            trim(name_v@).len() > 0,
            forall|j: int| 0 <= j < k ==> name_v@[j] != '\n' && name_v@[j] != '\r',
        decreases name_v.len() - k,
    {
        if name_v[k] == '\n' || name_v[k] == '\r' {
            assert(name_v@.contains(name_v@[k as int]));
            return Err(AddError::Newline);
        }
        k = k + 1;
    }
    let q: u32 = match qty {
        Some(n) => n,
        None => 1,
    };
    Ok(
        Item {
            got: false,
            priority,
            price,
            qty: q,
            name: string_of(&name_v),
            raw: String::new(),
        },
    )
}

} // verus!
