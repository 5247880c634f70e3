//! holler's commands: the sorted contact list that `list` and `rm` number,
//! the rows `list` shows, and the answer to a `phone`/`email` lookup.
use vstd::prelude::*;
use crate::text::{
    chars_of, string_of, views, join_sp, join_chars, lowercase_of, to_lowercase, contains_pat,
    find_first, append_chars, append_str, text_lt, occurs_at,
};
use crate::tags::matches_spec;
use crate::lines::{read_lines, record_lines, string_views};
use crate::sort::{stable_order, stable_sort_order, key_views, order_view, lex_lt};
use crate::holler::{Contact, ContactView, ContactError, contact_of, contact_tokens};

verus! {

/// Every line reads as a contact.
pub open spec fn all_contacts(ls: Seq<Seq<char>>) -> bool {
    forall|i: int| 0 <= i < ls.len() ==> (#[trigger] contact_of(ls[i])) is Some
}

/// Line `k` is the first that reads as no contact.
pub open spec fn first_bad_line(ls: Seq<Seq<char>>, k: int) -> bool {
    &&& 0 <= k < ls.len()
    &&& contact_of(ls[k]) is None
    &&& forall|j: int| 0 <= j < k ==> (#[trigger] contact_of(ls[j])) is Some
}

/// The contact and source line of each contact, in order.
pub open spec fn entries(v: Seq<Contact>) -> Seq<(ContactView, Seq<char>)> {
    Seq::new(v.len(), |i: int| (v[i].fields(), v[i].raw@))
}

/// The contact each record line reads as, with the line.
pub open spec fn line_entries(ls: Seq<Seq<char>>) -> Seq<(ContactView, Seq<char>)> {
    Seq::new(ls.len(), |i: int| (contact_of(ls[i])->0, ls[i]))
}

/// Reads every nonblank line of a contacts file's text, failing on the
/// first line that is no contact (with that line).
pub fn read_contacts(content: &str) -> (r: Result<Vec<Contact>, ContactError>)
    ensures
        ({
            let ls = record_lines(content@);
            match r {
                Ok(v) => all_contacts(ls) && entries(v@) == line_entries(ls),
                Err(ContactError::MissingName(l)) => exists|k: int|
                    first_bad_line(ls, k) && l@ == ls[k],
            }
        }),
        r is Ok <==> all_contacts(record_lines(content@)),
{
    let lines = read_lines(content);
    let ghost ls = record_lines(content@);
    let mut out: Vec<Contact> = Vec::new();
    let mut i: usize = 0;
    while i < lines.len()
        invariant
            i <= lines.len(),
            string_views(lines@) == ls,
            ls == record_lines(content@),
            out.len() == i,
            forall|j: int| 0 <= j < i ==> (#[trigger] contact_of(ls[j])) is Some,
            forall|j: int|
                0 <= j < i ==> contact_of(ls[j]) == Some((#[trigger] out@[j]).fields())
                    && out@[j].raw@ == ls[j],
        decreases lines.len() - i,
    {
        assert(lines[i as int]@ == ls[i as int]);
        match Contact::parse(lines[i].as_str()) {
            Ok(c) => {
                out.push(c);
            },
            Err(e) => {
                assert(first_bad_line(ls, i as int));
                assert(!all_contacts(ls)) by {
                    assert(contact_of(ls[i as int]) is None);
                }
                return Err(e);
            },
        }
        i = i + 1;
    }
    assert(entries(out@) =~= line_entries(ls));
    Ok(out)
}

/// A contact's sort key: the character codes of its name in lowercase,
/// compared lexicographically (the order of `String`, since UTF-8 keeps
/// the order of code points).
pub open spec fn contact_key(c: ContactView) -> Seq<i64> {
    Seq::new(lowercase_of(c.name).len(), |i: int| lowercase_of(c.name)[i] as u32 as i64)
}

pub open spec fn entry_keys(es: Seq<(ContactView, Seq<char>)>) -> Seq<Seq<i64>> {
    Seq::new(es.len(), |i: int| contact_key(es[i].0))
}

/// `out` is `es` sorted by key, equal keys in the order they came.
pub open spec fn sorted_entries(es: Seq<(ContactView, Seq<char>)>, out: Seq<(ContactView, Seq<char>)>) -> bool {
    exists|order: Seq<int>|
        #![trigger stable_order(entry_keys(es), order)]
        stable_order(entry_keys(es), order) && out.len() == order.len() && forall|i: int|
            0 <= i < out.len() ==> #[trigger] out[i] == es[order[i]]
}

/// `v` sorted by `Contact::sort_key`, stably.
pub fn sort_contacts(v: &Vec<Contact>) -> (r: Vec<Contact>)
    ensures
        sorted_entries(entries(v@), entries(r@)),
        forall|i: int, j: int|
            0 <= i < j < r.len() ==> !text_lt(
                lowercase_of(#[trigger] r@[j].name@),
                lowercase_of(#[trigger] r@[i].name@),
            ),
{
    let ghost es = entries(v@);
    let mut keys: Vec<Vec<i64>> = Vec::new();
    let mut i: usize = 0;
    while i < v.len()
        invariant
            i <= v.len(),
            es == entries(v@),
            key_views(keys@) == entry_keys(es).take(i as int),
        decreases v.len() - i,
    {
        let low = v[i].sort_key();
        let lc = chars_of(low.as_str());
        let mut k: Vec<i64> = Vec::new();
        let mut j: usize = 0;
        while j < lc.len()
            invariant
                j <= lc.len(),
                k@ == Seq::new(j as nat, |m: int| lc@[m] as u32 as i64),
            decreases lc.len() - j,
        {
            k.push(lc[j] as u32 as i64);
            j = j + 1;
            assert(k@ =~= Seq::new(j as nat, |m: int| lc@[m] as u32 as i64));
        }
        assert(k@ =~= contact_key(es[i as int].0));
        let ghost pre = key_views(keys@);
        keys.push(k);
        assert(key_views(keys@) =~= pre.push(contact_key(es[i as int].0)));
        i = i + 1;
        assert(key_views(keys@) =~= entry_keys(es).take(i as int));
    }
    assert(entry_keys(es).take(i as int) =~= entry_keys(es));
    let order = stable_sort_order(&keys);
    let ghost ov = order_view(order@);
    let mut out: Vec<Contact> = Vec::new();
    let mut j: usize = 0;
    while j < order.len()
        invariant
            j <= order.len(),
            ov == order_view(order@),
            es == entries(v@),
            stable_order(entry_keys(es), ov),
            out.len() == j,
            forall|a: int| 0 <= a < j ==> #[trigger] entries(out@)[a] == es[ov[a]],
        decreases order.len() - j,
    {
        let o = order[j];
        assert(0 <= ov[j as int] < v.len());
        let c = v[o].copy();
        let ghost pre = out@;
        out.push(c);
        assert forall|a: int| 0 <= a < j + 1 implies #[trigger] entries(out@)[a] == es[ov[a]] by {
            if a < j {
                assert(entries(out@)[a] == entries(pre)[a]);
            }
        }
        j = j + 1;
    }
    assert(sorted_entries(es, entries(out@)));
    proof {
        law_contacts_sorted_by_lowercase_name(es, entries(out@));
        assert forall|i: int, j: int| 0 <= i < j < out.len() implies !text_lt(
            lowercase_of(#[trigger] out@[j].name@),
            lowercase_of(#[trigger] out@[i].name@),
        ) by {
            assert(entries(out@)[i].0.name == out@[i].name@);
            assert(entries(out@)[j].0.name == out@[j].name@);
        }
    }
    out
}

/// The character codes of a text, compared as a key.
pub open spec fn char_codes(s: Seq<char>) -> Seq<i64> {
    Seq::new(s.len(), |i: int| s[i] as u32 as i64)
}

/// Comparing texts by their character codes is the order of `str`.
proof fn lemma_char_codes_order(a: Seq<char>, b: Seq<char>)
    ensures
        lex_lt(char_codes(a), char_codes(b)) == text_lt(a, b),
    decreases a.len(),
{
    if a.len() > 0 && b.len() > 0 {
        assert(char_codes(a).drop_first() =~= char_codes(a.drop_first()));
        assert(char_codes(b).drop_first() =~= char_codes(b.drop_first()));
        lemma_char_codes_order(a.drop_first(), b.drop_first());
    }
}

/// The contacts a sort gives are in order of their names in lowercase
/// (`str::to_lowercase`): no contact's lowercased name comes, in the order
/// of `str`, before that of a contact listed ahead of it.
pub proof fn law_contacts_sorted_by_lowercase_name(
    es: Seq<(ContactView, Seq<char>)>,
    out: Seq<(ContactView, Seq<char>)>,
)
    requires
        sorted_entries(es, out),
    ensures
        forall|i: int, j: int|
            0 <= i < j < out.len() ==> !text_lt(
                lowercase_of((#[trigger] out[j]).0.name),
                lowercase_of((#[trigger] out[i]).0.name),
            ),
{
    let order = choose|order: Seq<int>|
        #![trigger stable_order(entry_keys(es), order)]
        stable_order(entry_keys(es), order) && out.len() == order.len() && forall|i: int|
            0 <= i < out.len() ==> #[trigger] out[i] == es[order[i]];
    let keys = entry_keys(es);
    assert forall|i: int, j: int| 0 <= i < j < out.len() implies !text_lt(
        lowercase_of((#[trigger] out[j]).0.name),
        lowercase_of((#[trigger] out[i]).0.name),
    ) by {
        assert(out[i] == es[order[i]]);
        assert(out[j] == es[order[j]]);
        assert(!lex_lt(keys[order[j]], keys[order[i]]));
        assert(keys[order[j]] =~= char_codes(lowercase_of(out[j].0.name)));
        assert(keys[order[i]] =~= char_codes(lowercase_of(out[i].0.name)));
        lemma_char_codes_order(lowercase_of(out[j].0.name), lowercase_of(out[i].0.name));
    }
}

/// All contacts of a contacts file, sorted by name (case-insensitive),
/// ties in file order. `rm` numbers contacts by their place here.
pub fn all_sorted(content: &str) -> (r: Result<Vec<Contact>, ContactError>)
    ensures
        ({
            let ls = record_lines(content@);
            match r {
                Ok(v) => all_contacts(ls) && sorted_entries(line_entries(ls), entries(v@)) && forall|
                    i: int,
                    j: int,
                |
                    0 <= i < j < v.len() ==> !text_lt(
                        lowercase_of(#[trigger] v@[j].name@),
                        lowercase_of(#[trigger] v@[i].name@),
                    ),
                Err(ContactError::MissingName(l)) => exists|k: int|
                    first_bad_line(ls, k) && l@ == ls[k],
            }
        }),
        r is Ok <==> all_contacts(record_lines(content@)),
{
    match read_contacts(content) {
        Err(e) => Err(e),
        Ok(contacts) => {
            let sorted = sort_contacts(&contacts);
            assert(entries(contacts@) == line_entries(record_lines(content@)));
            Ok(sorted)
        },
    }
}

/// The contact numbered `index` (from 1) in `contacts`.
pub fn find_contact(contacts: &Vec<Contact>, index: usize) -> (r: Option<Contact>)
    ensures
        match r {
            Some(c) => 1 <= index <= contacts.len() && entries(contacts@)[index - 1] == (
                c.fields(),
                c.raw@,
            ),
            None => !(1 <= index <= contacts.len()),
        },
{
    if index == 0 || index > contacts.len() {
        return None;
    }
    Some(contacts[index - 1].copy())
}

/// The contact `add` appends: its words joined by spaces, read as a line.
pub fn contact_from_args(args: &Vec<String>) -> (r: Result<Contact, ContactError>)
    ensures
        ({
            let line = join_sp(string_views(args@));
            match r {
                Ok(c) => contact_of(line) == Some(c.fields()) && c.raw@ == line,
                Err(ContactError::MissingName(l)) => contact_of(line) is None && l@ == line,
            }
        }),
{
    let mut parts: Vec<Vec<char>> = Vec::new();
    let mut i: usize = 0;
    while i < args.len()
        invariant
            i <= args.len(),
            views(parts@) == string_views(args@).take(i as int),
        decreases args.len() - i,
    {
        let ghost pre = views(parts@);
        parts.push(chars_of(args[i].as_str()));
        assert(views(parts@) =~= pre.push(args@[i as int]@));
        i = i + 1;
        assert(string_views(args@).take(i as int) =~= string_views(args@).take(i - 1).push(
            args@[i - 1]@,
        ));
    }
    assert(string_views(args@).take(i as int) =~= string_views(args@));
    let sep = vec![' '];
    assert(sep@ =~= seq![' ']);
    let line = string_of(&join_chars(&parts, &sep));
    Contact::parse(line.as_str())
}

/// One row of `list`: the contact's number and its line.
pub struct ListRow {
    pub number: usize,
    pub line: String,
}

/// The rows of `list` for the sorted contacts `cs`: each contact whose
/// name matches the tag queries, with its number (from 1) and line.
pub open spec fn list_view(cs: Seq<ContactView>, queries: Seq<Seq<char>>) -> Seq<(int, Seq<char>)>
    decreases cs.len(),
{
    if cs.len() == 0 {
        seq![]
    } else {
        let prev = list_view(cs.drop_last(), queries);
        let c = cs.last();
        if matches_spec(c.name, queries) {
            prev.push((cs.len() as int, join_sp(contact_tokens(c))))
        } else {
            prev
        }
    }
}

pub open spec fn contact_views(v: Seq<Contact>) -> Seq<ContactView> {
    Seq::new(v.len(), |i: int| v[i].fields())
}

pub open spec fn row_views(v: Seq<ListRow>) -> Seq<(int, Seq<char>)> {
    Seq::new(v.len(), |i: int| (v[i].number as int, v[i].line@))
}

/// The rows `list` shows for the sorted `contacts` (see `list_view`).
pub fn list_rows(contacts: &Vec<Contact>, tag_queries: &[String]) -> (r: Vec<ListRow>)
    ensures
        row_views(r@) == list_view(
            contact_views(contacts@),
            tag_queries@.map_values(|q: String| q@),
        ),
{
    let ghost qs = tag_queries@.map_values(|q: String| q@);
    let ghost cs = contact_views(contacts@);
    let mut out: Vec<ListRow> = Vec::new();
    let mut i: usize = 0;
    while i < contacts.len()
        invariant
            i <= contacts.len(),
            cs == contact_views(contacts@),
            qs == tag_queries@.map_values(|q: String| q@),
            row_views(out@) == list_view(cs.take(i as int), qs),
        decreases contacts.len() - i,
    {
        let c = &contacts[i];
        assert(cs.take(i + 1).drop_last() =~= cs.take(i as int));
        assert(cs.take(i + 1).last() == c.fields());
        let ghost pre = row_views(out@);
        if crate::tags::matches(c.name.as_str(), tag_queries) {
            let line = c.to_line();
            out.push(ListRow { number: i + 1, line });
            assert(row_views(out@) =~= pre.push(((i + 1) as int, line@)));
        }
        i = i + 1;
    }
    assert(cs.take(i as int) =~= cs);
    out
}

/// Which details a lookup asks for.
#[derive(Clone, Copy, Debug, PartialEq, Eq)]
pub enum Field {
    Phone,
    Email,
}

pub open spec fn field_values(c: ContactView, f: Field) -> Seq<Seq<char>> {
    match f {
        Field::Phone => c.phone,
        Field::Email => c.email,
    }
}

pub open spec fn label_of(f: Field) -> Seq<char> {
    match f {
        Field::Phone => "phone"@,
        Field::Email => "email"@,
    }
}

impl Field {
    /// The contact's values of this field.
    pub fn values<'a>(&self, c: &'a Contact) -> (r: &'a Vec<String>)
        ensures
            string_views(r@) == field_values(c.fields(), *self),
    {
        match self {
            Field::Phone => &c.phone,
            Field::Email => &c.email,
        }
    }

    /// The field's name, as messages write it.
    pub fn label(&self) -> (r: &'static str)
        ensures
            r@ == label_of(*self),
    {
        match self {
            Field::Phone => "phone",
            Field::Email => "email",
        }
    }
}

/// A contact's name contains the query, both in lowercase.
pub open spec fn name_matches(c: ContactView, q: Seq<char>) -> bool {
    contains_pat(lowercase_of(c.name), lowercase_of(q))
}

/// The contacts of `cs` whose name matches `q`, in order.
pub open spec fn matching(cs: Seq<ContactView>, q: Seq<char>) -> Seq<ContactView>
    decreases cs.len(),
{
    if cs.len() == 0 {
        seq![]
    } else {
        let p = matching(cs.drop_last(), q);
        if name_matches(cs.last(), q) {
            p.push(cs.last())
        } else {
            p
        }
    }
}

/// A lookup matches exactly the contacts whose name, in lowercase, holds
/// the query, in lowercase, at some position: each such contact of `cs` is
/// among the matches, and each match is such a contact of `cs`.
pub proof fn law_lookup_matches_substrings(cs: Seq<ContactView>, q: Seq<char>)
    ensures
        forall|i: int, k: int|
            0 <= i < cs.len() && #[trigger] occurs_at(lowercase_of(cs[i].name), lowercase_of(q), k)
                ==> matching(cs, q).contains(cs[i]),
        forall|m: ContactView| #[trigger]
            matching(cs, q).contains(m) ==> cs.contains(m) && exists|k: int|
                occurs_at(lowercase_of(m.name), lowercase_of(q), k),
    decreases cs.len(),
{
    if cs.len() > 0 {
        let p = cs.drop_last();
        law_lookup_matches_substrings(p, q);
        let mp = matching(p, q);
        let m = matching(cs, q);
        assert forall|i: int, k: int|
            0 <= i < cs.len() && #[trigger] occurs_at(lowercase_of(cs[i].name), lowercase_of(q), k)
                implies m.contains(cs[i]) by {
            if i < p.len() {
                assert(p[i] == cs[i]);
                assert(occurs_at(lowercase_of(p[i].name), lowercase_of(q), k));
                assert(mp.contains(p[i]));
                let w = choose|w: int| 0 <= w < mp.len() && mp[w] == p[i];
                if name_matches(cs.last(), q) {
                    assert(m[w] == mp[w]);
                }
            } else {
                assert(cs[i] == cs.last());
                assert(contains_pat(lowercase_of(cs.last().name), lowercase_of(q)));
                assert(m == mp.push(cs.last()));
                assert(m[mp.len() as int] == cs.last());
            }
        }
        assert forall|x: ContactView| #[trigger] m.contains(x) implies cs.contains(x) && exists|k: int|
            occurs_at(lowercase_of(x.name), lowercase_of(q), k) by {
            let w = choose|w: int| 0 <= w < m.len() && m[w] == x;
            if w < mp.len() {
                if name_matches(cs.last(), q) {
                    assert(m[w] == mp[w]);
                }
                assert(mp.contains(x));
                let y = choose|y: int| 0 <= y < p.len() && p[y] == x;
                assert(cs[y] == x);
            } else {
                assert(x == cs.last());
                assert(cs[cs.len() - 1] == x);
            }
        }
    }
}

/// A lookup over `contacts` matches nothing exactly when no contact's name,
/// in lowercase, holds the query in lowercase.
proof fn lemma_lookup_hits(contacts: Seq<Contact>, q: Seq<char>)
    ensures
        (matching(contact_views(contacts), q).len() == 0) == (forall|i: int, k: int|
            0 <= i < contacts.len() ==> !#[trigger] occurs_at(
                lowercase_of(contacts[i].name@),
                lowercase_of(q),
                k,
            )),
{
    let cs = contact_views(contacts);
    law_lookup_matches_substrings(cs, q);
    let m = matching(cs, q);
    if m.len() == 0 {
        assert forall|i: int, k: int| 0 <= i < contacts.len() implies !#[trigger] occurs_at(
            lowercase_of(contacts[i].name@),
            lowercase_of(q),
            k,
        ) by {
            assert(cs[i].name == contacts[i].name@);
            if occurs_at(lowercase_of(cs[i].name), lowercase_of(q), k) {
                assert(m.contains(cs[i]));
            }
        }
    } else {
        assert(m.contains(m[0]));
        let x = m[0];
        let i = choose|i: int| 0 <= i < cs.len() && cs[i] == x;
        let k = choose|k: int| occurs_at(lowercase_of(x.name), lowercase_of(q), k);
        assert(cs[i].name == contacts[i].name@);
        assert(occurs_at(lowercase_of(contacts[i].name@), lowercase_of(q), k));
    }
}

/// The lines a lookup prints for one of several matching contacts:
/// `Name: value` for each value, or `Name: (no field)`.
pub open spec fn contact_lines(c: ContactView, f: Field) -> Seq<Seq<char>> {
    let vs = field_values(c, f);
    if vs.len() == 0 {
        seq![c.name + ": (no "@ + label_of(f) + ")"@]
    } else {
        vs.map_values(|v: Seq<char>| c.name + ": "@ + v)
    }
}

pub open spec fn several_lines(ms: Seq<ContactView>, f: Field) -> Seq<Seq<char>>
    decreases ms.len(),
{
    if ms.len() == 0 {
        seq![]
    } else {
        several_lines(ms.drop_last(), f) + contact_lines(ms.last(), f)
    }
}

/// What a lookup prints for the matching contacts `ms` (at least one): for
/// a single match its bare values, one per line, or a note that it has
/// none; for several, `contact_lines` of each in turn.
pub open spec fn lookup_lines(ms: Seq<ContactView>, f: Field) -> Seq<Seq<char>> {
    if ms.len() == 1 {
        let vs = field_values(ms[0], f);
        if vs.len() == 0 {
            seq!["no "@ + label_of(f) + " on file for "@ + ms[0].name]
        } else {
            vs
        }
    } else {
        several_lines(ms, f)
    }
}

/// A lookup that matched no contact.
#[derive(Debug, PartialEq, Eq)]
pub enum LookupError {
    NoMatch,
}

/// The lines `phone`/`email` print for `query` over the sorted `contacts`:
/// those of `lookup_lines` for the contacts whose name contains the query
/// case-insensitively, or `NoMatch` where none does.
pub fn run_lookup(contacts: &Vec<Contact>, field: Field, query: &str) -> (r: Result<Vec<String>, LookupError>)
    ensures
        ({
            let ms = matching(contact_views(contacts@), query@);
            match r {
                Ok(lines) => ms.len() > 0 && string_views(lines@) == lookup_lines(ms, field),
                Err(LookupError::NoMatch) => ms.len() == 0,
            }
        }),
        r is Err ==> forall|i: int, k: int|
            0 <= i < contacts.len() ==> !#[trigger] occurs_at(
                lowercase_of(contacts@[i].name@),
                lowercase_of(query@),
                k,
            ),
        r is Ok ==> exists|i: int, k: int|
            0 <= i < contacts.len() && #[trigger] occurs_at(
                lowercase_of(contacts@[i].name@),
                lowercase_of(query@),
                k,
            ),
{
    proof {
        lemma_lookup_hits(contacts@, query@);
    }
    let ghost cs = contact_views(contacts@);
    let ql = to_lowercase(query);
    let qv = chars_of(ql.as_str());
    let mut found: Vec<usize> = Vec::new();
    let ghost mut ms: Seq<ContactView> = seq![];
    let mut i: usize = 0;
    while i < contacts.len()
        invariant
            i <= contacts.len(),
            cs == contact_views(contacts@),
            qv@ == lowercase_of(query@),
            ms == matching(cs.take(i as int), query@),
            ms.len() == found.len(),
            forall|k: int| 0 <= k < found.len() ==> (#[trigger] found@[k]) < contacts.len() && ms[k]
                == cs[found@[k] as int],
        decreases contacts.len() - i,
    {
        assert(cs.take(i + 1).drop_last() =~= cs.take(i as int));
        assert(cs.take(i + 1).last() == contacts@[i as int].fields());
        let nl = to_lowercase(contacts[i].name.as_str());
        let nv = chars_of(nl.as_str());
        let hit = find_first(&nv, &qv).is_some();
        assert(hit == contains_pat(nv@, qv@));
        if hit {
            found.push(i);
            proof {
                ms = ms.push(cs[i as int]);
            }
        }
        i = i + 1;
    }
    assert(cs.take(i as int) =~= cs);
    if found.len() == 0 {
        return Err(LookupError::NoMatch);
    }
    let mut out: Vec<String> = Vec::new();
    if found.len() == 1 {
        let c = &contacts[found[0]];
        let vs = field.values(c);
        if vs.len() == 0 {
            let mut t: Vec<char> = Vec::new();
            append_str(&mut t, "no ");
            append_str(&mut t, field.label());
            append_str(&mut t, " on file for ");
            append_str(&mut t, c.name.as_str());
            out.push(string_of(&t));
            assert(string_views(out@) =~= lookup_lines(ms, field));
        } else {
            let mut k: usize = 0;
            while k < vs.len()
                invariant
                    k <= vs.len(),
                    string_views(out@) == string_views(vs@).take(k as int),
                decreases vs.len() - k,
            {
                let ghost pre = string_views(out@);
                out.push(vs[k].clone());
                assert(string_views(out@) =~= pre.push(vs@[k as int]@));
                k = k + 1;
                assert(string_views(vs@).take(k as int) =~= string_views(vs@).take(k - 1).push(
                    vs@[k - 1]@,
                ));
            }
            assert(string_views(vs@).take(k as int) =~= string_views(vs@));
        }
        return Ok(out);
    }
    let mut j: usize = 0;
    while j < found.len()
        invariant
            j <= found.len(),
            ms.len() == found.len(),
            cs == contact_views(contacts@),
            forall|k: int| 0 <= k < found.len() ==> (#[trigger] found@[k]) < contacts.len() && ms[k]
                == cs[found@[k] as int],
            string_views(out@) == several_lines(ms.take(j as int), field),
        decreases found.len() - j,
    {
        let c = &contacts[found[j]];
        assert(ms.take(j + 1).drop_last() =~= ms.take(j as int));
        assert(ms.take(j + 1).last() == c.fields());
        let vs = field.values(c);
        let ghost pre = string_views(out@);
        if vs.len() == 0 {
            let mut t: Vec<char> = Vec::new();
            append_str(&mut t, c.name.as_str());
            append_str(&mut t, ": (no ");
            append_str(&mut t, field.label());
            append_str(&mut t, ")");
            out.push(string_of(&t));
            assert(string_views(out@) =~= pre + contact_lines(c.fields(), field));
        } else {
            let mut k: usize = 0;
            while k < vs.len()
                invariant
                    k <= vs.len(),
                    string_views(out@) == pre + string_views(vs@).take(k as int).map_values(
                        |v: Seq<char>| c.name@ + ": "@ + v,
                    ),
                decreases vs.len() - k,
            {
                let mut t: Vec<char> = Vec::new();
                append_str(&mut t, c.name.as_str());
                append_str(&mut t, ": ");
                append_str(&mut t, vs[k].as_str());
                let ghost before = string_views(out@);
                out.push(string_of(&t));
                assert(string_views(out@) =~= before.push(c.name@ + ": "@ + vs@[k as int]@));
                k = k + 1;
                assert(string_views(vs@).take(k as int).map_values(|v: Seq<char>| c.name@ + ": "@ + v)
                    =~= string_views(vs@).take(k - 1).map_values(|v: Seq<char>| c.name@ + ": "@ + v).push(
                    c.name@ + ": "@ + vs@[k - 1]@,
                ));
            }
            assert(string_views(vs@).take(k as int) =~= string_views(vs@));
            assert(string_views(out@) =~= pre + contact_lines(c.fields(), field));
        }
        j = j + 1;
    }
    assert(ms.take(j as int) =~= ms);
    Ok(out)
}

} // verus!
