//! holler: plaintext contacts, one per line
//! `NAME [phone:VALUE]... [email:VALUE]...`.
use vstd::prelude::*;
use crate::text::{
    chars_of, string_of, words, views, split_ws, join_sp, join_chars, split_once, split_once_spec,
    is_ws, is_word, lower, lowercase_of, is_lower_ascii, to_lowercase, chars_eq, append_chars,
    append_str, copy_chars, contains_pat, occurs_at, find_first, lemma_words_are_words,
    lemma_words_join, lemma_join_sp_concat, first_occ, lemma_first_occ_unique,
};
use crate::tags::{is_ascii_alpha, matches_spec};
use crate::lines::{read_lines, record_lines, string_views};
use crate::sort::{stable_order, stable_sort_order, key_views, order_view};

verus! {

/// One contact, parsed from a line `NAME [phone:VALUE]... [email:VALUE]...`.
///
/// `phone:`/`email:` tokens (key matched case-insensitively) are found
/// anywhere in the line and pulled into `phone`/`email`, in encounter
/// order. Everything else stays where it was, joined into `name`.
#[derive(Debug, Clone, PartialEq)]
pub struct Contact {
    pub name: String,
    pub phone: Vec<String>,
    pub email: Vec<String>,
    /// The exact source line, so `rm` can locate it without reformatting.
    pub raw: String,
}

/// The fields of a contact, as the contracts speak of them.
pub struct ContactView {
    pub name: Seq<char>,
    pub phone: Seq<Seq<char>>,
    pub email: Seq<Seq<char>>,
}

impl Contact {
    pub open spec fn fields(&self) -> ContactView {
        ContactView {
            name: self.name@,
            phone: string_views(self.phone@),
            email: string_views(self.email@),
        }
    }
}

/// The reserved keys, in lowercase.
pub open spec fn phone_key() -> Seq<char> {
    seq!['p', 'h', 'o', 'n', 'e']
}

pub open spec fn email_key() -> Seq<char> {
    seq!['e', 'm', 'a', 'i', 'l']
}

/// A reserved tag: `key:value` split at the first `:`, the key starting
/// with an ASCII letter and reading `phone` or `email` in lowercase, the
/// value nonempty. Gives the lowercase key and the value.
pub open spec fn reserved_of(t: Seq<char>) -> Option<(Seq<char>, Seq<char>)> {
    match split_once_spec(t, ":"@) {
        Some((k, v)) => if k.len() > 0 && is_ascii_alpha(k[0]) && v.len() > 0 && (lower(k)
            == phone_key() || lower(k) == email_key()) {
            Some((lower(k), v))
        } else {
            None
        },
        None => None,
    }
}

/// The tokens of `ts` that are no reserved tag, in order.
pub open spec fn name_tokens(ts: Seq<Seq<char>>) -> Seq<Seq<char>>
    decreases ts.len(),
{
    if ts.len() == 0 {
        seq![]
    } else {
        let p = name_tokens(ts.drop_last());
        if reserved_of(ts.last()) is None {
            p.push(ts.last())
        } else {
            p
        }
    }
}

/// The values of the reserved tags of `ts` with key `key`, in order.
pub open spec fn tag_values(ts: Seq<Seq<char>>, key: Seq<char>) -> Seq<Seq<char>>
    decreases ts.len(),
{
    if ts.len() == 0 {
        seq![]
    } else {
        let p = tag_values(ts.drop_last(), key);
        match reserved_of(ts.last()) {
            Some((k, v)) => if k == key {
                p.push(v)
            } else {
                p
            },
            None => p,
        }
    }
}

/// The contact a line reads as: no contact where no token is left for the
/// name.
pub open spec fn contact_of(line: Seq<char>) -> Option<ContactView> {
    let ts = words(line);
    let n = name_tokens(ts);
    if n.len() == 0 {
        None
    } else {
        Some(
            ContactView {
                name: join_sp(n),
                phone: tag_values(ts, phone_key()),
                email: tag_values(ts, email_key()),
            },
        )
    }
}

/// A line with nothing left for the name; it holds the line.
#[derive(Debug)]
pub enum ContactError {
    MissingName(String),
}

/// Reads a token as a reserved tag (see `reserved_of`).
fn reserved_tag_chars(t: &Vec<char>) -> (r: Option<(Vec<char>, Vec<char>)>)
    ensures
        match r {
            Some((k, v)) => reserved_of(t@) == Some((k@, v@)),
            None => reserved_of(t@) is None,
        },
{
    let (k, v) = match split_once(t, ":") {
        Some(p) => p,
        None => {
            return None;
        },
    };
    if k.len() == 0 || v.len() == 0 {
        return None;
    }
    let c = k[0] as u32;
    if !((c >= 65 && c <= 90) || (c >= 97 && c <= 122)) {
        return None;
    }
    let ks = string_of(&k);
    let low = to_lowercase(ks.as_str());
    let lv = chars_of(low.as_str());
    assert(lv@ == lower(k@));
    let phone = vec!['p', 'h', 'o', 'n', 'e'];
    let email = vec!['e', 'm', 'a', 'i', 'l'];
    assert(phone@ =~= phone_key());
    assert(email@ =~= email_key());
    if chars_eq(&lv, &phone) || chars_eq(&lv, &email) {
        Some((lv, v))
    } else {
        None
    }
}

/// Classifies one token as a reserved `phone:`/`email:` tag (key matched
/// case-insensitively): the lowercase key and the value, or `None` for any
/// other token.
pub fn reserved_tag(token: &str) -> (r: Option<(String, String)>)
    ensures
        match r {
            Some((k, v)) => reserved_of(token@) == Some((k@, v@)),
            None => reserved_of(token@) is None,
        },
{
    let t = chars_of(token);
    match reserved_tag_chars(&t) {
        Some((k, v)) => Some((string_of(&k), string_of(&v))),
        None => None,
    }
}

/// `str::to_string` for every element, in order.
fn strings_of(v: &Vec<Vec<char>>) -> (r: Vec<String>)
    ensures
        string_views(r@) == views(v@),
{
    let mut out: Vec<String> = Vec::new();
    let mut i: usize = 0;
    while i < v.len()
        invariant
            i <= v.len(),
            string_views(out@) == views(v@).take(i as int),
        decreases v.len() - i,
    {
        let ghost pre = string_views(out@);
        out.push(string_of(&v[i]));
        assert(string_views(out@) =~= pre.push(v@[i as int]@));
        i = i + 1;
        assert(views(v@).take(i as int) =~= views(v@).take(i - 1).push(v@[i - 1]@));
    }
    assert(views(v@).take(i as int) =~= views(v@));
    out
}

impl Contact {
    /// Reads one line (see `contact_of`); the error holds the line.
    pub fn parse(line: &str) -> (r: Result<Contact, ContactError>)
        ensures
            match r {
                Ok(c) => contact_of(line@) == Some(c.fields()) && c.raw@ == line@,
                Err(ContactError::MissingName(l)) => contact_of(line@) is None && l@ == line@,
            },
    {
        let v = chars_of(line);
        let toks = split_ws(&v);
        let ghost ts = words(line@);
        let mut names: Vec<Vec<char>> = Vec::new();
        let mut phone: Vec<Vec<char>> = Vec::new();
        let mut email: Vec<Vec<char>> = Vec::new();
        let mut i: usize = 0;
        while i < toks.len()
            invariant
                i <= toks.len(),
                views(toks@) == ts,
                views(names@) == name_tokens(ts.take(i as int)),
                views(phone@) == tag_values(ts.take(i as int), phone_key()),
                views(email@) == tag_values(ts.take(i as int), email_key()),
            decreases toks.len() - i,
        {
            let ghost pre = ts.take(i as int);
            let ghost cur = ts.take(i + 1);
            assert(cur.drop_last() =~= pre);
            assert(cur.last() == toks@[i as int]@);
            let ghost (n0, p0, e0) = (views(names@), views(phone@), views(email@));
            match reserved_tag_chars(&toks[i]) {
                Some((k, val)) => {
                    let pk = vec!['p', 'h', 'o', 'n', 'e'];
                    assert(pk@ =~= phone_key());
                    if chars_eq(&k, &pk) {
                        let ghost vv = val@;
                        phone.push(val);
                        assert(views(phone@) =~= p0.push(vv));
                    } else {
                        let ghost vv = val@;
                        email.push(val);
                        assert(views(email@) =~= e0.push(vv));
                    }
                },
                None => {
                    names.push(copy_chars(&toks[i]));
                    assert(views(names@) =~= n0.push(cur.last()));
                },
            }
            i = i + 1;
        }
        assert(ts.take(i as int) =~= ts);
        if names.len() == 0 {
            return Err(ContactError::MissingName(line.to_owned()));
        }
        let sep = vec![' '];
        assert(sep@ =~= seq![' ']);
        let name_v = join_chars(&names, &sep);
        Ok(
            Contact {
                name: string_of(&name_v),
                phone: strings_of(&phone),
                email: strings_of(&email),
                raw: line.to_owned(),
            },
        )
    }

    /// Sort key: the name in lowercase.
    pub fn sort_key(&self) -> (r: String)
        ensures
            r@ == lowercase_of(self.name@),
    {
        to_lowercase(self.name.as_str())
    }
}

/// `key:value` as one token.
pub open spec fn tagged(key: Seq<char>, value: Seq<char>) -> Seq<char> {
    key + seq![':'] + value
}

/// The tokens of a contact's storage line: the name, then every phone as
/// `phone:VALUE`, then every email as `email:VALUE`, in order.
pub open spec fn contact_tokens(c: ContactView) -> Seq<Seq<char>> {
    seq![c.name] + c.phone.map_values(|p: Seq<char>| tagged(phone_key(), p)) + c.email.map_values(
        |e: Seq<char>| tagged(email_key(), e),
    )
}

/// Appends `key:value` tokens for each of `values`.
fn push_tagged(parts: &mut Vec<Vec<char>>, key: &Vec<char>, values: &Vec<String>)
    ensures
        views(final(parts)@) == views(old(parts)@) + string_views(values@).map_values(
            |v: Seq<char>| tagged(key@, v),
        ),
{
    let ghost base = views(parts@);
    let ghost vs = string_views(values@);
    let mut i: usize = 0;
    while i < values.len()
        invariant
            i <= values.len(),
            vs == string_views(values@),
            views(parts@) == base + vs.take(i as int).map_values(|v: Seq<char>| tagged(key@, v)),
        decreases values.len() - i,
    {
        let mut t = copy_chars(key);
        t.push(':');
        let vc = chars_of(values[i].as_str());
        append_chars(&mut t, &vc);
        assert(t@ =~= tagged(key@, vs[i as int]));
        let ghost pre = views(parts@);
        parts.push(t);
        assert(views(parts@) =~= pre.push(tagged(key@, vs[i as int])));
        i = i + 1;
        assert(vs.take(i as int).map_values(|v: Seq<char>| tagged(key@, v)) =~= vs.take(
            i - 1,
        ).map_values(|v: Seq<char>| tagged(key@, v)).push(tagged(key@, vs[i - 1])));
    }
    assert(vs.take(i as int) =~= vs);
}

impl Contact {
    /// The canonical storage line: the tokens of `contact_tokens` joined by
    /// single spaces.
    pub fn to_line(&self) -> (r: String)
        ensures
            r@ == join_sp(contact_tokens(self.fields())),
    {
        let mut parts: Vec<Vec<char>> = Vec::new();
        parts.push(chars_of(self.name.as_str()));
        assert(views(parts@) =~= seq![self.name@]);
        let pk = vec!['p', 'h', 'o', 'n', 'e'];
        assert(pk@ =~= phone_key());
        let ek = vec!['e', 'm', 'a', 'i', 'l'];
        assert(ek@ =~= email_key());
        push_tagged(&mut parts, &pk, &self.phone);
        push_tagged(&mut parts, &ek, &self.email);
        assert(views(parts@) =~= contact_tokens(self.fields()));
        let sep = vec![' '];
        assert(sep@ =~= seq![' ']);
        let out = join_chars(&parts, &sep);
        string_of(&out)
    }

    /// A copy of this contact.
    pub fn copy(&self) -> (r: Contact)
        ensures
            r.fields() == self.fields(),
            r.raw@ == self.raw@,
    {
        Contact {
            name: self.name.clone(),
            phone: copy_strings(&self.phone),
            email: copy_strings(&self.email),
            raw: self.raw.clone(),
        }
    }
}

fn copy_strings(v: &Vec<String>) -> (r: Vec<String>)
    ensures
        string_views(r@) == string_views(v@),
{
    let mut out: Vec<String> = Vec::new();
    let mut i: usize = 0;
    while i < v.len()
        invariant
            i <= v.len(),
            string_views(out@) == string_views(v@).take(i as int),
        decreases v.len() - i,
    {
        let ghost pre = string_views(out@);
        out.push(v[i].clone());
        assert(string_views(out@) =~= pre.push(v@[i as int]@));
        i = i + 1;
        assert(string_views(v@).take(i as int) =~= string_views(v@).take(i - 1).push(v@[i - 1]@));
    }
    assert(string_views(v@).take(i as int) =~= string_views(v@));
    out
}

proof fn lemma_name_tokens_concat(a: Seq<Seq<char>>, b: Seq<Seq<char>>)
    ensures
        name_tokens(a + b) == name_tokens(a) + name_tokens(b),
    decreases b.len(),
{
    if b.len() == 0 {
        assert(a + b =~= a);
        assert(name_tokens(a) + name_tokens(b) =~= name_tokens(a));
    } else {
        lemma_name_tokens_concat(a, b.drop_last());
        assert((a + b).drop_last() =~= a + b.drop_last());
        assert((a + b).last() == b.last());
        assert(name_tokens(a + b) =~= name_tokens(a) + name_tokens(b));
    }
}

proof fn lemma_tag_values_concat(a: Seq<Seq<char>>, b: Seq<Seq<char>>, key: Seq<char>)
    ensures
        tag_values(a + b, key) == tag_values(a, key) + tag_values(b, key),
    decreases b.len(),
{
    if b.len() == 0 {
        assert(a + b =~= a);
        assert(tag_values(a, key) + tag_values(b, key) =~= tag_values(a, key));
    } else {
        lemma_tag_values_concat(a, b.drop_last(), key);
        assert((a + b).drop_last() =~= a + b.drop_last());
        assert((a + b).last() == b.last());
        assert(tag_values(a + b, key) =~= tag_values(a, key) + tag_values(b, key));
    }
}

/// Tokens none of which is a reserved tag are all name, and hold no values.
proof fn lemma_plain_tokens(ws: Seq<Seq<char>>, key: Seq<char>)
    requires
        forall|i: int| 0 <= i < ws.len() ==> reserved_of(#[trigger] ws[i]) is None,
    ensures
        name_tokens(ws) == ws,
        tag_values(ws, key) == Seq::<Seq<char>>::empty(),
    decreases ws.len(),
{
    if ws.len() > 0 {
        lemma_plain_tokens(ws.drop_last(), key);
        assert(reserved_of(ws[ws.len() - 1]) is None);
        assert(ws.drop_last().push(ws.last()) =~= ws);
    }
}

/// `key:value` with a reserved key and a word as value is a reserved tag.
proof fn lemma_tagged_reserved(key: Seq<char>, v: Seq<char>)
    requires
        key == phone_key() || key == email_key(),
        is_word(v),
    ensures
        reserved_of(tagged(key, v)) == Some((key, v)),
        is_word(tagged(key, v)),
{
    let t = tagged(key, v);
    let pat = ":"@;
    assert(pat == seq![':']) by {
        reveal_strlit(":");
    }
    assert(occurs_at(t, pat, 5)) by {
        assert(t.subrange(5, 6) =~= pat);
    }
    assert forall|j: int| 0 <= j < 5 implies !occurs_at(t, pat, j) by {
        assert(t[j] == key[j]);
        if occurs_at(t, pat, j) {
            assert(t.subrange(j, j + 1)[0] == t[j]);
        }
    }
    assert(first_occ(t, pat, 5));
    let k = choose|k: int| first_occ(t, pat, k);
    lemma_first_occ_unique(t, pat, 5, k);
    assert(t.take(5) =~= key);
    assert(t.skip(6) =~= v);
    assert(is_lower_ascii(key));
    assert(is_word(t)) by {
        assert forall|j: int| 0 <= j < t.len() implies !is_ws(#[trigger] t[j]) by {
            if j < 5 {
                assert(t[j] == key[j]);
            } else if j > 5 {
                assert(t[j] == v[j - 6]);
            }
        }
    }
}

/// The tagged tokens of `vs` under `key` hold exactly `vs` under `key`,
/// nothing under the other key, and no name.
proof fn lemma_tagged_tokens(vs: Seq<Seq<char>>, key: Seq<char>, other: Seq<char>)
    requires
        key == phone_key() || key == email_key(),
        other != key,
        forall|i: int| 0 <= i < vs.len() ==> is_word(#[trigger] vs[i]),
    ensures
        ({
            let ts = vs.map_values(|v: Seq<char>| tagged(key, v));
            &&& name_tokens(ts) == Seq::<Seq<char>>::empty()
            &&& tag_values(ts, key) == vs
            &&& tag_values(ts, other) == Seq::<Seq<char>>::empty()
            &&& forall|i: int| 0 <= i < ts.len() ==> is_word(#[trigger] ts[i])
        }),
    decreases vs.len(),
{
    let ts = vs.map_values(|v: Seq<char>| tagged(key, v));
    if vs.len() > 0 {
        let p = vs.drop_last();
        lemma_tagged_tokens(p, key, other);
        assert(ts.drop_last() =~= p.map_values(|v: Seq<char>| tagged(key, v)));
        lemma_tagged_reserved(key, vs.last());
        assert(ts.last() == tagged(key, vs.last()));
        assert(p.push(vs.last()) =~= vs);
        assert forall|i: int| 0 <= i < ts.len() implies is_word(#[trigger] ts[i]) by {
            lemma_tagged_reserved(key, vs[i]);
        }
    }
}

/// The contacts whose storage line reads back as themselves: a name made of
/// whitespace-free words joined by single spaces, none of them a reserved
/// tag, and phones and emails that are single words.
pub open spec fn contact_reads_back(c: ContactView) -> bool {
    let ws = words(c.name);
    &&& ws.len() > 0
    &&& join_sp(ws) == c.name
    &&& forall|i: int| 0 <= i < ws.len() ==> reserved_of(#[trigger] ws[i]) is None
    &&& forall|i: int| 0 <= i < c.phone.len() ==> is_word(#[trigger] c.phone[i])
    &&& forall|i: int| 0 <= i < c.email.len() ==> is_word(#[trigger] c.email[i])
}

/// Writing a contact as its storage line (`Contact::to_line`) and reading
/// the line back (`Contact::parse`) gives the same contact, for every
/// contact whose line can tell its name from its tags (see
/// `contact_reads_back`).
pub proof fn law_contact_round_trip(c: Contact)
    requires
        contact_reads_back(c.fields()),
    ensures
        contact_of(join_sp(contact_tokens(c.fields()))) == Some(c.fields()),
{
    lemma_fields_round_trip(c.fields());
}

proof fn lemma_fields_round_trip(f: ContactView)
    requires
        contact_reads_back(f),
    ensures
        contact_of(join_sp(contact_tokens(f))) == Some(f),
{
    let ws = words(f.name);
    lemma_words_are_words(f.name);
    let pt = f.phone.map_values(|p: Seq<char>| tagged(phone_key(), p));
    let et = f.email.map_values(|e: Seq<char>| tagged(email_key(), e));
    assert(phone_key() != email_key()) by {
        assert(phone_key()[0] != email_key()[0]);
    }
    lemma_tagged_tokens(f.phone, phone_key(), email_key());
    lemma_tagged_tokens(f.email, email_key(), phone_key());
    let rest = pt + et;
    let t = ws + rest;
    assert(join_sp(contact_tokens(f)) == join_sp(t)) by {
        let ct = contact_tokens(f);
        assert(ct =~= seq![f.name] + rest);
        if rest.len() > 0 {
            lemma_join_sp_concat(seq![f.name], rest);
            lemma_join_sp_concat(ws, rest);
            assert(join_sp(seq![f.name]) == f.name);
        } else {
            assert(ct =~= seq![f.name]);
            assert(t =~= ws);
        }
    }
    assert forall|i: int| 0 <= i < t.len() implies is_word(#[trigger] t[i]) by {
        if i < ws.len() {
            assert(t[i] == ws[i]);
        } else if i < ws.len() + pt.len() {
            assert(t[i] == pt[i - ws.len()]);
        } else {
            assert(t[i] == et[i - ws.len() - pt.len()]);
        }
    }
    lemma_words_join(t);
    lemma_plain_tokens(ws, phone_key());
    lemma_plain_tokens(ws, email_key());
    lemma_name_tokens_concat(ws, rest);
    lemma_name_tokens_concat(pt, et);
    lemma_tag_values_concat(ws, rest, phone_key());
    lemma_tag_values_concat(pt, et, phone_key());
    lemma_tag_values_concat(ws, rest, email_key());
    lemma_tag_values_concat(pt, et, email_key());
    assert(name_tokens(t) =~= ws);
    assert(tag_values(t, phone_key()) =~= f.phone);
    assert(tag_values(t, email_key()) =~= f.email);
}

/// Where `pat` occurs in `s`, it has a first occurrence.
proof fn lemma_first_occ_exists(s: Seq<char>, pat: Seq<char>, i: int)
    requires
        occurs_at(s, pat, i),
    ensures
        exists|k: int| first_occ(s, pat, k),
    decreases i,
{
    if exists|j: int| 0 <= j < i && occurs_at(s, pat, j) {
        let j = choose|j: int| 0 <= j < i && occurs_at(s, pat, j);
        lemma_first_occ_exists(s, pat, j);
    } else {
        assert(first_occ(s, pat, i));
    }
}

/// The value of a reserved tag that is a word is a word too.
proof fn lemma_reserved_value_word(t: Seq<char>)
    requires
        is_word(t),
        reserved_of(t) is Some,
    ensures
        reserved_of(t) matches Some((_, v)) && is_word(v),
{
    let pat = ":"@;
    let w = choose|i: int| occurs_at(t, pat, i);
    lemma_first_occ_exists(t, pat, w);
    let i = choose|i: int| first_occ(t, pat, i);
    let v = t.skip(i + pat.len());
    assert(reserved_of(t) == Some((lower(t.take(i)), v)));
    assert forall|j: int| 0 <= j < v.len() implies !is_ws(#[trigger] v[j]) by {
        assert(v[j] == t[j + i + pat.len()]);
    }
}

/// The name tokens of a line are tokens of it that are no reserved tag.
proof fn lemma_name_tokens_plain(ts: Seq<Seq<char>>)
    requires
        forall|i: int| 0 <= i < ts.len() ==> is_word(#[trigger] ts[i]),
    ensures
        forall|i: int| 0 <= i < name_tokens(ts).len() ==> is_word(#[trigger] name_tokens(ts)[i]),
        forall|i: int|
            0 <= i < name_tokens(ts).len() ==> reserved_of(#[trigger] name_tokens(ts)[i]) is None,
    decreases ts.len(),
{
    if ts.len() > 0 {
        let p = ts.drop_last();
        assert forall|i: int| 0 <= i < p.len() implies is_word(#[trigger] p[i]) by {
            assert(p[i] == ts[i]);
        }
        lemma_name_tokens_plain(p);
        assert(is_word(ts[ts.len() - 1]));
    }
}

/// The values a line gives under a key are words.
proof fn lemma_tag_values_words(ts: Seq<Seq<char>>, key: Seq<char>)
    requires
        forall|i: int| 0 <= i < ts.len() ==> is_word(#[trigger] ts[i]),
    ensures
        forall|i: int|
            0 <= i < tag_values(ts, key).len() ==> is_word(#[trigger] tag_values(ts, key)[i]),
    decreases ts.len(),
{
    if ts.len() > 0 {
        let p = ts.drop_last();
        assert forall|i: int| 0 <= i < p.len() implies is_word(#[trigger] p[i]) by {
            assert(p[i] == ts[i]);
        }
        lemma_tag_values_words(p, key);
        assert(is_word(ts[ts.len() - 1]));
        if reserved_of(ts.last()) is Some {
            lemma_reserved_value_word(ts.last());
        }
        let q = tag_values(p, key);
        let r = tag_values(ts, key);
        assert forall|i: int| 0 <= i < r.len() implies is_word(#[trigger] r[i]) by {
            if i < q.len() {
                assert(r[i] == q[i]);
            }
        }
    }
}

/// Every contact read from a line is one whose storage line reads back.
proof fn lemma_parsed_reads_back(line: Seq<char>)
    requires
        contact_of(line) is Some,
    ensures
        contact_reads_back(contact_of(line)->0),
{
    let ts = words(line);
    let n = name_tokens(ts);
    lemma_words_are_words(line);
    lemma_name_tokens_plain(ts);
    lemma_tag_values_words(ts, phone_key());
    lemma_tag_values_words(ts, email_key());
    lemma_words_join(n);
}

/// A line read as a contact (`Contact::parse`), written back as its storage
/// line (`Contact::to_line`) and read again, gives the same contact; and the
/// storage line of that contact is the line just written, so writing the
/// line is idempotent.
pub proof fn law_parsed_contact_round_trip(line: Seq<char>)
    requires
        contact_of(line) is Some,
    ensures
        contact_reads_back(contact_of(line)->0),
        contact_of(join_sp(contact_tokens(contact_of(line)->0))) == contact_of(line),
        join_sp(contact_tokens(contact_of(join_sp(contact_tokens(contact_of(line)->0)))->0))
            == join_sp(contact_tokens(contact_of(line)->0)),
{
    lemma_parsed_reads_back(line);
    lemma_fields_round_trip(contact_of(line)->0);
}

} // verus!
