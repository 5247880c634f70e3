//! `+project`, `@context` and `key:value` tags embedded in free text.
use vstd::prelude::*;
use crate::text::{
    chars_of, string_of, words, views, split_ws, split_once, split_once_spec, lowercase_of,
    to_lowercase, chars_eq,
};

verus! {

pub open spec fn is_ascii_alpha(c: char) -> bool {
    (65 <= c as u32 <= 90) || (97 <= c as u32 <= 122)
}

/// A token is a tag when it is `+` or `@` followed by at least one more
/// character, or `key:value` with a key that starts with an ASCII letter and
/// a nonempty value (split at the first `:`).
pub open spec fn tag_shaped(t: Seq<char>) -> bool {
    ||| (t.len() > 1 && (t[0] == '+' || t[0] == '@'))
    ||| match split_once_spec(t, ":"@) {
        Some((k, v)) => k.len() > 0 && is_ascii_alpha(k[0]) && v.len() > 0,
        None => false,
    }
}

/// `text` carries the tag `q` (tags compare in lowercase).
pub open spec fn has_tag(text: Seq<char>, q: Seq<char>) -> bool {
    exists|i: int|
        0 <= i < words(text).len() && tag_shaped(#[trigger] words(text)[i]) && lowercase_of(
            words(text)[i],
        ) == q
}

/// No queries, or `text` carries one of them as a tag, case-insensitively.
pub open spec fn matches_spec(text: Seq<char>, queries: Seq<Seq<char>>) -> bool {
    queries.len() == 0 || exists|j: int|
        0 <= j < queries.len() && has_tag(text, lowercase_of(#[trigger] queries[j]))
}

/// Whether a single whitespace token is shaped like a tag.
pub fn is_tag(token: &Vec<char>) -> (b: bool)
    ensures
        b == tag_shaped(token@),
{
    if token.len() > 1 && (token[0] == '+' || token[0] == '@') {
        return true;
    }
    match split_once(token, ":") {
        Some((k, v)) => k.len() > 0 && ((k[0] as u32 >= 65 && k[0] as u32 <= 90) || (k[0] as u32
            >= 97 && k[0] as u32 <= 122)) && v.len() > 0,
        None => false,
    }
}

/// Extracts a `+project`, `@context`, or `key:value` tag from a single
/// whitespace token, if it's shaped like one, in lowercase. The key of a
/// `key:value` pair must start with a letter — this excludes a bare numeric
/// token (e.g. a clock time `10:00`) from being misread as a tag.
pub fn extract_tag(token: &str) -> (r: Option<String>)
    ensures
        match r {
            Some(t) => tag_shaped(token@) && t@ == lowercase_of(token@),
            None => !tag_shaped(token@),
        },
{
    let v = chars_of(token);
    if is_tag(&v) {
        Some(to_lowercase(token))
    } else {
        None
    }
}

/// True if `text` carries any of `queries` as a `+project`/`@context`/
/// `key:value` tag (case-insensitive, matches if ANY query is present). An
/// empty `queries` matches everything (no filter).
pub fn matches(text: &str, queries: &[String]) -> (b: bool)
    ensures
        b == matches_spec(text@, queries@.map_values(|q: String| q@)),
{
    let ghost qs = queries@.map_values(|q: String| q@);
    if queries.len() == 0 {
        return true;
    }
    let toks = split_ws(&chars_of(text));
    let ghost ws = words(text@);
    let mut tags: Vec<Vec<char>> = Vec::new();
    let ghost mut idx: Seq<int> = seq![];
    let mut i: usize = 0;
    while i < toks.len()
        invariant
            views(toks@) == ws,
            i <= toks.len(),
            tags.len() == idx.len(),
            forall|k: int| 0 <= k < idx.len() ==> 0 <= #[trigger] idx[k] < ws.len() && tag_shaped(ws[idx[k]]) && tags@[k]@ == lowercase_of(ws[idx[k]]),
            forall|m: int|
                0 <= m < i && tag_shaped(#[trigger] ws[m]) ==> exists|k: int|
                    0 <= k < idx.len() && idx[k] == m,
        decreases toks.len() - i,
    {
        assert(toks[i as int]@ == ws[i as int]);
        let ghost old_idx = idx;
        if is_tag(&toks[i]) {
            let s = string_of(&toks[i]);
            let low = to_lowercase(s.as_str());
            tags.push(chars_of(low.as_str()));
            proof {
                idx = idx.push(i as int);
                assert(idx[idx.len() - 1] == i);
            }
        }
        proof {
            assert forall|m: int|
                0 <= m < i + 1 && tag_shaped(#[trigger] ws[m]) implies exists|k: int|
                    0 <= k < idx.len() && idx[k] == m by {
                if m < i {
                    let k = choose|k: int| 0 <= k < old_idx.len() && old_idx[k] == m;
                    assert(idx[k] == m);
                } else {
                    assert(idx[idx.len() - 1] == m);
                }
            }
        }
        i = i + 1;
    }
    let mut j: usize = 0;
    while j < queries.len()
        invariant
            qs == queries@.map_values(|q: String| q@),
            j <= queries.len(),
            tags.len() == idx.len(),
            forall|k: int| 0 <= k < idx.len() ==> 0 <= #[trigger] idx[k] < ws.len() && tag_shaped(ws[idx[k]]) && tags@[k]@ == lowercase_of(ws[idx[k]]),
            forall|m: int|
                0 <= m < ws.len() && tag_shaped(#[trigger] ws[m]) ==> exists|k: int|
                    0 <= k < idx.len() && idx[k] == m,
            ws == words(text@),
            forall|jj: int| 0 <= jj < j ==> !has_tag(text@, lowercase_of(#[trigger] qs[jj])),
        decreases queries.len() - j,
    {
        let q = to_lowercase(queries[j].as_str());
        let qv = chars_of(q.as_str());
        assert(qs[j as int] == queries@[j as int]@);
        let mut k: usize = 0;
        while k < tags.len()
            invariant
                k <= tags.len(),
                tags.len() == idx.len(),
                forall|kk: int| 0 <= kk < idx.len() ==> 0 <= #[trigger] idx[kk] < ws.len() && tag_shaped(ws[idx[kk]]) && tags@[kk]@ == lowercase_of(ws[idx[kk]]),
                ws == words(text@),
                qv@ == lowercase_of(qs[j as int]),
                j < queries.len(),
                qs == queries@.map_values(|q: String| q@),
                forall|kk: int| 0 <= kk < k ==> tags@[kk]@ != qv@,
            decreases tags.len() - k,
        {
            if chars_eq(&tags[k], &qv) {
                proof {
                    let m = idx[k as int];
                    assert(0 <= m < ws.len());
                    assert(tag_shaped(ws[m]) && lowercase_of(ws[m]) == qv@);
                    assert(has_tag(text@, lowercase_of(qs[j as int])));
                }
                return true;
            }
            k = k + 1;
        }
        proof {
            assert forall|m: int|
                0 <= m < ws.len() && tag_shaped(#[trigger] ws[m]) implies lowercase_of(ws[m]) != qv@ by {
                let kk = choose|kk: int| 0 <= kk < idx.len() && idx[kk] == m;
                assert(tags@[kk]@ == lowercase_of(ws[idx[kk]]));
            }
        }
        j = j + 1;
    }
    false
}

} // verus!
