//! The line files of bagg, calchemy and holler: one record per line, blank
//! lines ignored, rewritten whole with a `\n` after every line.
use vstd::prelude::*;
use crate::text::{chars_of, string_of, views, lines_of, lines_vec, trim, trim_chars, copy_chars, join_with, join_chars, chars_eq, split_nl};

verus! {

/// The lines of `ls` that hold more than whitespace, in order.
pub open spec fn keep_nonblank(ls: Seq<Seq<char>>) -> Seq<Seq<char>>
    decreases ls.len(),
{
    if ls.len() == 0 {
        seq![]
    } else if trim(ls.last()).len() > 0 {
        keep_nonblank(ls.drop_last()).push(ls.last())
    } else {
        keep_nonblank(ls.drop_last())
    }
}

/// The records of a line file: its lines that are not blank.
pub open spec fn record_lines(content: Seq<char>) -> Seq<Seq<char>> {
    keep_nonblank(lines_of(content))
}

/// The text of a line file holding `ls`: each line followed by `\n`.
pub open spec fn file_text_of(ls: Seq<Seq<char>>) -> Seq<char> {
    let body = join_with(ls, seq!['\n']);
    if body.len() == 0 {
        body
    } else {
        body.push('\n')
    }
}

/// A line a file can hold and give back: more than whitespace, no line
/// break, and no `\r` at its end.
#[verifier::opaque]
pub open spec fn storable(l: Seq<char>) -> bool {
    trim(l).len() > 0 && !l.contains('\n') && l.last() != '\r'
}

proof fn lemma_file_text_step(ls: Seq<Seq<char>>)
    requires
        ls.len() > 0,
        forall|i: int| 0 <= i < ls.len() ==> (#[trigger] ls[i]).len() > 0,
    ensures
        file_text_of(ls) == file_text_of(ls.drop_last()) + ls.last().push('\n'),
        file_text_of(ls.drop_last()).len() == 0 || file_text_of(ls.drop_last()).last() == '\n',
{
    let p = ls.drop_last();
    if ls.len() == 1 {
        assert(join_with(ls, seq!['\n']) == ls[0]);
        assert(file_text_of(ls) =~= file_text_of(p) + ls.last().push('\n'));
    } else {
        let j = join_with(p, seq!['\n']);
        assert(j.len() > 0) by {
            if p.len() == 1 {
                assert(p[0] == ls[0]);
            }
        }
        assert(file_text_of(ls) =~= file_text_of(p) + ls.last().push('\n'));
    }
}

/// Reading back a line file written from storable lines gives those lines,
/// in order.
pub proof fn law_file_text_reads_back(ls: Seq<Seq<char>>)
    requires
        forall|i: int| 0 <= i < ls.len() ==> storable(#[trigger] ls[i]),
    ensures
        record_lines(file_text_of(ls)) == ls,
    decreases ls.len(),
{
    reveal(storable);
    if ls.len() == 0 {
        assert(split_nl(seq![]) == seq![Seq::<char>::empty()]);
        assert(lines_of(seq![]) =~= Seq::<Seq<char>>::empty());
        assert(file_text_of(ls) =~= Seq::<char>::empty());
        assert(record_lines(file_text_of(ls)) =~= ls);
    } else {
        let p = ls.drop_last();
        assert forall|i: int| 0 <= i < p.len() implies storable(#[trigger] p[i]) by {
            assert(p[i] == ls[i]);
        }
        law_file_text_reads_back(p);
        assert forall|i: int| 0 <= i < ls.len() implies (#[trigger] ls[i]).len() > 0 by {
            assert(storable(ls[i]));
        }
        lemma_file_text_step(ls);
        let l = ls.last();
        assert(storable(ls[ls.len() - 1]));
        crate::text::lemma_lines_of_append_line(file_text_of(p), l);
        let q = lines_of(file_text_of(p));
        assert(q.push(l).drop_last() =~= q);
        assert(record_lines(file_text_of(ls)) =~= p.push(l));
        assert(p.push(l) =~= ls);
    }
}

/// Every record of a line file holds more than whitespace and no line break.
proof fn lemma_record_lines_shape(content: Seq<char>)
    ensures
        forall|i: int|
            0 <= i < record_lines(content).len() ==> trim(#[trigger] record_lines(content)[i]).len()
                > 0 && !record_lines(content)[i].contains('\n'),
{
    crate::text::lemma_lines_of_no_nl(content);
    lemma_keep_nonblank_shape(lines_of(content));
}

proof fn lemma_keep_nonblank_shape(ls: Seq<Seq<char>>)
    requires
        forall|i: int| 0 <= i < ls.len() ==> !(#[trigger] ls[i]).contains('\n'),
    ensures
        forall|i: int|
            0 <= i < keep_nonblank(ls).len() ==> trim(#[trigger] keep_nonblank(ls)[i]).len() > 0
                && !keep_nonblank(ls)[i].contains('\n'),
    decreases ls.len(),
{
    if ls.len() > 0 {
        let p = ls.drop_last();
        assert forall|i: int| 0 <= i < p.len() implies !(#[trigger] p[i]).contains('\n') by {
            assert(p[i] == ls[i]);
        }
        lemma_keep_nonblank_shape(p);
        assert(ls.last() == ls[ls.len() - 1]);
        let k = keep_nonblank(ls);
        let kp = keep_nonblank(p);
        assert forall|i: int| 0 <= i < k.len() implies trim(#[trigger] k[i]).len() > 0
            && !k[i].contains('\n') by {
            if trim(ls.last()).len() > 0 {
                assert(k == kp.push(ls.last()));
                if i < kp.len() {
                    assert(k[i] == kp[i]);
                }
            } else {
                assert(k == kp);
            }
        }
    }
}

pub open spec fn string_views(v: Seq<String>) -> Seq<Seq<char>> {
    Seq::new(v.len(), |i: int| v[i]@)
}

/// The nonblank lines of a file's text, as `Vec<Vec<char>>`.
pub fn record_lines_vec(content: &str) -> (r: Vec<Vec<char>>)
    ensures
        views(r@) == record_lines(content@),
{
    let v = chars_of(content);
    let ls = lines_vec(&v);
    let mut out: Vec<Vec<char>> = Vec::new();
    let mut i: usize = 0;
    while i < ls.len()
        invariant
            i <= ls.len(),
            views(ls@) == lines_of(v@),
            views(out@) == keep_nonblank(views(ls@).take(i as int)),
        decreases ls.len() - i,
    {
        assert(views(ls@).take(i + 1).drop_last() =~= views(ls@).take(i as int));
        assert(ls[i as int]@ == views(ls@)[i as int]);
        let ghost old_out = views(out@);
        let t = trim_chars(&ls[i]);
        if t.len() > 0 {
            out.push(copy_chars(&ls[i]));
            assert(views(out@) =~= old_out.push(views(ls@)[i as int]));
        }
        i = i + 1;
    }
    assert(views(ls@).take(i as int) =~= views(ls@));
    out
}

/// The nonblank lines of a file's text.
pub fn read_lines(content: &str) -> (r: Vec<String>)
    ensures
        string_views(r@) == record_lines(content@),
{
    let ls = record_lines_vec(content);
    let mut out: Vec<String> = Vec::new();
    let mut i: usize = 0;
    while i < ls.len()
        invariant
            i <= ls.len(),
            string_views(out@) == views(ls@).take(i as int),
        decreases ls.len() - i,
    {
        let ghost old_out = string_views(out@);
        assert(ls[i as int]@ == views(ls@)[i as int]);
        out.push(string_of(&ls[i]));
        assert(string_views(out@) =~= old_out.push(views(ls@)[i as int]));
        i = i + 1;
        assert(string_views(out@) =~= views(ls@).take(i as int));
    }
    assert(views(ls@).take(i as int) =~= views(ls@));
    out
}

/// The text of a file holding `lines`: each followed by `\n` (nothing for
/// no lines).
pub fn file_text(lines: &Vec<String>) -> (r: String)
    ensures
        r@ == file_text_of(string_views(lines@)),
{
    let mut vs: Vec<Vec<char>> = Vec::new();
    let mut i: usize = 0;
    while i < lines.len()
        invariant
            i <= lines.len(),
            views(vs@) == string_views(lines@).take(i as int),
        decreases lines.len() - i,
    {
        let ghost old_vs = views(vs@);
        assert(lines[i as int]@ == string_views(lines@)[i as int]);
        vs.push(chars_of(lines[i].as_str()));
        assert(views(vs@) =~= old_vs.push(string_views(lines@)[i as int]));
        i = i + 1;
        assert(views(vs@) =~= string_views(lines@).take(i as int));
    }
    assert(string_views(lines@).take(i as int) =~= string_views(lines@));
    let nl = vec!['\n'];
    assert(nl@ =~= seq!['\n']);
    let mut body = join_chars(&vs, &nl);
    if body.len() > 0 {
        body.push('\n');
    }
    string_of(&body)
}

/// `ls` without its first line equal to `raw` (unchanged if there is none).
pub open spec fn remove_first(ls: Seq<Seq<char>>, raw: Seq<char>) -> Seq<Seq<char>> {
    if exists|i: int| 0 <= i < ls.len() && ls[i] == raw {
        let i = choose|i: int| 0 <= i < ls.len() && ls[i] == raw && forall|j: int| 0 <= j < i ==> ls[j] != raw;
        ls.remove(i)
    } else {
        ls
    }
}

/// `ls` with its first line equal to `old` replaced by `new` (unchanged if
/// there is none).
pub open spec fn replace_first(ls: Seq<Seq<char>>, old: Seq<char>, new: Seq<char>) -> Seq<Seq<char>> {
    if exists|i: int| 0 <= i < ls.len() && ls[i] == old {
        let i = choose|i: int| 0 <= i < ls.len() && ls[i] == old && forall|j: int| 0 <= j < i ==> ls[j] != old;
        ls.update(i, new)
    } else {
        ls
    }
}

proof fn lemma_remove_storable(ls: Seq<Seq<char>>, k: int)
    requires
        0 <= k < ls.len(),
        forall|i: int| 0 <= i < ls.len() ==> storable(#[trigger] ls[i]),
    ensures
        forall|i: int| 0 <= i < ls.remove(k).len() ==> storable(#[trigger] ls.remove(k)[i]),
{
    assert forall|i: int| 0 <= i < ls.remove(k).len() implies storable(#[trigger] ls.remove(k)[i]) by {
        if i < k {
            assert(ls.remove(k)[i] == ls[i]);
        } else {
            assert(ls.remove(k)[i] == ls[i + 1]);
        }
    }
}

proof fn lemma_update_storable(ls: Seq<Seq<char>>, k: int, new: Seq<char>)
    requires
        0 <= k < ls.len(),
        forall|i: int| 0 <= i < ls.len() ==> storable(#[trigger] ls[i]),
        storable(new),
    ensures
        forall|i: int| 0 <= i < ls.update(k, new).len() ==> storable(#[trigger] ls.update(k, new)[i]),
{
    assert forall|i: int| 0 <= i < ls.update(k, new).len() implies storable(
        #[trigger] ls.update(k, new)[i],
    ) by {
        if i != k {
            assert(ls.update(k, new)[i] == ls[i]);
        }
    }
}

/// The records of a file, where none ends in a `\r`, are storable.
proof fn lemma_records_storable(content: Seq<char>)
    requires
        forall|i: int|
            0 <= i < record_lines(content).len() ==> #[trigger] record_lines(content)[i].last()
                != '\r',
    ensures
        forall|i: int| 0 <= i < record_lines(content).len() ==> storable(#[trigger] record_lines(content)[i]),
{
    reveal(storable);
    lemma_record_lines_shape(content);
    assert forall|i: int| 0 <= i < record_lines(content).len() implies storable(
        #[trigger] record_lines(content)[i],
    ) by {
        assert(record_lines(content)[i].last() != '\r');
    }
}

/// Where `ls` holds `raw` at `w`, its first `raw` is at some `k <= w`.
proof fn lemma_first_index(ls: Seq<Seq<char>>, raw: Seq<char>, w: int) -> (k: int)
    requires
        0 <= w < ls.len(),
        ls[w] == raw,
    ensures
        0 <= k <= w,
        ls[k] == raw,
        forall|j: int| 0 <= j < k ==> ls[j] != raw,
    decreases w,
{
    if exists|j: int| 0 <= j < w && ls[j] == raw {
        let j = choose|j: int| 0 <= j < w && ls[j] == raw;
        lemma_first_index(ls, raw, j)
    } else {
        w
    }
}

proof fn lemma_remove_first_reads_back(ls: Seq<Seq<char>>, raw: Seq<char>)
    requires
        forall|i: int| 0 <= i < ls.len() ==> storable(#[trigger] ls[i]),
    ensures
        record_lines(file_text_of(remove_first(ls, raw))) == remove_first(ls, raw),
{
    if exists|i: int| 0 <= i < ls.len() && ls[i] == raw {
        let w = choose|i: int| 0 <= i < ls.len() && ls[i] == raw;
        let k = lemma_first_index(ls, raw, w);
        let c = choose|i: int| 0 <= i < ls.len() && ls[i] == raw && forall|j: int| 0 <= j < i ==> ls[j] != raw;
        assert(c == k) by {
            if c < k {
                assert(ls[c] != raw);
            } else if k < c {
                assert(ls[k] != raw);
            }
        }
        lemma_remove_storable(ls, k);
        assert(remove_first(ls, raw) == ls.remove(k));
    }
    law_file_text_reads_back(remove_first(ls, raw));
}

proof fn lemma_replace_first_reads_back(ls: Seq<Seq<char>>, old: Seq<char>, new: Seq<char>)
    requires
        forall|i: int| 0 <= i < ls.len() ==> storable(#[trigger] ls[i]),
        storable(new),
    ensures
        record_lines(file_text_of(replace_first(ls, old, new))) == replace_first(ls, old, new),
{
    if exists|i: int| 0 <= i < ls.len() && ls[i] == old {
        let w = choose|i: int| 0 <= i < ls.len() && ls[i] == old;
        let k = lemma_first_index(ls, old, w);
        let c = choose|i: int| 0 <= i < ls.len() && ls[i] == old && forall|j: int| 0 <= j < i ==> ls[j] != old;
        assert(c == k) by {
            if c < k {
                assert(ls[c] != old);
            } else if k < c {
                assert(ls[k] != old);
            }
        }
        lemma_update_storable(ls, k, new);
        assert(replace_first(ls, old, new) == ls.update(k, new));
    }
    law_file_text_reads_back(replace_first(ls, old, new));
}

/// After `rm`, the file reads back as its old records without the removed
/// one, where no record ends in a `\r`.
pub proof fn law_remove_line_reads_back(content: Seq<char>, raw: Seq<char>)
    requires
        forall|i: int|
            0 <= i < record_lines(content).len() ==> #[trigger] record_lines(content)[i].last()
                != '\r',
    ensures
        record_lines(file_text_of(remove_first(record_lines(content), raw))) == remove_first(
            record_lines(content),
            raw,
        ),
{
    lemma_records_storable(content);
    lemma_remove_first_reads_back(record_lines(content), raw);
}

/// After an edit, the file reads back as its old records with the edited
/// one replaced, where the new line is storable and no record ends in a
/// `\r`.
pub proof fn law_replace_line_reads_back(content: Seq<char>, old: Seq<char>, new: Seq<char>)
    requires
        forall|i: int|
            0 <= i < record_lines(content).len() ==> #[trigger] record_lines(content)[i].last()
                != '\r',
        storable(new),
    ensures
        record_lines(file_text_of(replace_first(record_lines(content), old, new))) == replace_first(
            record_lines(content),
            old,
            new,
        ),
{
    lemma_records_storable(content);
    lemma_replace_first_reads_back(record_lines(content), old, new);
}

/// Position of the first line equal to `raw`.
fn position_of(ls: &Vec<String>, raw: &str) -> (r: Option<usize>)
    ensures
        match r {
            Some(i) => i < ls.len() && ls@[i as int]@ == raw@ && forall|j: int| 0 <= j < i ==> ls@[j]@ != raw@,
            None => forall|j: int| 0 <= j < ls.len() ==> ls@[j]@ != raw@,
        },
{
    let rv = chars_of(raw);
    let mut i: usize = 0;
    while i < ls.len()
        invariant
            i <= ls.len(),
            rv@ == raw@,
            forall|j: int| 0 <= j < i ==> ls@[j]@ != raw@,
        decreases ls.len() - i,
    {
        let lv = chars_of(ls[i].as_str());
        if chars_eq(&lv, &rv) {
            return Some(i);
        }
        i = i + 1;
    }
    None
}

/// A line file's new text after removing the first line exactly equal to
/// `raw` (the text is rewritten from its nonblank lines).
pub fn remove_line(content: &str, raw: &str) -> (r: String)
    ensures
        r@ == file_text_of(remove_first(record_lines(content@), raw@)),
{
    let mut lines = read_lines(content);
    let ghost ls = string_views(lines@);
    match position_of(&lines, raw) {
        Some(i) => {
            proof {
                let j = choose|j: int| 0 <= j < ls.len() && ls[j] == raw@ && forall|k: int| 0 <= k < j ==> ls[k] != raw@;
                assert(ls[i as int] == raw@);
                if j < i {
                    assert(ls[j] != raw@);
                } else if i < j {
                    assert(ls[i as int] != raw@);
                }
            }
            lines.remove(i);
            assert(string_views(lines@) =~= ls.remove(i as int));
        },
        None => {
            assert(!exists|j: int| 0 <= j < ls.len() && ls[j] == raw@);
        },
    }
    file_text(&lines)
}

/// A line file's new text after replacing the first line exactly equal to
/// `old_raw` with `new_line`, preserving file order.
pub fn replace_line(content: &str, old_raw: &str, new_line: &str) -> (r: String)
    ensures
        r@ == file_text_of(replace_first(record_lines(content@), old_raw@, new_line@)),
{
    let mut lines = read_lines(content);
    let ghost ls = string_views(lines@);
    match position_of(&lines, old_raw) {
        Some(i) => {
            proof {
                let j = choose|j: int| 0 <= j < ls.len() && ls[j] == old_raw@ && forall|k: int| 0 <= k < j ==> ls[k] != old_raw@;
                assert(ls[i as int] == old_raw@);
                if j < i {
                    assert(ls[j] != old_raw@);
                } else if i < j {
                    assert(ls[i as int] != old_raw@);
                }
            }
            lines.set(i, String::from_str(new_line));
            assert(string_views(lines@) =~= ls.update(i as int, new_line@));
        },
        None => {
            assert(!exists|j: int| 0 <= j < ls.len() && ls[j] == old_raw@);
        },
    }
    file_text(&lines)
}

} // verus!
