use vstd::prelude::*;

verus! {

/// Unicode `White_Space` characters, the set `str::split_whitespace` and
/// `str::trim` split and strip on.
pub open spec fn is_ws(c: char) -> bool {
    let u = c as u32;
    ||| 0x09 <= u <= 0x0D
    ||| u == 0x20
    ||| u == 0x85
    ||| u == 0xA0
    ||| u == 0x1680
    ||| 0x2000 <= u <= 0x200A
    ||| u == 0x2028
    ||| u == 0x2029
    ||| u == 0x202F
    ||| u == 0x205F
    ||| u == 0x3000
}

pub fn is_whitespace(c: char) -> (b: bool)
    ensures
        b == is_ws(c),
{
    let u = c as u32;
    (0x09 <= u && u <= 0x0D) || u == 0x20 || u == 0x85 || u == 0xA0 || u == 0x1680 || (0x2000
        <= u && u <= 0x200A) || u == 0x2028 || u == 0x2029 || u == 0x202F || u == 0x205F || u
        == 0x3000
}

/// The abstract contents of a list of character vectors.
pub open spec fn views(v: Seq<Vec<char>>) -> Seq<Seq<char>> {
    Seq::new(v.len(), |i: int| v[i]@)
}

/// The characters of `s`, in order.
pub fn chars_of(s: &str) -> (v: Vec<char>)
    ensures
        v@ == s@,
{
    let mut v: Vec<char> = Vec::new();
    for c in it: s.chars()
        invariant
            v@ == it.seq().take(it.index() as int),
    {
        v.push(c);
    }
    v
}

/// `String::push`: appends one character.
#[verifier::external_body]
fn push_char(s: &mut String, c: char)
    ensures
        final(s)@ == old(s)@.push(c),
{
    s.push(c);
}

/// The string made of the characters of `v`.
pub fn string_of(v: &Vec<char>) -> (s: String)
    ensures
        s@ == v@,
{
    let mut s = String::new();
    let mut i: usize = 0;
    while i < v.len()
        invariant
            i <= v.len(),
            s@ == v@.take(i as int),
        decreases v.len() - i,
    {
        push_char(&mut s, v[i]);
        i = i + 1;
        assert(v@.take(i as int) =~= v@.take((i - 1) as int).push(v@[i - 1]));
    }
    assert(v@.take(i as int) =~= v@);
    s
}

/// What `str::to_lowercase` returns for a string: its Unicode full
/// lowercase mapping, which can depend on a character's neighbours (a
/// final capital sigma maps to `ς`).
pub uninterp spec fn lowercase_of(s: Seq<char>) -> Seq<char>;

/// ASCII text with no uppercase letter in it.
pub open spec fn is_lower_ascii(s: Seq<char>) -> bool {
    forall|i: int| 0 <= i < s.len() ==> (#[trigger] s[i] as u32) < 128 && !(65 <= s[i] as u32 <= 90)
}

/// What `str::to_lowercase` gives for `s`, with the one case settled that
/// needs no tables: text that is ASCII without uppercase letters is its
/// own lowercase.
pub open spec fn lower(s: Seq<char>) -> Seq<char> {
    if is_lower_ascii(s) {
        s
    } else {
        lowercase_of(s)
    }
}

/// `str::to_lowercase`. Trusted: the result is the lowercase mapping of the
/// argument (named `lowercase_of`, a function of the argument alone), and
/// ASCII text without uppercase letters maps to itself (those characters
/// have no lowercase mapping other than themselves).
#[verifier::external_body]
pub(crate) fn to_lowercase(s: &str) -> (r: String)
    ensures
        r@ == lowercase_of(s@),
        is_lower_ascii(s@) ==> r@ == s@,
{
    s.to_lowercase()
}

/// Whitespace-separated words of `s`, as `str::split_whitespace` yields
/// them: maximal runs of non-whitespace characters, in order.
pub open spec fn words(s: Seq<char>) -> Seq<Seq<char>>
    decreases s.len(),
{
    if s.len() == 0 {
        seq![]
    } else {
        let prev = words(s.drop_last());
        let c = s.last();
        if is_ws(c) {
            prev
        } else if s.len() >= 2 && !is_ws(s[s.len() - 2]) {
            prev.update(prev.len() - 1, prev.last().push(c))
        } else {
            prev.push(seq![c])
        }
    }
}

pub proof fn lemma_words_nonempty(s: Seq<char>)
    requires
        s.len() > 0,
        !is_ws(s.last()),
    ensures
        words(s).len() > 0,
        words(s).last().len() > 0,
    decreases s.len(),
{
    if s.len() >= 2 && !is_ws(s[s.len() - 2]) {
        lemma_words_nonempty(s.drop_last());
    }
}

/// Splits `s` on whitespace, like `str::split_whitespace`.
pub fn split_ws(s: &Vec<char>) -> (r: Vec<Vec<char>>)
    ensures
        views(r@) == words(s@),
{
    let mut out: Vec<Vec<char>> = Vec::new();
    let mut i: usize = 0;
    while i < s.len()
        invariant
            i <= s.len(),
            views(out@) == words(s@.take(i as int)),
        decreases s.len() - i,
    {
        let c = s[i];
        let ghost pre = s@.take(i as int);
        let ghost cur = s@.take(i + 1);
        assert(cur.drop_last() =~= pre);
        if is_whitespace(c) {
        } else if i >= 1 && !is_whitespace(s[i - 1]) {
            proof {
                lemma_words_nonempty(pre);
            }
            let mut w = out.pop().unwrap();
            w.push(c);
            out.push(w);
            assert(views(out@) =~= words(cur));
        } else {
            let mut w: Vec<char> = Vec::new();
            w.push(c);
            out.push(w);
            assert(views(out@) =~= words(cur));
        }
        i = i + 1;
    }
    assert(s@.take(i as int) =~= s@);
    out
}


/// `ws` joined with `sep` between consecutive elements.
pub open spec fn join_with(ws: Seq<Seq<char>>, sep: Seq<char>) -> Seq<char>
    decreases ws.len(),
{
    if ws.len() == 0 {
        seq![]
    } else if ws.len() == 1 {
        ws[0]
    } else {
        join_with(ws.drop_last(), sep) + sep + ws.last()
    }
}

/// `ws` joined with single spaces, like `slice::join(" ")`.
pub open spec fn join_sp(ws: Seq<Seq<char>>) -> Seq<char> {
    join_with(ws, seq![' '])
}

/// Joins `ws` with `sep` between consecutive elements.
pub fn join_chars(ws: &Vec<Vec<char>>, sep: &Vec<char>) -> (r: Vec<char>)
    ensures
        r@ == join_with(views(ws@), sep@),
{
    let mut out: Vec<char> = Vec::new();
    let mut i: usize = 0;
    while i < ws.len()
        invariant
            i <= ws.len(),
            out@ == join_with(views(ws@).take(i as int), sep@),
        decreases ws.len() - i,
    {
        let ghost pre = views(ws@).take(i as int);
        let ghost cur = views(ws@).take(i + 1);
        assert(cur.drop_last() =~= pre);
        if i > 0 {
            let mut k: usize = 0;
            let ghost base = out@;
            while k < sep.len()
                invariant
                    k <= sep.len(),
                    out@ == base + sep@.take(k as int),
                decreases sep.len() - k,
            {
                out.push(sep[k]);
                k = k + 1;
                assert(base + sep@.take(k as int) =~= (base + sep@.take(k - 1)).push(sep@[k - 1]));
            }
            assert(sep@.take(k as int) =~= sep@);
        }
        let ghost base2 = out@;
        let w = &ws[i];
        let mut k: usize = 0;
        while k < w.len()
            invariant
                k <= w.len(),
                out@ == base2 + w@.take(k as int),
            decreases w.len() - k,
        {
            out.push(w[k]);
            k = k + 1;
            assert(base2 + w@.take(k as int) =~= (base2 + w@.take(k - 1)).push(w@[k - 1]));
        }
        assert(w@.take(k as int) =~= w@);
        assert(cur.last() == w@);
        if i == 0 {
            assert(out@ =~= join_with(cur, sep@));
        } else {
            assert(out@ =~= join_with(cur, sep@));
        }
        i = i + 1;
    }
    assert(views(ws@).take(i as int) =~= views(ws@));
    out
}

/// A word: nonempty, with no whitespace in it.
pub open spec fn is_word(w: Seq<char>) -> bool {
    w.len() > 0 && forall|i: int| 0 <= i < w.len() ==> !is_ws(#[trigger] w[i])
}

pub proof fn lemma_words_of_word(w: Seq<char>)
    requires
        is_word(w),
    ensures
        words(w) == seq![w],
    decreases w.len(),
{
    if w.len() == 1 {
        assert(w.drop_last() =~= Seq::<char>::empty());
        assert(words(w.drop_last()) =~= Seq::<Seq<char>>::empty());
        assert(!is_ws(w.last()));
        assert(w =~= seq![w[0]]);
        assert(words(w) =~= seq![w]);
    } else {
        let p = w.drop_last();
        assert(is_word(p));
        lemma_words_of_word(p);
        assert(!is_ws(w.last()));
        assert(!is_ws(w[w.len() - 2]));
        assert(p.push(w.last()) =~= w);
        assert(words(w) =~= seq![w]);
    }
}

/// Appending a space and a word to a text adds exactly that word.
pub proof fn lemma_words_append_word(s: Seq<char>, w: Seq<char>)
    requires
        is_word(w),
    ensures
        words(s + seq![' '] + w) == words(s).push(w),
    decreases w.len(),
{
    let t = s + seq![' '];
    assert(t.drop_last() =~= s);
    assert(is_ws(t.last()));
    assert(words(t) == words(s));
    let u = t + w;
    assert(!is_ws(u.last()));
    if w.len() == 1 {
        assert(u.drop_last() =~= t);
        assert(u[u.len() - 2] == ' ');
        assert(w =~= seq![w[0]]);
        assert(words(u) =~= words(s).push(w));
    } else {
        let p = w.drop_last();
        assert(is_word(p));
        lemma_words_append_word(s, p);
        assert(u.drop_last() =~= t + p);
        assert(u[u.len() - 2] == p.last());
        assert(!is_ws(p.last()));
        assert(p.push(w.last()) =~= w);
        assert(words(u) =~= words(s).push(w));
    }
}

/// Each of the words of a text is a word.
pub proof fn lemma_words_are_words(s: Seq<char>)
    ensures
        forall|i: int| 0 <= i < words(s).len() ==> is_word(#[trigger] words(s)[i]),
    decreases s.len(),
{
    if s.len() > 0 {
        let p = s.drop_last();
        lemma_words_are_words(p);
        let prev = words(p);
        let c = s.last();
        if is_ws(c) {
        } else if s.len() >= 2 && !is_ws(s[s.len() - 2]) {
            lemma_words_nonempty(p);
            let w = prev.last().push(c);
            assert(is_word(prev.last()));
            assert(is_word(w)) by {
                assert forall|k: int| 0 <= k < w.len() implies !is_ws(#[trigger] w[k]) by {
                    if k < w.len() - 1 {
                        assert(w[k] == prev.last()[k]);
                    }
                }
            }
            assert forall|i: int| 0 <= i < words(s).len() implies is_word(#[trigger] words(s)[i]) by {
                if i < prev.len() - 1 {
                    assert(words(s)[i] == prev[i]);
                }
            }
        } else {
            assert(is_word(seq![c]));
            assert forall|i: int| 0 <= i < words(s).len() implies is_word(#[trigger] words(s)[i]) by {
                if i < prev.len() {
                    assert(words(s)[i] == prev[i]);
                }
            }
        }
    }
}

/// Joining two nonempty lists with single spaces: the two joins with a
/// space between them.
pub proof fn lemma_join_sp_concat(a: Seq<Seq<char>>, b: Seq<Seq<char>>)
    requires
        a.len() > 0,
        b.len() > 0,
    ensures
        join_sp(a + b) == join_sp(a) + seq![' '] + join_sp(b),
    decreases b.len(),
{
    if b.len() == 1 {
        assert((a + b).drop_last() =~= a);
        assert((a + b).last() == b[0]);
    } else {
        let b1 = b.drop_last();
        lemma_join_sp_concat(a, b1);
        assert((a + b).drop_last() =~= a + b1);
        assert((a + b).last() == b.last());
        assert(join_sp(a + b) =~= join_sp(a) + seq![' '] + join_sp(b));
    }
}

/// `a` comes strictly before `b` in the order of `str`: compared character
/// by character by code point, a proper prefix first.
pub open spec fn text_lt(a: Seq<char>, b: Seq<char>) -> bool
    decreases a.len(),
{
    if a.len() == 0 {
        b.len() > 0
    } else if b.len() == 0 {
        false
    } else if (a[0] as u32) != (b[0] as u32) {
        (a[0] as u32) < (b[0] as u32)
    } else {
        text_lt(a.drop_first(), b.drop_first())
    }
}

/// A property of characters that holds of a space and of every character
/// of every word holds of every character of the words joined by spaces.
pub proof fn lemma_join_sp_chars(ws: Seq<Seq<char>>, p: spec_fn(char) -> bool)
    requires
        p(' '),
        forall|i: int, j: int| 0 <= i < ws.len() && 0 <= j < ws[i].len() ==> p(#[trigger] ws[i][j]),
    ensures
        forall|k: int| 0 <= k < join_sp(ws).len() ==> p(#[trigger] join_sp(ws)[k]),
    decreases ws.len(),
{
    if ws.len() == 1 {
        assert forall|k: int| 0 <= k < join_sp(ws).len() implies p(#[trigger] join_sp(ws)[k]) by {
            assert(join_sp(ws)[k] == ws[0][k]);
        }
    } else if ws.len() > 1 {
        let q = ws.drop_last();
        assert forall|i: int, j: int| 0 <= i < q.len() && 0 <= j < q[i].len() implies p(
            #[trigger] q[i][j],
        ) by {
            assert(q[i] == ws[i]);
        }
        lemma_join_sp_chars(q, p);
        let a = join_sp(q);
        let l = ws.last();
        assert forall|k: int| 0 <= k < join_sp(ws).len() implies p(#[trigger] join_sp(ws)[k]) by {
            if k < a.len() {
                assert(join_sp(ws)[k] == a[k]);
            } else if k > a.len() {
                assert(join_sp(ws)[k] == l[k - a.len() - 1]);
                assert(l == ws[ws.len() - 1]);
            }
        }
    }
}

/// Nonempty words joined by spaces: the text starts with the first word's
/// first character and ends with the last word's last, and with two words
/// or more there is a space just after the first.
pub proof fn lemma_join_sp_ends(ws: Seq<Seq<char>>)
    requires
        ws.len() > 0,
        forall|i: int| 0 <= i < ws.len() ==> (#[trigger] ws[i]).len() > 0,
    ensures
        join_sp(ws).len() > 0,
        join_sp(ws)[0] == ws[0][0],
        join_sp(ws).last() == ws.last().last(),
        ws.len() >= 2 ==> join_sp(ws).len() > ws[0].len() && join_sp(ws)[ws[0].len() as int]
            == ' ',
    decreases ws.len(),
{
    if ws.len() >= 2 {
        lemma_join_sp_first_len(ws);
    }
    if ws.len() > 1 {
        let q = ws.drop_last();
        assert forall|i: int| 0 <= i < q.len() implies (#[trigger] q[i]).len() > 0 by {
            assert(q[i] == ws[i]);
        }
        lemma_join_sp_ends(q);
        assert(ws[ws.len() - 1].len() > 0);
        let k = ws[0].len() as int;
        assert(join_sp(ws) == join_sp(q) + seq![' '] + ws.last());
        if q.len() == 1 {
            assert(join_sp(q) == ws[0]);
            assert(join_sp(ws)[k] == ' ');
        } else {
            assert(q[0] == ws[0]);
            assert(k < join_sp(q).len()) by {
                lemma_join_sp_first_len(q);
            }
            assert(join_sp(ws)[k] == join_sp(q)[k]);
        }
    }
}

/// The join of two words or more is longer than the first word.
proof fn lemma_join_sp_first_len(ws: Seq<Seq<char>>)
    requires
        ws.len() >= 2,
    ensures
        join_sp(ws).len() > ws[0].len(),
    decreases ws.len(),
{
    let q = ws.drop_last();
    if q.len() >= 2 {
        lemma_join_sp_first_len(q);
    } else {
        assert(join_sp(q) == q[0]);
    }
    assert(q[0] == ws[0]);
    assert(join_sp(ws) == join_sp(q) + seq![' '] + ws.last());
}

/// Joining words with single spaces and splitting again gives them back.
pub proof fn lemma_words_join(ws: Seq<Seq<char>>)
    requires
        forall|i: int| 0 <= i < ws.len() ==> is_word(#[trigger] ws[i]),
    ensures
        words(join_sp(ws)) == ws,
    decreases ws.len(),
{
    if ws.len() == 0 {
    } else if ws.len() == 1 {
        lemma_words_of_word(ws[0]);
        assert(seq![ws[0]] =~= ws);
    } else {
        let p = ws.drop_last();
        lemma_words_join(p);
        lemma_words_append_word(join_sp(p), ws.last());
        assert(p.push(ws.last()) =~= ws);
    }
}

pub open spec fn trim_start(s: Seq<char>) -> Seq<char>
    decreases s.len(),
{
    if s.len() > 0 && is_ws(s[0]) {
        trim_start(s.drop_first())
    } else {
        s
    }
}

pub open spec fn trim_end(s: Seq<char>) -> Seq<char>
    decreases s.len(),
{
    if s.len() > 0 && is_ws(s.last()) {
        trim_end(s.drop_last())
    } else {
        s
    }
}

/// `str::trim`: leading and trailing whitespace removed.
pub open spec fn trim(s: Seq<char>) -> Seq<char> {
    trim_end(trim_start(s))
}

pub fn trim_start_chars(s: &Vec<char>) -> (r: Vec<char>)
    ensures
        r@ == trim_start(s@),
{
    let mut i: usize = 0;
    assert(s@.subrange(0, s@.len() as int) =~= s@);
    while i < s.len() && is_whitespace(s[i])
        invariant
            i <= s.len(),
            trim_start(s@) == trim_start(s@.subrange(i as int, s@.len() as int)),
        decreases s.len() - i,
    {
        assert(s@.subrange(i as int, s@.len() as int).drop_first() =~= s@.subrange(i + 1, s@.len() as int));
        i = i + 1;
    }
    let mut r: Vec<char> = Vec::new();
    let mut k: usize = i;
    while k < s.len()
        invariant
            i <= k <= s.len(),
            r@ == s@.subrange(i as int, k as int),
        decreases s.len() - k,
    {
        r.push(s[k]);
        k = k + 1;
        assert(r@ =~= s@.subrange(i as int, k as int));
    }
    r
}

pub fn trim_end_chars(s: &Vec<char>) -> (r: Vec<char>)
    ensures
        r@ == trim_end(s@),
{
    let mut j: usize = s.len();
    assert(s@.take(j as int) =~= s@);
    while j > 0 && is_whitespace(s[j - 1])
        invariant
            j <= s.len(),
            trim_end(s@) == trim_end(s@.take(j as int)),
        decreases j,
    {
        assert(s@.take(j as int).drop_last() =~= s@.take(j - 1));
        j = j - 1;
    }
    let mut r: Vec<char> = Vec::new();
    let mut k: usize = 0;
    while k < j
        invariant
            k <= j <= s.len(),
            r@ == s@.take(k as int),
        decreases j - k,
    {
        r.push(s[k]);
        k = k + 1;
        assert(r@ =~= s@.take(k as int));
    }
    r
}

pub fn trim_chars(s: &Vec<char>) -> (r: Vec<char>)
    ensures
        r@ == trim(s@),
{
    let a = trim_start_chars(s);
    trim_end_chars(&a)
}

/// Copies `s`.
pub fn copy_chars(s: &Vec<char>) -> (r: Vec<char>)
    ensures
        r@ == s@,
{
    let mut r: Vec<char> = Vec::new();
    let mut k: usize = 0;
    while k < s.len()
        invariant
            k <= s.len(),
            r@ == s@.take(k as int),
        decreases s.len() - k,
    {
        r.push(s[k]);
        k = k + 1;
        assert(r@ =~= s@.take(k as int));
    }
    assert(r@ =~= s@);
    r
}

/// `s[from..to]` by character positions.
pub fn slice_chars(s: &Vec<char>, from: usize, to: usize) -> (r: Vec<char>)
    requires
        from <= to <= s.len(),
    ensures
        r@ == s@.subrange(from as int, to as int),
{
    let mut r: Vec<char> = Vec::new();
    let mut k: usize = from;
    while k < to
        invariant
            from <= k <= to <= s.len(),
            r@ == s@.subrange(from as int, k as int),
        decreases to - k,
    {
        r.push(s[k]);
        k = k + 1;
        assert(r@ =~= s@.subrange(from as int, k as int));
    }
    r
}

/// Appends `t` to `out`.
pub fn append_chars(out: &mut Vec<char>, t: &Vec<char>)
    ensures
        final(out)@ == old(out)@ + t@,
{
    let ghost base = out@;
    let mut k: usize = 0;
    while k < t.len()
        invariant
            k <= t.len(),
            out@ == base + t@.take(k as int),
        decreases t.len() - k,
    {
        out.push(t[k]);
        k = k + 1;
        assert(base + t@.take(k as int) =~= (base + t@.take(k - 1)).push(t@[k - 1]));
    }
    assert(t@.take(k as int) =~= t@);
}

/// Appends the characters of `t` to `out`.
pub fn append_str(out: &mut Vec<char>, t: &str)
    ensures
        final(out)@ == old(out)@ + t@,
{
    let v = chars_of(t);
    append_chars(out, &v);
}

/// Character-wise equality.
pub fn chars_eq(a: &Vec<char>, b: &Vec<char>) -> (r: bool)
    ensures
        r == (a@ == b@),
{
    if a.len() != b.len() {
        return false;
    }
    let mut i: usize = 0;
    while i < a.len()
        invariant
            i <= a.len() == b.len(),
            forall|k: int| 0 <= k < i ==> a@[k] == b@[k],
        decreases a.len() - i,
    {
        if a[i] != b[i] {
            return false;
        }
        i = i + 1;
    }
    assert(a@ =~= b@);
    true
}

/// Equality of `a` with the characters of `lit`.
pub fn eq_str(a: &Vec<char>, lit: &str) -> (r: bool)
    ensures
        r == (a@ == lit@),
{
    let b = chars_of(lit);
    chars_eq(a, &b)
}

/// `pat` occurs in `s` starting at position `i`.
pub open spec fn occurs_at(s: Seq<char>, pat: Seq<char>, i: int) -> bool {
    0 <= i && i + pat.len() <= s.len() && s.subrange(i, i + pat.len()) == pat
}

/// Whether `pat` occurs in `s` at position `i`.
pub fn matches_at(s: &Vec<char>, pat: &Vec<char>, i: usize) -> (r: bool)
    ensures
        r == occurs_at(s@, pat@, i as int),
{
    if i > s.len() || pat.len() > s.len() - i {
        return false;
    }
    let mut k: usize = 0;
    while k < pat.len()
        invariant
            k <= pat.len(),
            i + pat.len() <= s.len(),
            forall|j: int| 0 <= j < k ==> s@[i + j] == pat@[j],
        decreases pat.len() - k,
    {
        if s[i + k] != pat[k] {
            assert(s@.subrange(i as int, i + pat.len())[k as int] != pat@[k as int]);
            return false;
        }
        k = k + 1;
    }
    assert(s@.subrange(i as int, i + pat.len()) =~= pat@);
    true
}

/// Position of the first occurrence of `pat` in `s`, like `str::find`.
pub fn find_first(s: &Vec<char>, pat: &Vec<char>) -> (r: Option<usize>)
    ensures
        match r {
            Some(i) => occurs_at(s@, pat@, i as int) && forall|j: int|
                0 <= j < i ==> !occurs_at(s@, pat@, j),
            None => forall|j: int| !occurs_at(s@, pat@, j),
        },
{
    let mut i: usize = 0;
    while i < s.len()
        invariant
            i <= s.len(),
            forall|j: int| 0 <= j < i ==> !occurs_at(s@, pat@, j),
        decreases s.len() - i,
    {
        if matches_at(s, pat, i) {
            return Some(i);
        }
        i = i + 1;
    }
    if matches_at(s, pat, i) {
        return Some(i);
    }
    assert forall|j: int| !occurs_at(s@, pat@, j) by {
        if 0 <= j && j + pat@.len() <= s@.len() {
            assert(j < i || j == i);
        }
    }
    None
}

/// Position of the last occurrence of `pat` in `s`, like `str::rfind`.
pub fn find_last(s: &Vec<char>, pat: &Vec<char>) -> (r: Option<usize>)
    ensures
        match r {
            Some(i) => occurs_at(s@, pat@, i as int) && forall|j: int|
                i < j ==> !occurs_at(s@, pat@, j),
            None => forall|j: int| !occurs_at(s@, pat@, j),
        },
{
    let mut i: usize = s.len();
    if matches_at(s, pat, i) {
        return Some(i);
    }
    while i > 0
        invariant
            i <= s.len(),
            forall|j: int| i <= j ==> !occurs_at(s@, pat@, j),
        decreases i,
    {
        if matches_at(s, pat, i - 1) {
            return Some(i - 1);
        }
        i = i - 1;
    }
    None
}


/// Number of bytes UTF-8 takes for `c` (what `char::len_utf8` returns).
pub open spec fn utf8_len(c: char) -> nat {
    let u = c as u32;
    if u < 0x80 {
        1
    } else if u < 0x800 {
        2
    } else if u < 0x10000 {
        3
    } else {
        4
    }
}

/// Length in bytes of the UTF-8 encoding of `s` (what `str::len` returns).
pub open spec fn byte_len(s: Seq<char>) -> nat
    decreases s.len(),
{
    if s.len() == 0 {
        0
    } else {
        byte_len(s.drop_last()) + utf8_len(s.last())
    }
}

pub fn char_utf8_len(c: char) -> (n: usize)
    ensures
        n == utf8_len(c),
{
    let u = c as u32;
    if u < 0x80 {
        1
    } else if u < 0x800 {
        2
    } else if u < 0x10000 {
        3
    } else {
        4
    }
}

pub proof fn lemma_byte_len_mono(s: Seq<char>, i: int, j: int)
    requires
        0 <= i < j <= s.len(),
    ensures
        byte_len(s.take(i)) < byte_len(s.take(j)),
    decreases j - i,
{
    assert(s.take(j).drop_last() =~= s.take(j - 1));
    if i < j - 1 {
        lemma_byte_len_mono(s, i, j - 1);
    }
}

/// Splits `s` at every `\n`, keeping empty pieces (as `str::split('\n')`).
pub open spec fn split_nl(s: Seq<char>) -> Seq<Seq<char>>
    decreases s.len(),
{
    if s.len() == 0 {
        seq![seq![]]
    } else {
        let prev = split_nl(s.drop_last());
        if s.last() == '\n' {
            prev.push(seq![])
        } else {
            prev.update(prev.len() - 1, prev.last().push(s.last()))
        }
    }
}

pub proof fn lemma_split_nl_len(s: Seq<char>)
    ensures
        split_nl(s).len() >= 1,
    decreases s.len(),
{
    if s.len() > 0 {
        lemma_split_nl_len(s.drop_last());
    }
}

/// A line without its `\r` terminator, if it has one.
pub open spec fn strip_cr(p: Seq<char>) -> Seq<char> {
    if p.len() > 0 && p.last() == '\r' {
        p.drop_last()
    } else {
        p
    }
}

/// The lines of `s`, as `str::lines` yields them: split at `\n`; a `\r`
/// right before a `\n` is dropped with it; the text after the last `\n` is
/// a line only if it is not empty.
pub open spec fn lines_of(s: Seq<char>) -> Seq<Seq<char>> {
    let pieces = split_nl(s);
    let ended = pieces.drop_last().map_values(|p: Seq<char>| strip_cr(p));
    if pieces.last().len() > 0 {
        ended.push(pieces.last())
    } else {
        ended
    }
}

/// Text that ends a line (or is empty) splits apart from what follows it:
/// its own pieces but the last, empty one, then those of the rest.
pub proof fn lemma_split_nl_append(a: Seq<char>, b: Seq<char>)
    requires
        a.len() == 0 || a.last() == '\n',
    ensures
        split_nl(a + b) == split_nl(a).drop_last() + split_nl(b),
    decreases b.len(),
{
    lemma_split_nl_len(a);
    if b.len() == 0 {
        assert(a + b =~= a);
        assert(split_nl(a).last() =~= Seq::<char>::empty()) by {
            if a.len() > 0 {
                assert(split_nl(a) == split_nl(a.drop_last()).push(seq![]));
            }
        }
        assert(split_nl(a) =~= split_nl(a).drop_last() + split_nl(b));
    } else {
        let b1 = b.drop_last();
        assert((a + b).drop_last() =~= a + b1);
        assert((a + b).last() == b.last());
        lemma_split_nl_append(a, b1);
        lemma_split_nl_len(b1);
        let p = split_nl(a).drop_last();
        if b.last() == '\n' {
            assert(split_nl(a + b) =~= p + split_nl(b));
        } else {
            let q = split_nl(b1);
            assert(split_nl(a + b1) == p + q);
            assert((p + q).last() == q.last());
            assert((p + q).update((p + q).len() - 1, q.last().push(b.last())) =~= p + q.update(
                q.len() - 1,
                q.last().push(b.last()),
            ));
        }
    }
}

/// No piece of a text holds a line break.
pub proof fn lemma_split_nl_no_nl(s: Seq<char>)
    ensures
        forall|i: int| 0 <= i < split_nl(s).len() ==> !(#[trigger] split_nl(s)[i]).contains('\n'),
    decreases s.len(),
{
    if s.len() > 0 {
        let prev = split_nl(s.drop_last());
        lemma_split_nl_no_nl(s.drop_last());
        lemma_split_nl_len(s.drop_last());
        if s.last() != '\n' {
            let w = prev.last().push(s.last());
            assert(!w.contains('\n')) by {
                if w.contains('\n') {
                    let k = choose|k: int| 0 <= k < w.len() && w[k] == '\n';
                    assert(prev.last() == prev[prev.len() - 1]);
                    if k < prev.last().len() {
                        assert(prev.last()[k] == '\n');
                    }
                }
            }
            assert forall|i: int| 0 <= i < split_nl(s).len() implies !(#[trigger] split_nl(
                s,
            )[i]).contains('\n') by {
                if i < prev.len() - 1 {
                    assert(split_nl(s)[i] == prev[i]);
                }
            }
        } else {
            assert forall|i: int| 0 <= i < split_nl(s).len() implies !(#[trigger] split_nl(
                s,
            )[i]).contains('\n') by {
                if i < prev.len() {
                    assert(split_nl(s)[i] == prev[i]);
                } else {
                    assert(split_nl(s)[i] =~= Seq::<char>::empty());
                }
            }
        }
    }
}

/// No line of a text holds a line break.
pub proof fn lemma_lines_of_no_nl(s: Seq<char>)
    ensures
        forall|i: int| 0 <= i < lines_of(s).len() ==> !(#[trigger] lines_of(s)[i]).contains('\n'),
{
    lemma_split_nl_no_nl(s);
    lemma_split_nl_len(s);
    let pieces = split_nl(s);
    assert forall|i: int| 0 <= i < lines_of(s).len() implies !(#[trigger] lines_of(s)[i]).contains(
        '\n',
    ) by {
        let p = pieces[i];
        assert(!p.contains('\n'));
        if i < pieces.len() - 1 {
            assert(lines_of(s)[i] == strip_cr(p));
            if strip_cr(p).contains('\n') {
                let k = choose|k: int| 0 <= k < strip_cr(p).len() && strip_cr(p)[k] == '\n';
                assert(p[k] == '\n');
            }
        } else {
            assert(lines_of(s)[i] == pieces.last());
        }
    }
}

/// Text without a line break is a single piece.
pub proof fn lemma_split_nl_single(l: Seq<char>)
    requires
        !l.contains('\n'),
    ensures
        split_nl(l) == seq![l],
    decreases l.len(),
{
    if l.len() > 0 {
        let l1 = l.drop_last();
        assert(!l1.contains('\n')) by {
            if l1.contains('\n') {
                let k = choose|k: int| 0 <= k < l1.len() && l1[k] == '\n';
                assert(l[k] == '\n');
            }
        }
        lemma_split_nl_single(l1);
        assert(l.last() != '\n') by {
            assert(l[l.len() - 1] == l.last());
        }
        assert(l1.push(l.last()) =~= l);
        assert(seq![l1].update(0, l1.push(l.last())) =~= seq![l]);
    } else {
        assert(l =~= Seq::<char>::empty());
    }
}

/// Appending a line, ended by `\n`, to text that ends a line (or is
/// empty) appends that line to its lines.
pub proof fn lemma_lines_of_append_line(a: Seq<char>, l: Seq<char>)
    requires
        a.len() == 0 || a.last() == '\n',
        !l.contains('\n'),
        l.len() == 0 || l.last() != '\r',
    ensures
        lines_of(a + l.push('\n')) == lines_of(a).push(l),
{
    lemma_split_nl_single(l);
    lemma_split_nl_len(a);
    assert(split_nl(l.push('\n')) == split_nl(l).push(seq![])) by {
        assert(l.push('\n').drop_last() =~= l);
    }
    lemma_split_nl_append(a, l.push('\n'));
    let p = split_nl(a);
    assert(p.last() =~= Seq::<char>::empty()) by {
        if a.len() > 0 {
            assert(p == split_nl(a.drop_last()).push(seq![]));
        }
    }
    let pieces = split_nl(a + l.push('\n'));
    assert(pieces =~= p.drop_last() + seq![l, seq![]]);
    assert(strip_cr(l) == l);
    assert(pieces.drop_last().map_values(|q: Seq<char>| strip_cr(q)) =~= p.drop_last().map_values(
        |q: Seq<char>| strip_cr(q),
    ).push(l));
}

/// The pieces of `s` between `\n`s (`str::split('\n')`).
pub fn split_newlines(s: &Vec<char>) -> (r: Vec<Vec<char>>)
    ensures
        views(r@) == split_nl(s@),
{
    let mut out: Vec<Vec<char>> = Vec::new();
    out.push(Vec::new());
    let mut i: usize = 0;
    assert(views(out@) =~= split_nl(s@.take(0)));
    while i < s.len()
        invariant
            i <= s.len(),
            views(out@) == split_nl(s@.take(i as int)),
        decreases s.len() - i,
    {
        let ghost pre = s@.take(i as int);
        assert(s@.take(i + 1).drop_last() =~= pre);
        proof {
            lemma_split_nl_len(pre);
        }
        if s[i] == '\n' {
            out.push(Vec::new());
        } else {
            let mut w = out.pop().unwrap();
            w.push(s[i]);
            out.push(w);
        }
        i = i + 1;
        assert(views(out@) =~= split_nl(s@.take(i as int)));
    }
    assert(s@.take(i as int) =~= s@);
    out
}

/// The lines of `s` (`str::lines`).
pub fn lines_vec(s: &Vec<char>) -> (r: Vec<Vec<char>>)
    ensures
        views(r@) == lines_of(s@),
{
    let pieces = split_newlines(s);
    proof {
        lemma_split_nl_len(s@);
    }
    let n = pieces.len();
    let mut out: Vec<Vec<char>> = Vec::new();
    let mut i: usize = 0;
    while i + 1 < n
        invariant
            n == pieces.len() >= 1,
            views(pieces@) == split_nl(s@),
            i + 1 <= n,
            views(out@) == views(pieces@).take(i as int).map_values(|p: Seq<char>| strip_cr(p)),
        decreases n - i,
    {
        let p = &pieces[i];
        assert(p@ == views(pieces@)[i as int]);
        let ghost old_out = views(out@);
        let q = if p.len() > 0 && p[p.len() - 1] == '\r' {
            slice_chars(p, 0, p.len() - 1)
        } else {
            copy_chars(p)
        };
        assert(q@ == strip_cr(p@)) by {
            if p.len() > 0 && p@.last() == '\r' {
                assert(q@ =~= p@.drop_last());
            }
        }
        out.push(q);
        assert(views(out@) =~= old_out.push(strip_cr(p@)));
        i = i + 1;
        assert(views(out@) =~= views(pieces@).take(i as int).map_values(
            |p: Seq<char>| strip_cr(p),
        ));
    }
    assert(views(pieces@).take(i as int) =~= views(pieces@).drop_last());
    let last = &pieces[n - 1];
    if last.len() > 0 {
        out.push(copy_chars(last));
    }
    assert(views(out@) =~= lines_of(s@));
    out
}


/// `i` is where `pat` first occurs in `s`.
pub open spec fn first_occ(s: Seq<char>, pat: Seq<char>, i: int) -> bool {
    occurs_at(s, pat, i) && forall|j: int| 0 <= j < i ==> !occurs_at(s, pat, j)
}

/// `i` is where `pat` last occurs in `s`.
pub open spec fn last_occ(s: Seq<char>, pat: Seq<char>, i: int) -> bool {
    occurs_at(s, pat, i) && forall|j: int| i < j ==> !occurs_at(s, pat, j)
}

pub open spec fn contains_pat(s: Seq<char>, pat: Seq<char>) -> bool {
    exists|i: int| occurs_at(s, pat, i)
}

pub proof fn lemma_first_occ_unique(s: Seq<char>, pat: Seq<char>, i: int, j: int)
    requires
        first_occ(s, pat, i),
        first_occ(s, pat, j),
    ensures
        i == j,
{
}

pub proof fn lemma_last_occ_unique(s: Seq<char>, pat: Seq<char>, i: int, j: int)
    requires
        last_occ(s, pat, i),
        last_occ(s, pat, j),
    ensures
        i == j,
{
}

/// `str::split_once`: the text before and after the first `pat`.
pub open spec fn split_once_spec(s: Seq<char>, pat: Seq<char>) -> Option<(Seq<char>, Seq<char>)> {
    if contains_pat(s, pat) {
        let i = choose|i: int| first_occ(s, pat, i);
        Some((s.take(i), s.skip(i + pat.len())))
    } else {
        None
    }
}

/// `str::rsplit_once`: the text before and after the last `pat`.
pub open spec fn rsplit_once_spec(s: Seq<char>, pat: Seq<char>) -> Option<(Seq<char>, Seq<char>)> {
    if contains_pat(s, pat) {
        let i = choose|i: int| last_occ(s, pat, i);
        Some((s.take(i), s.skip(i + pat.len())))
    } else {
        None
    }
}

/// Splits `s` around the first occurrence of `pat`.
pub fn split_once(s: &Vec<char>, pat: &str) -> (r: Option<(Vec<char>, Vec<char>)>)
    ensures
        match r {
            Some((a, b)) => split_once_spec(s@, pat@) == Some((a@, b@)),
            None => split_once_spec(s@, pat@) is None,
        },
{
    let pv = chars_of(pat);
    match find_first(s, &pv) {
        Some(i) => {
            assert(occurs_at(s@, pv@, i as int));
            assert(i + pv.len() <= s.len());
            assert(pv@ == pat@);
            assert(first_occ(s@, pat@, i as int));
            proof {
                let j = choose|j: int| first_occ(s@, pat@, j);
                lemma_first_occ_unique(s@, pat@, i as int, j);
            }
            let a = slice_chars(s, 0, i);
            let b = slice_chars(s, i + pv.len(), s.len());
            assert(a@ =~= s@.take(i as int));
            assert(b@ =~= s@.skip(i + pv.len()));
            Some((a, b))
        },
        None => None,
    }
}

/// Splits `s` around the last occurrence of `pat`.
pub fn rsplit_once(s: &Vec<char>, pat: &str) -> (r: Option<(Vec<char>, Vec<char>)>)
    ensures
        match r {
            Some((a, b)) => rsplit_once_spec(s@, pat@) == Some((a@, b@)),
            None => rsplit_once_spec(s@, pat@) is None,
        },
{
    let pv = chars_of(pat);
    match find_last(s, &pv) {
        Some(i) => {
            assert(occurs_at(s@, pv@, i as int));
            assert(i + pv.len() <= s.len());
            assert(pv@ == pat@);
            assert(last_occ(s@, pat@, i as int));
            proof {
                let j = choose|j: int| last_occ(s@, pat@, j);
                lemma_last_occ_unique(s@, pat@, i as int, j);
            }
            let a = slice_chars(s, 0, i);
            let b = slice_chars(s, i + pv.len(), s.len());
            assert(a@ =~= s@.take(i as int));
            assert(b@ =~= s@.skip(i + pv.len()));
            Some((a, b))
        },
        None => None,
    }
}

/// `s` starts with `pat`.
pub open spec fn has_prefix(s: Seq<char>, pat: Seq<char>) -> bool {
    pat.len() <= s.len() && s.take(pat.len() as int) == pat
}

pub fn starts_with(s: &Vec<char>, pat: &str) -> (b: bool)
    ensures
        b == has_prefix(s@, pat@),
{
    let pv = chars_of(pat);
    let r = matches_at(s, &pv, 0);
    assert(r == has_prefix(s@, pat@)) by {
        if pv.len() <= s.len() {
            assert(s@.subrange(0, pv@.len() as int) =~= s@.take(pv@.len() as int));
        }
    }
    r
}

/// `str::replace(pat, rep)` for a nonempty `pat`: every occurrence of
/// `pat`, found left to right without overlap, replaced by `rep`.
pub open spec fn replace_all(s: Seq<char>, pat: Seq<char>, rep: Seq<char>) -> Seq<char>
    decreases s.len(),
{
    if pat.len() == 0 || s.len() == 0 {
        s
    } else if pat.len() <= s.len() && s.take(pat.len() as int) == pat {
        rep + replace_all(s.skip(pat.len() as int), pat, rep)
    } else {
        seq![s[0]] + replace_all(s.drop_first(), pat, rep)
    }
}

/// Replaces every occurrence of `pat` in `s` by `rep` (see `replace_all`).
pub fn replace_chars(s: &Vec<char>, pat: &str, rep: &str) -> (r: Vec<char>)
    ensures
        r@ == replace_all(s@, pat@, rep@),
{
    let pv = chars_of(pat);
    let rv = chars_of(rep);
    if pv.len() == 0 {
        return copy_chars(s);
    }
    let mut out: Vec<char> = Vec::new();
    let mut i: usize = 0;
    assert(s@.skip(0) =~= s@);
    assert(out@ + replace_all(s@, pv@, rv@) =~= replace_all(s@, pv@, rv@));
    while i < s.len()
        invariant
            i <= s.len(),
            pv@ == pat@,
            rv@ == rep@,
            pv.len() > 0,
            out@ + replace_all(s@.skip(i as int), pv@, rv@) == replace_all(s@, pv@, rv@),
        decreases s.len() - i,
    {
        let ghost t = s@.skip(i as int);
        if matches_at(s, &pv, i) {
            assert(t.take(pv@.len() as int) =~= s@.subrange(i as int, i + pv@.len()));
            assert(t.skip(pv@.len() as int) =~= s@.skip(i + pv@.len()));
            let ghost pre = out@;
            append_chars(&mut out, &rv);
            assert(out@ + replace_all(s@.skip(i + pv@.len()), pv@, rv@) =~= pre + replace_all(t, pv@, rv@));
            i = i + pv.len();
        } else {
            proof {
                if pv@.len() <= t.len() {
                    assert(t.take(pv@.len() as int) =~= s@.subrange(i as int, i + pv@.len()));
                }
            }
            assert(t.drop_first() =~= s@.skip(i + 1));
            let ghost pre = out@;
            out.push(s[i]);
            assert(out@ + replace_all(s@.skip(i + 1), pv@, rv@) =~= pre + replace_all(t, pv@, rv@));
            i = i + 1;
        }
    }
    assert(s@.skip(i as int) =~= Seq::<char>::empty());
    assert(out@ + replace_all(s@.skip(i as int), pv@, rv@) =~= out@);
    out
}

} // verus!
