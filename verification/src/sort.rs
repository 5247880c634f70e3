//! A stable sort by lexicographically ordered integer keys.
use vstd::prelude::*;

verus! {

/// `a` comes strictly before `b` in lexicographic order (a proper prefix
/// comes first).
pub open spec fn lex_lt(a: Seq<i64>, b: Seq<i64>) -> bool
    decreases a.len(),
{
    if a.len() == 0 {
        b.len() > 0
    } else if b.len() == 0 {
        false
    } else if a[0] < b[0] {
        true
    } else if a[0] > b[0] {
        false
    } else {
        lex_lt(a.drop_first(), b.drop_first())
    }
}

pub proof fn lemma_lex_irreflexive(a: Seq<i64>)
    ensures
        !lex_lt(a, a),
    decreases a.len(),
{
    if a.len() > 0 {
        lemma_lex_irreflexive(a.drop_first());
    }
}

pub proof fn lemma_lex_trans(a: Seq<i64>, b: Seq<i64>, c: Seq<i64>)
    requires
        lex_lt(a, b),
        lex_lt(b, c),
    ensures
        lex_lt(a, c),
    decreases a.len(),
{
    if a.len() > 0 && b.len() > 0 && c.len() > 0 {
        if a[0] == b[0] && b[0] == c[0] {
            lemma_lex_trans(a.drop_first(), b.drop_first(), c.drop_first());
        }
    }
}

pub proof fn lemma_lex_total(a: Seq<i64>, b: Seq<i64>)
    ensures
        lex_lt(a, b) || lex_lt(b, a) || a == b,
    decreases a.len(),
{
    if a.len() > 0 && b.len() > 0 && a[0] == b[0] {
        lemma_lex_total(a.drop_first(), b.drop_first());
        if a.drop_first() == b.drop_first() {
            assert(a =~= seq![a[0]] + a.drop_first());
            assert(b =~= seq![b[0]] + b.drop_first());
        }
    } else if a.len() == 0 && b.len() == 0 {
        assert(a =~= b);
    }
}

/// `lt` followed by `le` is `lt`.
pub proof fn lemma_lex_lt_le(a: Seq<i64>, b: Seq<i64>, c: Seq<i64>)
    requires
        lex_lt(a, b),
        !lex_lt(c, b),
    ensures
        lex_lt(a, c),
{
    lemma_lex_total(b, c);
    if lex_lt(b, c) {
        lemma_lex_trans(a, b, c);
    }
}

/// `order` lists each index of `keys` once, in nondecreasing key order,
/// equal keys in the order they came.
pub open spec fn stable_order(keys: Seq<Seq<i64>>, order: Seq<int>) -> bool {
    &&& order.len() == keys.len()
    &&& forall|i: int| 0 <= i < order.len() ==> 0 <= #[trigger] order[i] < keys.len()
    &&& forall|i: int, j: int| 0 <= i < j < order.len() ==> order[i] != order[j]
    &&& forall|i: int, j: int|
        0 <= i < j < order.len() ==> !lex_lt(keys[#[trigger] order[j]], keys[#[trigger] order[i]])
    &&& forall|i: int, j: int|
        0 <= i < j < order.len() && keys[#[trigger] order[i]] == keys[#[trigger] order[j]]
            ==> order[i] < order[j]
}

pub fn lex_less(a: &Vec<i64>, b: &Vec<i64>) -> (r: bool)
    ensures
        r == lex_lt(a@, b@),
{
    let mut i: usize = 0;
    assert(a@.skip(0) =~= a@);
    assert(b@.skip(0) =~= b@);
    while i < a.len() && i < b.len()
        invariant
            i <= a.len(),
            i <= b.len(),
            lex_lt(a@, b@) == lex_lt(a@.skip(i as int), b@.skip(i as int)),
        decreases a.len() - i,
    {
        if a[i] < b[i] {
            return true;
        }
        if a[i] > b[i] {
            return false;
        }
        assert(a@.skip(i as int).drop_first() =~= a@.skip(i + 1));
        assert(b@.skip(i as int).drop_first() =~= b@.skip(i + 1));
        i = i + 1;
    }
    i == a.len() && i < b.len()
}

pub open spec fn key_views(keys: Seq<Vec<i64>>) -> Seq<Seq<i64>> {
    Seq::new(keys.len(), |i: int| keys[i]@)
}

pub open spec fn order_view(order: Seq<usize>) -> Seq<int> {
    Seq::new(order.len(), |i: int| order[i] as int)
}

/// The positions of `keys` in stable sorted order (insertion sort).
pub fn stable_sort_order(keys: &Vec<Vec<i64>>) -> (order: Vec<usize>)
    ensures
        stable_order(key_views(keys@), order_view(order@)),
{
    let ghost kv = key_views(keys@);
    let mut order: Vec<usize> = Vec::new();
    let mut i: usize = 0;
    while i < keys.len()
        invariant
            kv == key_views(keys@),
            i <= keys.len(),
            stable_order(kv.take(i as int), order_view(order@)),
        decreases keys.len() - i,
    {
        let ghost pre = kv.take(i as int);
        let ghost ov = order_view(order@);
        let mut p: usize = 0;
        let mut stop = false;
        while p < order.len() && !stop
            invariant
                kv == key_views(keys@),
                i < keys.len(),
                p <= order.len(),
                ov == order_view(order@),
                stable_order(pre, ov),
                pre == kv.take(i as int),
                forall|q: int| 0 <= q < p ==> !lex_lt(kv[i as int], kv[#[trigger] ov[q]]),
                stop ==> p < order.len() && lex_lt(kv[i as int], kv[ov[p as int]]),
            decreases order.len() - p + (if stop { 0int } else { 1int }),
        {
            assert(0 <= ov[p as int] < pre.len());
            let o = order[p];
            assert(keys[o as int]@ == kv[ov[p as int]]);
            if lex_less(&keys[i], &keys[o]) {
                stop = true;
            } else {
                p = p + 1;
            }
        }
        order.insert(p, i);
        let ghost nv = order_view(order@);
        let ghost cur = kv.take(i + 1);
        proof {
            assert(nv =~= ov.take(p as int) + seq![i as int] + ov.skip(p as int));
            assert forall|q: int| 0 <= q < ov.len() implies #[trigger] ov[q] < i by {
                assert(0 <= ov[q] < pre.len());
            }
            assert forall|a: int| 0 <= a < nv.len() implies #[trigger] cur[nv[a]] == kv[nv[a]] by {
                if a < p {
                    assert(nv[a] == ov[a]);
                } else if a > p {
                    assert(nv[a] == ov[a - 1]);
                }
            }
            assert forall|a: int, b: int| 0 <= a < b < nv.len() implies !lex_lt(
                cur[#[trigger] nv[b]],
                cur[#[trigger] nv[a]],
            ) by {
                if b < p {
                    assert(nv[a] == ov[a] && nv[b] == ov[b]);
                    assert(pre[ov[a]] == kv[ov[a]]);
                    assert(pre[ov[b]] == kv[ov[b]]);
                } else if b == p {
                    assert(nv[a] == ov[a]);
                    assert(!lex_lt(kv[i as int], kv[ov[a]]));
                } else if a == p {
                    assert(nv[b] == ov[b - 1]);
                    lemma_lex_irreflexive(kv[i as int]);
                    if b - 1 == p {
                        assert(lex_lt(kv[i as int], kv[ov[p as int]]));
                    } else {
                        assert(pre[ov[p as int]] == kv[ov[p as int]]);
                        assert(pre[ov[b - 1]] == kv[ov[b - 1]]);
                        assert(!lex_lt(pre[ov[b - 1]], pre[ov[p as int]]));
                        lemma_lex_lt_le(kv[i as int], kv[ov[p as int]], kv[ov[b - 1]]);
                    }
                    lemma_lex_trans_not(kv[i as int], kv[ov[b - 1]]);
                } else if a < p {
                    assert(nv[a] == ov[a] && nv[b] == ov[b - 1]);
                    assert(pre[ov[a]] == kv[ov[a]]);
                    assert(pre[ov[b - 1]] == kv[ov[b - 1]]);
                } else {
                    assert(nv[a] == ov[a - 1] && nv[b] == ov[b - 1]);
                    assert(pre[ov[a - 1]] == kv[ov[a - 1]]);
                    assert(pre[ov[b - 1]] == kv[ov[b - 1]]);
                }
            }
            assert forall|a: int, b: int|
                0 <= a < b < nv.len() && cur[#[trigger] nv[a]] == cur[#[trigger] nv[b]] implies nv[a]
                < nv[b] by {
                if b < p {
                    assert(nv[a] == ov[a] && nv[b] == ov[b]);
                    assert(pre[ov[a]] == kv[ov[a]]);
                    assert(pre[ov[b]] == kv[ov[b]]);
                } else if b == p {
                    assert(nv[a] == ov[a]);
                } else if a == p {
                    assert(nv[b] == ov[b - 1]);
                    if b - 1 == p {
                        assert(lex_lt(kv[i as int], kv[ov[p as int]]));
                    } else {
                        assert(pre[ov[p as int]] == kv[ov[p as int]]);
                        assert(pre[ov[b - 1]] == kv[ov[b - 1]]);
                        assert(!lex_lt(pre[ov[b - 1]], pre[ov[p as int]]));
                        lemma_lex_lt_le(kv[i as int], kv[ov[p as int]], kv[ov[b - 1]]);
                    }
                    lemma_lex_irreflexive(kv[i as int]);
                } else if a < p {
                    assert(nv[a] == ov[a] && nv[b] == ov[b - 1]);
                    assert(pre[ov[a]] == kv[ov[a]]);
                    assert(pre[ov[b - 1]] == kv[ov[b - 1]]);
                } else {
                    assert(nv[a] == ov[a - 1] && nv[b] == ov[b - 1]);
                    assert(pre[ov[a - 1]] == kv[ov[a - 1]]);
                    assert(pre[ov[b - 1]] == kv[ov[b - 1]]);
                }
            }
            assert forall|a: int, b: int| 0 <= a < b < nv.len() implies nv[a] != nv[b] by {
                if a < p && b < p {
                } else if a < p && b == p {
                } else if a < p {
                    assert(nv[b] == ov[b - 1]);
                } else if a == p {
                    assert(nv[b] == ov[b - 1]);
                } else {
                    assert(nv[a] == ov[a - 1] && nv[b] == ov[b - 1]);
                }
            }
            assert forall|a: int| 0 <= a < nv.len() implies 0 <= #[trigger] nv[a] < cur.len() by {
                if a < p {
                    assert(nv[a] == ov[a]);
                } else if a > p {
                    assert(nv[a] == ov[a - 1]);
                }
            }
        }
        i = i + 1;
    }
    assert(kv.take(i as int) =~= kv);
    order
}

proof fn lemma_lex_trans_not(a: Seq<i64>, b: Seq<i64>)
    requires
        lex_lt(a, b),
    ensures
        !lex_lt(b, a),
        a != b,
{
    lemma_lex_irreflexive(a);
    if lex_lt(b, a) {
        lemma_lex_trans(a, b, a);
    }
}

} // verus!
