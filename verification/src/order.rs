//! Orders and stable sorting: text by its characters, and items by a pair of
//! integer keys.
use vstd::prelude::*;

use crate::text::{texts, to_chars};

verus! {

/// Whether `a` stands before `b` in the order by characters, a prefix before
/// what continues it.
pub open spec fn text_before(a: Seq<char>, b: Seq<char>) -> bool
    decreases b.len(),
{
    if b.len() == 0 {
        false
    } else if a.len() == 0 {
        true
    } else if a[0] != b[0] {
        a[0] < b[0]
    } else {
        text_before(a.skip(1), b.skip(1))
    }
}

/// Of two texts exactly one stands before the other, or they are the same.
pub proof fn lemma_text_order_total(a: Seq<char>, b: Seq<char>)
    ensures
        !text_before(a, a),
        text_before(a, b) ==> !text_before(b, a),
        a == b || text_before(a, b) || text_before(b, a),
    decreases a.len() + b.len(),
{
    lemma_text_order_irreflexive(a);
    if a.len() > 0 && b.len() > 0 {
        if a[0] == b[0] {
            lemma_text_order_total(a.skip(1), b.skip(1));
            if a.skip(1) == b.skip(1) {
                assert(a =~= seq![a[0]] + a.skip(1));
                assert(b =~= seq![b[0]] + b.skip(1));
            }
        }
    } else if a.len() == 0 && b.len() == 0 {
        assert(a =~= b);
    }
}

/// No text stands before itself.
pub proof fn lemma_text_order_irreflexive(a: Seq<char>)
    ensures
        !text_before(a, a),
    decreases a.len(),
{
    if a.len() > 0 {
        lemma_text_order_irreflexive(a.skip(1));
    }
}

/// What stands before a text that stands before a third, stands before the
/// third.
pub proof fn lemma_text_order_transitive(a: Seq<char>, b: Seq<char>, c: Seq<char>)
    requires
        text_before(a, b),
        text_before(b, c),
    ensures
        text_before(a, c),
    decreases c.len(),
{
    if a.len() > 0 && a[0] == b[0] && b[0] == c[0] {
        lemma_text_order_transitive(a.skip(1), b.skip(1), c.skip(1));
    }
}

/// Tells whether `a` stands before `b`.
pub fn is_before(a: &str, b: &str) -> (r: bool)
    ensures
        r == text_before(a@, b@),
{
    let v = to_chars(a);
    let w = to_chars(b);
    let mut i: usize = 0;
    assert(v@.skip(0) =~= v@);
    assert(w@.skip(0) =~= w@);
    while i < v.len() && i < w.len() && v[i] == w[i]
        invariant
            i <= v@.len(),
            i <= w@.len(),
            v@ == a@,
            w@ == b@,
            text_before(v@.skip(i as int), w@.skip(i as int)) == text_before(v@, w@),
        decreases v@.len() - i,
    {
        assert(v@.skip(i as int).skip(1) =~= v@.skip(i + 1));
        assert(w@.skip(i as int).skip(1) =~= w@.skip(i + 1));
        i = i + 1;
    }
    if i == w.len() {
        false
    } else if i == v.len() {
        true
    } else {
        v[i] < w[i]
    }
}

/// Whether no text of the list stands before an earlier one.
pub open spec fn in_order(s: Seq<Seq<char>>) -> bool {
    forall|i: int, j: int| #![trigger s[i], s[j]] 0 <= i < j < s.len() ==> !text_before(s[j], s[i])
}

/// The texts of a list with one more, wherever it was put, are those of the
/// list and that one.
proof fn lemma_insert_multiset(s: Seq<Seq<char>>, p: int, t: Seq<char>)
    requires
        0 <= p <= s.len(),
    ensures
        s.insert(p, t).to_multiset() =~= s.to_multiset().insert(t),
{
    vstd::seq_lib::to_multiset_insert(s, p, t);
}

/// Sorts the strings of a list; equal ones are all kept.
pub fn sort_texts(v: &Vec<String>) -> (r: Vec<String>)
    ensures
        in_order(texts(r@)),
        texts(r@).to_multiset() == texts(v@).to_multiset(),
{
    let n = v.len();
    let mut r: Vec<String> = Vec::new();
    let mut k: usize = 0;
    let ghost all = texts(v@);
    assert(all.take(0) =~= texts(r@));
    while k < n
        invariant
            k <= n,
            n == v@.len(),
            all == texts(v@),
            in_order(texts(r@)),
            texts(r@).to_multiset() == all.take(k as int).to_multiset(),
        decreases n - k,
    {
        let ghost before = texts(r@);
        let ghost t = v@[k as int]@;
        let mut p: usize = r.len();
        while p > 0 && is_before(v[k].as_str(), r[p - 1].as_str())
            invariant
                k < v@.len(),
                t == v@[k as int]@,
                p <= r@.len(),
                before == texts(r@),
                forall|j: int| p <= j < before.len() ==> text_before(t, #[trigger] before[j]),
            decreases p,
        {
            p = p - 1;
        }
        proof {
            assert forall|j: int| 0 <= j < p implies !text_before(t, #[trigger] before[j]) by {
                if j < p - 1 && text_before(t, before[j]) {
                    let last = before[p - 1];
                    assert(!text_before(last, before[j]));
                    lemma_text_order_total(t, last);
                    lemma_text_order_total(before[j], last);
                    if text_before(last, t) {
                        lemma_text_order_transitive(last, t, before[j]);
                    }
                }
            }
            assert forall|j: int| p <= j < before.len() implies !text_before(#[trigger] before[j], t) by {
                lemma_text_order_total(t, before[j]);
            }
        }
        r.insert(p, v[k].clone());
        assert(texts(r@) =~= before.insert(p as int, t));
        proof {
            lemma_insert_multiset(before, p as int, t);
            assert(all.take(k + 1) =~= all.take(k as int).push(t));
            all.take(k as int).to_multiset_ensures();
            let after = texts(r@);
            assert forall|i: int, j: int| #![trigger after[i], after[j]] 0 <= i < j < after.len() implies !text_before(
                after[j],
                after[i],
            ) by {
                let a = if i < p { i } else { i - 1 };
                let b = if j < p { j } else { j - 1 };
                if i != p && j != p {
                    assert(!text_before(before[b], before[a]));
                } else if i == p {
                    assert(after[j] == before[b]);
                } else {
                    assert(after[i] == before[a]);
                }
            }
        }
        k = k + 1;
    }
    assert(all.take(n as int) =~= all);
    r
}

/// Whether item `i` with key `a` is to stand before item `j` with key `b`: by
/// the keys' first components, then by the second, then as they stood.
pub open spec fn key_before(a: (u64, u64), i: int, b: (u64, u64), j: int) -> bool {
    a.0 < b.0 || (a.0 == b.0 && (a.1 < b.1 || (a.1 == b.1 && i < j)))
}

/// Whether `r` lists the positions of `keys` in the order of a stable sort:
/// every position once, those of smaller keys first, and those of equal keys
/// as they stood.
pub open spec fn is_stable_order(keys: Seq<(u64, u64)>, r: Seq<usize>) -> bool {
    &&& r.len() == keys.len()
    &&& forall|i: int| 0 <= i < r.len() ==> (#[trigger] r[i]) < keys.len()
    &&& forall|i: int, j: int|
        #![trigger r[i], r[j]]
        0 <= i < j < r.len() ==> key_before(keys[r[i] as int], r[i] as int, keys[r[j] as int], r[j] as int)
    &&& forall|k: usize| k < keys.len() ==> #[trigger] r.contains(k)
}

/// Gives the order in which a stable sort puts items with the given keys.
pub fn stable_order(keys: &Vec<(u64, u64)>) -> (r: Vec<usize>)
    ensures
        is_stable_order(keys@, r@),
{
    let n = keys.len();
    let mut r: Vec<usize> = Vec::new();
    let mut k: usize = 0;
    assert(keys@.take(0) =~= Seq::empty());
    while k < n
        invariant
            k <= n,
            n == keys@.len(),
            is_stable_order(keys@.take(k as int), r@),
        decreases n - k,
    {
        let ghost seen = keys@.take(k as int);
        let ghost before = r@;
        let key = keys[k];
        let mut p: usize = r.len();
        while p > 0 && (key.0 < keys[r[p - 1]].0 || (key.0 == keys[r[p - 1]].0 && key.1 < keys[r[p - 1]].1))
            invariant
                p <= r@.len(),
                before == r@,
                k < n,
                n == keys@.len(),
                key == keys@[k as int],
                seen == keys@.take(k as int),
                is_stable_order(seen, before),
                forall|j: int| p <= j < before.len() ==> key_before(key, k as int, keys@[#[trigger] before[j] as int], before[j] as int),
            decreases p,
        {
            assert(before[p - 1] < seen.len());
            p = p - 1;
        }
        proof {
            assert forall|j: int| 0 <= j < p implies key_before(
                keys@[#[trigger] before[j] as int],
                before[j] as int,
                key,
                k as int,
            ) by {
                assert(before[j] < seen.len());
                assert(before[p - 1] < seen.len());
                assert(seen[before[j] as int] == keys@[before[j] as int]);
                assert(seen[before[p - 1] as int] == keys@[before[p - 1] as int]);
            }
        }
        r.insert(p, k);
        proof {
            let now = keys@.take(k + 1);
            let after = r@;
            assert forall|i: int| 0 <= i < after.len() implies (#[trigger] after[i]) < now.len() by {
                if i != p {
                    let a = if i < p { i } else { i - 1 };
                    assert(after[i] == before[a]);
                }
            }
            assert forall|i: int, j: int| #![trigger after[i], after[j]] 0 <= i < j < after.len() implies key_before(
                now[after[i] as int],
                after[i] as int,
                now[after[j] as int],
                after[j] as int,
            ) by {
                let a = if i < p { i } else { i - 1 };
                let b = if j < p { j } else { j - 1 };
                if i != p {
                    assert(after[i] == before[a]);
                    assert(before[a] < seen.len());
                    assert(now[after[i] as int] == seen[before[a] as int]);
                }
                if j != p {
                    assert(after[j] == before[b]);
                    assert(before[b] < seen.len());
                    assert(now[after[j] as int] == seen[before[b] as int]);
                }
            }
            assert forall|m: usize| m < now.len() implies #[trigger] after.contains(m) by {
                if m == k {
                    assert(after[p as int] == m);
                } else {
                    assert(before.contains(m));
                    let i = choose|i: int| 0 <= i < before.len() && before[i] == m;
                    assert(after[if i < p { i } else { i + 1 }] == m);
                }
            }
        }
        k = k + 1;
    }
    assert(keys@.take(n as int) =~= keys@);
    r
}

/// Whether a list holds, from the least to the greatest, exactly those of the
/// positions below `n` that are wanted.
pub open spec fn selects(order: Seq<int>, n: int, wanted: spec_fn(int) -> bool) -> bool {
    &&& forall|i: int, j: int| #![trigger order[i], order[j]] 0 <= i < j < order.len() ==> order[i] < order[j]
    &&& forall|i: int| 0 <= i < order.len() ==> 0 <= #[trigger] order[i] < n && wanted(order[i])
    &&& forall|p: int| 0 <= p < n && #[trigger] wanted(p) ==> order.contains(p)
}

/// A list of wanted positions grows at its end.
pub proof fn lemma_selects_more(order: Seq<int>, n: int, wanted: spec_fn(int) -> bool)
    requires
        0 <= n,
        selects(order, n, wanted),
    ensures
        wanted(n) ==> selects(order.push(n), n + 1, wanted),
        !wanted(n) ==> selects(order, n + 1, wanted),
{
    if wanted(n) {
        let more = order.push(n);
        assert forall|p: int| 0 <= p < n + 1 && #[trigger] wanted(p) implies more.contains(p) by {
            if p == n {
                assert(more[order.len() as int] == n);
            } else {
                let k = choose|k: int| 0 <= k < order.len() && order[k] == p;
                assert(more[k] == p);
            }
        }
    }
}

/// A text comes before another where, behind what both begin with, it ends or
/// goes on with the lesser character.
pub proof fn law_texts_compare_at_their_first_difference(a: Seq<char>, b: Seq<char>, k: int)
    requires
        0 <= k <= a.len(),
        k <= b.len(),
        a.take(k) == b.take(k),
        k < a.len() && k < b.len() ==> a[k] != b[k],
    ensures
        text_before(a, b) <==> k < b.len() && (k == a.len() || a[k] < b[k]),
    decreases k,
{
    if k > 0 {
        assert(a[0] == a.take(k)[0] && b[0] == b.take(k)[0]);
        assert(a.skip(1).take(k - 1) =~= a.take(k).skip(1));
        assert(b.skip(1).take(k - 1) =~= b.take(k).skip(1));
        law_texts_compare_at_their_first_difference(a.skip(1), b.skip(1), k - 1);
        if k < a.len() {
            assert(a.skip(1)[k - 1] == a[k]);
        }
        if k < b.len() {
            assert(b.skip(1)[k - 1] == b[k]);
        }
    }
}

/// Whether places come in order: by the first of their two numbers, and where
/// that is the same by the second.
pub open spec fn places_in_order(places: Seq<(int, int)>) -> bool {
    forall|a: int, b: int|
        #![trigger places[a], places[b]]
        0 <= a < b < places.len() ==> places[a].0 < places[b].0 || (places[a].0 == places[b].0 && places[a].1
            < places[b].1)
}

/// Texts in order ascend: of two different ones the lesser stands first.
pub proof fn law_texts_in_order_ascend(s: Seq<Seq<char>>, i: int, j: int)
    requires
        in_order(s),
        0 <= i < j < s.len(),
    ensures
        s[i] == s[j] || text_before(s[i], s[j]),
{
    lemma_text_order_total(s[i], s[j]);
    assert(!text_before(s[j], s[i]));
}

} // verus!
