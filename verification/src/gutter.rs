//! The branch gutter: arrows drawn beside a function's rows, each branch in a
//! lane of its own among those that it overlaps.
use vstd::prelude::*;

use crate::objdiff::{branch_ansi, branch_color, lemma_branch_ansi_is_escape, Row};
use crate::order::{is_stable_order, key_before, lemma_selects_more, selects, stable_order};
use crate::style::{
    append_styled, is_plain, lemma_concat_trims_alike, lemma_plain_concat, lemma_plain_trims_alike,
    lemma_styled_trims_alike, styled, trims_alike,
};
use crate::text::{joined, lemma_joined_with_nothing};

verus! {

/// A branch drawn in the gutter: the rows it spans, which end is the
/// destination, the engine's color index, and the lane it is drawn in.
#[derive(Clone, Copy)]
pub struct Branch {
    pub lo: usize,
    pub hi: usize,
    pub dest: usize,
    pub src: usize,
    pub branch_idx: u32,
    pub lane: usize,
}

/// The branch that leaves row `src`, where it goes to another row of the
/// function.
pub open spec fn branch_at(rows: Seq<Row>, src: int) -> Option<Branch> {
    match rows[src].branch_to {
        Some((dest, branch_idx)) => if dest < rows.len() && dest != src {
            Some(
                Branch {
                    lo: if src < dest { src as usize } else { dest },
                    hi: if src < dest { dest } else { src as usize },
                    dest,
                    src: src as usize,
                    branch_idx,
                    lane: 0,
                },
            )
        } else {
            None
        },
        None => None,
    }
}

/// The branches that leave the first `n` rows, by row.
pub open spec fn branches_of(rows: Seq<Row>, n: nat) -> Seq<Branch>
    decreases n,
{
    if n == 0 {
        Seq::empty()
    } else {
        let before = branches_of(rows, (n - 1) as nat);
        match branch_at(rows, n - 1) {
            Some(b) => before.push(b),
            None => before,
        }
    }
}

/// What branches are sorted by: how far they reach, then where they begin.
pub open spec fn span_key(b: Branch) -> (u64, u64) {
    ((b.hi - b.lo) as u64, b.lo as u64)
}

/// The keys of a list of branches.
pub open spec fn span_keys(bs: Seq<Branch>) -> Seq<(u64, u64)> {
    Seq::new(bs.len(), |i: int| span_key(bs[i]))
}

/// Whether `a` and `b` are the same branch, but for the lane.
pub open spec fn same_branch(a: Branch, b: Branch) -> bool {
    a.lo == b.lo && a.hi == b.hi && a.dest == b.dest && a.src == b.src && a.branch_idx == b.branch_idx
}

/// How many lanes the branches take.
pub open spec fn lane_count(bs: Seq<Branch>) -> nat
    decreases bs.len(),
{
    if bs.len() == 0 {
        0
    } else {
        let before = lane_count(bs.drop_last());
        if bs.last().lane >= before {
            bs.last().lane as nat + 1
        } else {
            before
        }
    }
}

/// Lanes are numbered from the left; `depth` numbers them from the text.
pub open spec fn depth(bs: Seq<Branch>, k: int) -> int {
    lane_count(bs) - 1 - bs[k].lane
}

/// Whether two branches have a row in common.
pub open spec fn overlap(a: Branch, b: Branch) -> bool {
    a.lo <= b.hi && b.lo <= a.hi
}

/// Whether each branch stands in the lane nearest the text that no branch listed
/// before it and overlapping it stands in, with no lane left over.
pub open spec fn is_first_fit(bs: Seq<Branch>) -> bool {
    &&& forall|j: int, k: int|
        #![trigger bs[j], bs[k]]
        0 <= j < k < bs.len() && bs[j].lane == bs[k].lane ==> !overlap(bs[j], bs[k])
    &&& forall|k: int, d: int|
        #![trigger blocked(bs, k, d)]
        0 <= k < bs.len() && 0 <= d < depth(bs, k) ==> blocked(bs, k, d)
    &&& bs.len() > 0 ==> exists|k: int| 0 <= k < bs.len() && (#[trigger] bs[k]).lane == 0
}

/// Whether a branch listed before branch `k` in the lane at depth `d` overlaps
/// it.
pub open spec fn blocked(bs: Seq<Branch>, k: int, d: int) -> bool {
    exists|j: int| 0 <= j < k && #[trigger] depth(bs, j) == d && overlap(bs[j], bs[k])
}

/// Whether `bs` are the branches of `rows`, the shortest first and those of one
/// length from the top, each in the first lane that is free for it.
pub open spec fn is_layout(rows: Seq<Row>, bs: Seq<Branch>) -> bool {
    &&& is_first_fit(bs)
    &&& exists|order: Seq<usize>| #[trigger] is_listed_by(rows, bs, order)
}

/// Whether `bs` lists the branches of `rows` in the given stable order.
pub open spec fn is_listed_by(rows: Seq<Row>, bs: Seq<Branch>, order: Seq<usize>) -> bool {
    let all = branches_of(rows, rows.len());
    &&& is_stable_order(span_keys(all), order)
    &&& bs.len() == all.len()
    &&& forall|k: int| 0 <= k < bs.len() ==> same_branch(#[trigger] bs[k], all[order[k] as int])
}

/// The layout of the branches of `rows`: there is exactly one.
pub open spec fn layout(rows: Seq<Row>) -> Seq<Branch> {
    choose|bs: Seq<Branch>| is_layout(rows, bs)
}

/// Two stable orders of the same keys are the same.
proof fn lemma_stable_order_unique(keys: Seq<(u64, u64)>, r: Seq<usize>, q: Seq<usize>)
    requires
        is_stable_order(keys, r),
        is_stable_order(keys, q),
    ensures
        r == q,
{
    lemma_stable_order_agrees(keys, r, q, r.len());
    assert(r =~= q);
}

proof fn lemma_stable_order_agrees(keys: Seq<(u64, u64)>, r: Seq<usize>, q: Seq<usize>, n: nat)
    requires
        is_stable_order(keys, r),
        is_stable_order(keys, q),
        n <= r.len(),
    ensures
        forall|i: int| 0 <= i < n ==> r[i] == q[i],
    decreases n,
{
    if n > 0 {
        lemma_stable_order_agrees(keys, r, q, (n - 1) as nat);
        let i = n - 1;
        if r[i] != q[i] {
            assert(r[i] < keys.len() && q[i] < keys.len());
            assert(q.contains(r[i]));
            assert(r.contains(q[i]));
            let j = choose|j: int| 0 <= j < q.len() && q[j] == r[i];
            let k = choose|k: int| 0 <= k < r.len() && r[k] == q[i];
            if j < i {
                assert(r[j] == r[i]);
                assert(key_before(keys[r[j] as int], r[j] as int, keys[r[i] as int], r[i] as int));
            }
            if k < i {
                assert(q[k] == q[i]);
                assert(key_before(keys[q[k] as int], q[k] as int, keys[q[i] as int], q[i] as int));
            }
            assert(key_before(keys[q[i] as int], q[i] as int, keys[q[j] as int], q[j] as int));
            assert(key_before(keys[r[i] as int], r[i] as int, keys[r[k] as int], r[k] as int));
            assert(false);
        }
    }
}

/// Every lane is within the lane count, and the count is that of a lane.
pub proof fn lemma_lane_count(bs: Seq<Branch>)
    ensures
        forall|k: int| 0 <= k < bs.len() ==> (#[trigger] bs[k]).lane < lane_count(bs),
        bs.len() > 0 ==> lane_count(bs) > 0 && exists|k: int|
            0 <= k < bs.len() && (#[trigger] bs[k]).lane == lane_count(bs) - 1,
    decreases bs.len(),
{
    if bs.len() > 0 {
        let init = bs.drop_last();
        lemma_lane_count(init);
        assert forall|k: int| 0 <= k < bs.len() implies (#[trigger] bs[k]).lane < lane_count(bs) by {
            if k < init.len() {
                assert(init[k] == bs[k]);
            }
        }
        if bs.last().lane >= lane_count(init) {
            assert(bs[bs.len() - 1].lane == lane_count(bs) - 1);
        } else {
            let k = choose|k: int| 0 <= k < init.len() && (#[trigger] init[k]).lane == lane_count(init) - 1;
            assert(bs[k].lane == lane_count(bs) - 1);
        }
    }
}

/// Two layouts of the same rows agree on the depth of the first `n` branches.
proof fn lemma_first_fit_agrees(a: Seq<Branch>, b: Seq<Branch>, n: nat)
    requires
        is_first_fit(a),
        is_first_fit(b),
        a.len() == b.len(),
        forall|k: int| 0 <= k < a.len() ==> same_branch(#[trigger] a[k], b[k]),
        n <= a.len(),
    ensures
        forall|k: int| 0 <= k < n ==> #[trigger] depth(a, k) == depth(b, k),
    decreases n,
{
    if n > 0 {
        lemma_first_fit_agrees(a, b, (n - 1) as nat);
        lemma_lane_count(a);
        lemma_lane_count(b);
        let k = n - 1;
        assert(same_branch(a[k], b[k]));
        lemma_first_fit_step(a, b, k);
        assert forall|j: int| 0 <= j < k implies #[trigger] depth(b, j) == depth(a, j) by {
            assert(depth(a, j) == depth(b, j));
        }
        assert forall|j: int| 0 <= j < b.len() implies same_branch(#[trigger] b[j], a[j]) by {
            assert(same_branch(a[j], b[j]));
        }
        lemma_first_fit_step(b, a, k);
    }
}

proof fn lemma_first_fit_step(a: Seq<Branch>, b: Seq<Branch>, k: int)
    requires
        is_first_fit(a),
        is_first_fit(b),
        a.len() == b.len(),
        forall|j: int| 0 <= j < a.len() ==> same_branch(#[trigger] a[j], b[j]),
        0 <= k < a.len(),
        forall|j: int| 0 <= j < k ==> #[trigger] depth(a, j) == depth(b, j),
        0 <= depth(a, k),
    ensures
        depth(b, k) <= depth(a, k),
{
    if depth(a, k) < depth(b, k) {
        assert(blocked(b, k, depth(a, k)));
        let j = choose|j: int| 0 <= j < k && #[trigger] depth(b, j) == depth(a, k) && overlap(b[j], b[k]);
        assert(depth(a, j) == depth(b, j));
        assert(same_branch(a[j], b[j]));
        assert(same_branch(a[k], b[k]));
        assert(a[j].lane == a[k].lane);
    }
}

/// There is no more than one layout of the same rows.
pub proof fn lemma_layout_unique(rows: Seq<Row>, a: Seq<Branch>, b: Seq<Branch>)
    requires
        is_layout(rows, a),
        is_layout(rows, b),
    ensures
        a == b,
{
    let all = branches_of(rows, rows.len());
    let oa = choose|order: Seq<usize>| #[trigger] is_listed_by(rows, a, order);
    let ob = choose|order: Seq<usize>| #[trigger] is_listed_by(rows, b, order);
    lemma_stable_order_unique(span_keys(all), oa, ob);
    assert forall|k: int| 0 <= k < a.len() implies same_branch(#[trigger] a[k], b[k]) by {
        assert(same_branch(b[k], all[ob[k] as int]));
    }
    lemma_first_fit_agrees(a, b, a.len());
    lemma_lane_count(a);
    lemma_lane_count(b);
    if a.len() > 0 {
        let p = choose|p: int| 0 <= p < a.len() && (#[trigger] a[p]).lane == 0;
        let q = choose|q: int| 0 <= q < b.len() && (#[trigger] b[q]).lane == 0;
        assert(depth(a, p) == depth(b, p));
        assert(depth(a, q) == depth(b, q));
        assert(lane_count(a) == lane_count(b));
    }
    assert forall|i: int| 0 <= i < a.len() implies a[i] == b[i] by {
        assert(depth(a, i) == depth(b, i));
        assert(same_branch(a[i], b[i]));
    }
    assert(a =~= b);
}

/// The branches that leave `rows`, by row.
fn collect_branches(rows: &Vec<Row>) -> (r: Vec<Branch>)
    ensures
        r@ == branches_of(rows@, rows@.len()),
        r@.len() <= rows@.len(),
        forall|k: int| 0 <= k < r@.len() ==> (#[trigger] r@[k]).lo < r@[k].hi < rows@.len() && r@[k].lane == 0,
{
    let n = rows.len();
    let mut r: Vec<Branch> = Vec::new();
    let mut i: usize = 0;
    while i < n
        invariant
            i <= n,
            n == rows@.len(),
            r@ == branches_of(rows@, i as nat),
            r@.len() <= i,
            forall|k: int| 0 <= k < r@.len() ==> (#[trigger] r@[k]).lo < r@[k].hi < n && r@[k].lane == 0,
        decreases n - i,
    {
        if let Some((dest, branch_idx)) = rows[i].branch_to {
            if dest < n && dest != i {
                let lo: usize = if i < dest {
                    i
                } else {
                    dest
                };
                let hi: usize = if i < dest {
                    dest
                } else {
                    i
                };
                r.push(Branch { lo, hi, dest, src: i, branch_idx, lane: 0 });
            }
        }
        i = i + 1;
    }
    r
}

/// The branches of `rows` in the order in which lanes are given out.
fn sort_branches(rows: &Vec<Row>) -> (r: Vec<Branch>)
    ensures
        exists|order: Seq<usize>| #[trigger] is_listed_by(rows@, r@, order),
        r@.len() <= rows@.len(),
        forall|k: int| 0 <= k < r@.len() ==> (#[trigger] r@[k]).lo < r@[k].hi < rows@.len(),
{
    let all = collect_branches(rows);
    let n = all.len();
    let mut keys: Vec<(u64, u64)> = Vec::new();
    let mut i: usize = 0;
    while i < n
        invariant
            i <= n,
            n == all@.len(),
            keys@ == span_keys(all@).take(i as int),
            forall|k: int| 0 <= k < all@.len() ==> (#[trigger] all@[k]).lo < all@[k].hi,
        decreases n - i,
    {
        let b = all[i];
        keys.push(((b.hi - b.lo) as u64, b.lo as u64));
        assert(span_keys(all@).take(i + 1) =~= span_keys(all@).take(i as int).push(span_key(b)));
        i = i + 1;
    }
    assert(keys@ =~= span_keys(all@));
    let order = stable_order(&keys);
    let mut r: Vec<Branch> = Vec::new();
    let mut k: usize = 0;
    while k < n
        invariant
            k <= n,
            n == all@.len(),
            n == order@.len(),
            keys@ == span_keys(all@),
            is_stable_order(keys@, order@),
            r@.len() == k,
            forall|j: int| 0 <= j < all@.len() ==> (#[trigger] all@[j]).lo < all@[j].hi < rows@.len(),
            forall|j: int| 0 <= j < k ==> #[trigger] r@[j] == all@[order@[j] as int],
            forall|j: int| 0 <= j < k ==> (#[trigger] r@[j]).lo < r@[j].hi < rows@.len(),
        decreases n - k,
    {
        let at = order[k];
        assert(order@[k as int] < keys@.len());
        r.push(all[at]);
        k = k + 1;
    }
    assert(is_listed_by(rows@, r@, order@));
    r
}

/// Assigns each branch a lane, innermost first, so a lane is reused only by
/// branches whose spans do not overlap. Nested loops therefore nest visually
/// instead of overwriting one another.
pub fn assign_lanes(rows: &Vec<Row>) -> (r: Vec<Branch>)
    ensures
        is_layout(rows@, r@),
        r@ == layout(rows@),
        r@.len() <= rows@.len(),
        lane_count(r@) <= r@.len(),
        forall|k: int| 0 <= k < r@.len() ==> (#[trigger] r@[k]).lo < r@[k].hi < rows@.len(),
{
    let mut bs = sort_branches(rows);
    let n = bs.len();
    let ghost sorted = bs@;
    let ghost order = choose|order: Seq<usize>| #[trigger] is_listed_by(rows@, sorted, order);
    // How many lanes are given out, counted from the text.
    let mut lanes: usize = 0;
    let mut k: usize = 0;
    while k < n
        invariant
            k <= n,
            n == bs@.len(),
            n == sorted.len(),
            lanes <= k,
            forall|j: int| 0 <= j < n ==> same_branch(#[trigger] bs@[j], sorted[j]),
            forall|j: int| 0 <= j < n ==> (#[trigger] sorted[j]).lo < sorted[j].hi < rows@.len(),
            forall|j: int| 0 <= j < k ==> (#[trigger] bs@[j]).lane < lanes,
            forall|l: int| 0 <= l < lanes ==> #[trigger] used(bs@, k as int, l),
            forall|i: int, j: int|
                #![trigger bs@[i], bs@[j]]
                0 <= i < j < k && bs@[i].lane == bs@[j].lane ==> !overlap(bs@[i], bs@[j]),
            forall|j: int, l: int|
                #![trigger taken(bs@, j, l, bs@[j])]
                0 <= j < k && 0 <= l < bs@[j].lane ==> taken(bs@, j, l, bs@[j]),
        decreases n - k,
    {
        let ghost before = bs@;
        let ghost old_lanes = lanes;
        let b = bs[k];
        let l = free_lane(&bs, k, lanes, b);
        assert(same_branch(b, sorted[k as int]));
        if l == lanes {
            lanes = lanes + 1;
        }
        bs.set(k, Branch { lo: b.lo, hi: b.hi, dest: b.dest, src: b.src, branch_idx: b.branch_idx, lane: l });
        proof {
            assert(forall|j: int| 0 <= j < n && j != k ==> #[trigger] bs@[j] == before[j]);
            assert forall|d: int| 0 <= d < lanes implies #[trigger] used(bs@, k + 1, d) by {
                if d == l {
                    assert(bs@[k as int].lane == d);
                } else {
                    assert(used(before, k as int, d));
                    let j = choose|j: int| 0 <= j < k && (#[trigger] before[j]).lane == d;
                    assert(bs@[j].lane == d);
                }
            }
            assert forall|i: int, j: int|
                #![trigger bs@[i], bs@[j]]
                0 <= i < j < k + 1 && bs@[i].lane == bs@[j].lane implies !overlap(bs@[i], bs@[j]) by {
                assert(bs@[i] == before[i]);
                if j == k {
                    if overlap(before[i], b) {
                        assert(taken(before, k as int, l as int, b));
                    }
                } else {
                    assert(bs@[j] == before[j]);
                }
            }
            assert forall|j: int, d: int|
                #![trigger taken(bs@, j, d, bs@[j])]
                0 <= j < k + 1 && 0 <= d < bs@[j].lane implies taken(bs@, j, d, bs@[j]) by {
                if j < k {
                    assert(bs@[j] == before[j]);
                    assert(taken(before, j, d, before[j]));
                    let i = choose|i: int|
                        0 <= i < j && (#[trigger] before[i]).lane == d && overlap(before[i], before[j]);
                    assert(bs@[i] == before[i]);
                } else {
                    assert(taken(before, k as int, d, b));
                    let i = choose|i: int| 0 <= i < k && (#[trigger] before[i]).lane == d && overlap(before[i], b);
                    assert(bs@[i] == before[i]);
                }
            }
        }
        k = k + 1;
    }
    // Lane 0 is drawn rightmost (closest to the instruction text), so invert.
    let ghost raw = bs@;
    let mut i: usize = 0;
    while i < n
        invariant
            i <= n,
            n == bs@.len(),
            n == raw.len(),
            lanes <= n,
            forall|j: int| 0 <= j < n ==> (#[trigger] raw[j]).lane < lanes,
            forall|j: int| 0 <= j < n ==> same_branch(#[trigger] bs@[j], raw[j]),
            forall|j: int| 0 <= j < i ==> (#[trigger] bs@[j]).lane == lanes - 1 - raw[j].lane,
            forall|j: int| i <= j < n ==> (#[trigger] bs@[j]).lane == raw[j].lane,
        decreases n - i,
    {
        let b = bs[i];
        assert(raw[i as int].lane < lanes);
        bs.set(
            i,
            Branch {
                lo: b.lo,
                hi: b.hi,
                dest: b.dest,
                src: b.src,
                branch_idx: b.branch_idx,
                lane: lanes - 1 - b.lane,
            },
        );
        i = i + 1;
    }
    proof {
        lemma_inverted_lanes(raw, bs@, lanes as nat);
        assert forall|j: int| 0 <= j < bs@.len() implies same_branch(
            #[trigger] bs@[j],
            branches_of(rows@, rows@.len())[order[j] as int],
        ) by {
            assert(same_branch(raw[j], sorted[j]));
            assert(same_branch(sorted[j], branches_of(rows@, rows@.len())[order[j] as int]));
        }
        assert(is_listed_by(rows@, bs@, order));
        assert(is_layout(rows@, bs@));
        lemma_layout_unique(rows@, bs@, layout(rows@));
    }
    bs
}

/// Whether one of the first `n` branches stands in lane `l` and overlaps `b`.
spec fn taken(bs: Seq<Branch>, n: int, l: int, b: Branch) -> bool {
    exists|j: int| 0 <= j < n && (#[trigger] bs[j]).lane == l && overlap(bs[j], b)
}

/// Whether one of the first `n` branches stands in lane `l`.
spec fn used(bs: Seq<Branch>, n: int, l: int) -> bool {
    exists|j: int| 0 <= j < n && (#[trigger] bs[j]).lane == l
}

/// The first of the lanes that none of the first `n` branches overlapping `b`
/// stands in, or a new one where each is taken.
fn free_lane(bs: &Vec<Branch>, n: usize, lanes: usize, b: Branch) -> (l: usize)
    requires
        n <= bs@.len(),
        forall|j: int| 0 <= j < n ==> (#[trigger] bs@[j]).lane < lanes,
    ensures
        l <= lanes,
        !taken(bs@, n as int, l as int, b),
        forall|d: int| 0 <= d < l ==> #[trigger] taken(bs@, n as int, d, b),
{
    let mut busy: Vec<bool> = Vec::new();
    while busy.len() < lanes
        invariant
            busy@.len() <= lanes,
            forall|d: int| 0 <= d < busy@.len() ==> !(#[trigger] busy@[d]),
        decreases lanes - busy@.len(),
    {
        busy.push(false);
    }
    let mut j: usize = 0;
    while j < n
        invariant
            j <= n,
            n <= bs@.len(),
            busy@.len() == lanes,
            forall|i: int| 0 <= i < n ==> (#[trigger] bs@[i]).lane < lanes,
            forall|d: int| 0 <= d < lanes ==> (#[trigger] busy@[d] <==> taken(bs@, j as int, d, b)),
        decreases n - j,
    {
        let other = bs[j];
        let ghost was = busy@;
        let hit = other.lo <= b.hi && b.lo <= other.hi;
        if hit {
            busy.set(other.lane, true);
        }
        proof {
            assert forall|d: int| 0 <= d < lanes implies (#[trigger] busy@[d] <==> taken(bs@, j + 1, d, b)) by {
                assert(was[d] <==> taken(bs@, j as int, d, b));
                if taken(bs@, j as int, d, b) {
                    let i = choose|i: int| 0 <= i < j && (#[trigger] bs@[i]).lane == d && overlap(bs@[i], b);
                    assert(bs@[i].lane == d && i < j + 1);
                }
                if hit && other.lane == d {
                    assert(bs@[j as int].lane == d && overlap(bs@[j as int], b));
                }
                if taken(bs@, j + 1, d, b) {
                    let i = choose|i: int| 0 <= i < j + 1 && (#[trigger] bs@[i]).lane == d && overlap(bs@[i], b);
                    if i < j {
                        assert(taken(bs@, j as int, d, b));
                    }
                }
            }
        }
        j = j + 1;
    }
    let mut l: usize = 0;
    while l < lanes && busy[l]
        invariant
            l <= lanes,
            busy@.len() == lanes,
            forall|d: int| 0 <= d < lanes ==> (#[trigger] busy@[d] <==> taken(bs@, n as int, d, b)),
            forall|d: int| 0 <= d < l ==> #[trigger] taken(bs@, n as int, d, b),
        decreases lanes - l,
    {
        l = l + 1;
    }
    l
}

/// Lanes that were given out from the text and are then numbered from the left
/// are a first fit.
proof fn lemma_inverted_lanes(raw: Seq<Branch>, bs: Seq<Branch>, lanes: nat)
    requires
        raw.len() == bs.len(),
        lanes <= bs.len(),
        forall|j: int| 0 <= j < bs.len() ==> (#[trigger] raw[j]).lane < lanes,
        forall|j: int| 0 <= j < bs.len() ==> same_branch(#[trigger] bs[j], raw[j]),
        forall|j: int| 0 <= j < bs.len() ==> (#[trigger] bs[j]).lane == lanes - 1 - raw[j].lane,
        forall|l: int| 0 <= l < lanes ==> #[trigger] used(raw, raw.len() as int, l),
        forall|i: int, j: int|
            #![trigger raw[i], raw[j]]
            0 <= i < j < raw.len() && raw[i].lane == raw[j].lane ==> !overlap(raw[i], raw[j]),
        forall|j: int, l: int|
            #![trigger taken(raw, j, l, raw[j])]
            0 <= j < raw.len() && 0 <= l < raw[j].lane ==> taken(raw, j, l, raw[j]),
    ensures
        is_first_fit(bs),
        lane_count(bs) == lanes,
{
    lemma_lane_count(bs);
    if bs.len() > 0 {
        assert(raw[0].lane < lanes);
        assert(used(raw, raw.len() as int, 0));
        let f = choose|j: int| 0 <= j < raw.len() && (#[trigger] raw[j]).lane == 0;
        assert(bs[f].lane == lanes - 1);
        let t = lanes - 1;
        assert(used(raw, raw.len() as int, t));
        let g = choose|j: int| 0 <= j < raw.len() && (#[trigger] raw[j]).lane == t;
        assert(bs[g].lane == 0);
        let m = choose|m: int| 0 <= m < bs.len() && (#[trigger] bs[m]).lane == lane_count(bs) - 1;
        assert(bs[m].lane == lanes - 1 - raw[m].lane);
    } else {
        assert(lanes == 0);
    }
    assert forall|j: int, k: int|
        #![trigger bs[j], bs[k]]
        0 <= j < k < bs.len() && bs[j].lane == bs[k].lane implies !overlap(bs[j], bs[k]) by {
        assert(raw[j].lane == raw[k].lane);
        assert(same_branch(bs[j], raw[j]) && same_branch(bs[k], raw[k]));
    }
    assert forall|k: int, d: int|
        #![trigger blocked(bs, k, d)]
        0 <= k < bs.len() && 0 <= d < depth(bs, k) implies blocked(bs, k, d) by {
        assert(depth(bs, k) == raw[k].lane);
        assert(taken(raw, k, d, raw[k]));
        let j = choose|j: int| 0 <= j < k && (#[trigger] raw[j]).lane == d && overlap(raw[j], raw[k]);
        assert(same_branch(bs[j], raw[j]) && same_branch(bs[k], raw[k]));
        assert(depth(bs, j) == d);
    }
}

/// Whether row `i` lies within the span of `b`.
pub open spec fn covers(b: Branch, i: int) -> bool {
    b.lo <= i <= b.hi
}

/// The branch that is drawn in lane `l` at row `i`.
pub open spec fn drawn_at(bs: Seq<Branch>, i: int, l: int) -> Option<Branch>
    decreases bs.len(),
{
    if bs.len() == 0 {
        None
    } else if bs.last().lane == l && covers(bs.last(), i) {
        Some(bs.last())
    } else {
        drawn_at(bs.drop_last(), i, l)
    }
}

/// Of the branches that begin or end at row `i`, the innermost one.
pub open spec fn head_at(bs: Seq<Branch>, i: int) -> Option<Branch>
    decreases bs.len(),
{
    if bs.len() == 0 {
        None
    } else {
        let b = bs.last();
        match head_at(bs.drop_last(), i) {
            Some(h) => if (i == b.dest || i == b.src) && b.lane > h.lane {
                Some(b)
            } else {
                Some(h)
            },
            None => if i == b.dest || i == b.src {
                Some(b)
            } else {
                None
            },
        }
    }
}

/// How a branch is drawn at row `i`: it opens at its first row and closes at
/// its last.
pub open spec fn glyph(b: Branch, i: int) -> char {
    if i == b.lo {
        ','
    } else if i == b.hi {
        '`'
    } else {
        '|'
    }
}

/// One cell of the gutter and the branch it belongs to. A lane in which nothing
/// is drawn carries the horizontal that runs from the head's lane to the text,
/// where it lies between the two.
pub open spec fn cell_at(bs: Seq<Branch>, i: int, l: int) -> (char, Option<u32>) {
    match drawn_at(bs, i, l) {
        Some(b) => (glyph(b, i), Some(b.branch_idx)),
        None => match head_at(bs, i) {
            Some(h) => if l > h.lane {
                ('-', Some(h.branch_idx))
            } else {
                (' ', None)
            },
            None => (' ', None),
        },
    }
}

/// A cell as text.
pub open spec fn cell_text(cell: (char, Option<u32>), color: bool) -> Seq<char> {
    match cell.1 {
        Some(branch_idx) => styled(seq![cell.0], branch_ansi(branch_idx), color),
        None => seq![cell.0],
    }
}

/// The first `n` cells of row `i`.
pub open spec fn cells_text(bs: Seq<Branch>, i: int, n: nat, color: bool) -> Seq<char>
    decreases n,
{
    if n == 0 {
        Seq::empty()
    } else {
        cells_text(bs, i, (n - 1) as nat, color) + cell_text(cell_at(bs, i, n - 1), color)
    }
}

/// The arrow at row `i`: a head where a branch arrives, a line where one
/// leaves, and blanks where neither.
pub open spec fn head_text(bs: Seq<Branch>, i: int, color: bool) -> Seq<char> {
    match head_at(bs, i) {
        Some(h) => styled(if i == h.dest { "->"@ } else { "--"@ }, branch_ansi(h.branch_idx), color),
        None => "  "@,
    }
}

/// The gutter at row `i`.
pub open spec fn gutter_row(bs: Seq<Branch>, i: int, color: bool) -> Seq<char> {
    (cells_text(bs, i, lane_count(bs), color) + head_text(bs, i, color)).push(' ')
}

/// The gutter beside `rows`, row by row; nothing where no branch is drawn.
pub open spec fn gutter(rows: Seq<Row>, color: bool) -> Seq<Seq<char>> {
    if layout(rows).len() == 0 {
        Seq::new(rows.len(), |i: int| Seq::<char>::empty())
    } else {
        Seq::new(rows.len(), |i: int| gutter_row(layout(rows), i, color))
    }
}

/// How many columns the gutter takes: the lanes, a head of two, and a space.
pub open spec fn gutter_width(rows: Seq<Row>) -> nat {
    if layout(rows).len() == 0 {
        0
    } else {
        lane_count(layout(rows)) + 3
    }
}

/// Renders the gutter at one row.
fn render_gutter_row(bs: &Vec<Branch>, lanes: usize, i: usize, color: bool) -> (s: String)
    requires
        lanes == lane_count(bs@),
    ensures
        s@ == gutter_row(bs@, i as int, color),
{
    // Each lane's cell, and the branch that owns it (for color).
    let mut cells: Vec<(char, Option<u32>)> = Vec::new();
    while cells.len() < lanes
        invariant
            cells@.len() <= lanes,
            forall|l: int| 0 <= l < cells@.len() ==> #[trigger] cells@[l] == (' ', None::<u32>),
        decreases lanes - cells@.len(),
    {
        cells.push((' ', None));
    }
    // The innermost branch wins when two terminate on the same row; lanes
    // increase toward the text.
    let mut head: Option<Branch> = None;
    let n = bs.len();
    let mut k: usize = 0;
    assert(bs@.take(0) =~= Seq::empty());
    while k < n
        invariant
            k <= n,
            n == bs@.len(),
            lanes == lane_count(bs@),
            cells@.len() == lanes,
            head == head_at(bs@.take(k as int), i as int),
            forall|l: int|
                0 <= l < lanes ==> #[trigger] cells@[l] == match drawn_at(bs@.take(k as int), i as int, l) {
                    Some(b) => (glyph(b, i as int), Some(b.branch_idx)),
                    None => (' ', None::<u32>),
                },
        decreases n - k,
    {
        let b = bs[k];
        let ghost was = bs@.take(k as int);
        let ghost now = bs@.take(k + 1);
        assert(now.drop_last() =~= was);
        assert(now.last() == b);
        proof {
            lemma_lane_count(bs@);
            assert(bs@[k as int].lane < lanes);
        }
        if b.lo <= i && i <= b.hi {
            let ch: char = if i == b.lo {
                ','
            } else if i == b.hi {
                '`'
            } else {
                '|'
            };
            cells.set(b.lane, (ch, Some(b.branch_idx)));
        }
        if i == b.dest || i == b.src {
            let inner = match head {
                Some(h) => b.lane > h.lane,
                None => true,
            };
            if inner {
                head = Some(b);
            }
        }
        k = k + 1;
    }
    assert(bs@.take(n as int) =~= bs@);
    let mut s = String::new();
    let mut l: usize = 0;
    while l < lanes
        invariant
            l <= lanes,
            lanes == lane_count(bs@),
            cells@.len() == lanes,
            head == head_at(bs@, i as int),
            forall|m: int|
                0 <= m < lanes ==> #[trigger] cells@[m] == match drawn_at(bs@, i as int, m) {
                    Some(b) => (glyph(b, i as int), Some(b.branch_idx)),
                    None => (' ', None::<u32>),
                },
            s@ == cells_text(bs@, i as int, l as nat, color),
        decreases lanes - l,
    {
        let mut cell = cells[l];
        // Run a horizontal from the endpoint's lane out to the head, so the
        // arrow reads as one connected line. Only blank cells are filled: an
        // inner lane's vertical must stay unbroken, since it belongs to a
        // different branch that merely passes through this row.
        if let Some(h) = head {
            if l > h.lane && cell.1.is_none() {
                cell = ('-', Some(h.branch_idx));
            }
        }
        assert(cell == cell_at(bs@, i as int, l as int));
        let mut mark = String::new();
        mark.push(cell.0);
        assert(mark@ =~= seq![cell.0]);
        match cell.1 {
            Some(branch_idx) => {
                append_styled(&mut s, mark.as_str(), branch_color(branch_idx), color);
            },
            None => {
                s.append(mark.as_str());
            },
        }
        l = l + 1;
    }
    match head {
        Some(h) => {
            let arrow = if i == h.dest {
                "->"
            } else {
                "--"
            };
            append_styled(&mut s, arrow, branch_color(h.branch_idx), color);
        },
        None => {
            s.append("  ");
        },
    }
    s.push(' ');
    s
}

/// Renders the branch gutter for one side: a per-row string plus its printed
/// width. Returns empty strings and width 0 when there is nothing to draw.
pub fn branch_gutter(rows: &Vec<Row>, color: bool) -> (r: (Vec<String>, usize))
    requires
        rows@.len() + 3 <= usize::MAX,
    ensures
        crate::text::texts(r.0@) == gutter(rows@, color),
        r.1 == gutter_width(rows@),
        r.1 <= rows@.len() + 3,
{
    let bs = assign_lanes(rows);
    let n = rows.len();
    let mut out: Vec<String> = Vec::new();
    let mut i: usize = 0;
    if bs.len() == 0 {
        while i < n
            invariant
                i <= n,
                n == rows@.len(),
                out@.len() == i,
                forall|j: int| 0 <= j < i ==> (#[trigger] out@[j])@ == Seq::<char>::empty(),
            decreases n - i,
        {
            out.push(String::new());
            i = i + 1;
        }
        assert(crate::text::texts(out@) =~= gutter(rows@, color));
        return (out, 0);
    }
    let mut lanes: usize = 0;
    let m = bs.len();
    let mut k: usize = 0;
    assert(bs@.take(0) =~= Seq::empty());
    while k < m
        invariant
            k <= m,
            m == bs@.len(),
            lanes == lane_count(bs@.take(k as int)),
            lane_count(bs@) <= m,
        decreases m - k,
    {
        assert(bs@.take(k + 1).drop_last() =~= bs@.take(k as int));
        proof {
            lemma_lane_count(bs@);
            assert(bs@[k as int].lane < lane_count(bs@));
        }
        if bs[k].lane >= lanes {
            lanes = bs[k].lane + 1;
        }
        k = k + 1;
    }
    assert(bs@.take(m as int) =~= bs@);
    while i < n
        invariant
            i <= n,
            n == rows@.len(),
            lanes == lane_count(bs@),
            out@.len() == i,
            forall|j: int| 0 <= j < i ==> (#[trigger] out@[j])@ == gutter_row(bs@, j, color),
        decreases n - i,
    {
        out.push(render_gutter_row(&bs, lanes, i, color));
        i = i + 1;
    }
    assert(crate::text::texts(out@) =~= gutter(rows@, color));
    (out, lanes + 3)
}

/// At one row a lane belongs to one branch: branches that share a lane do not
/// overlap.
pub proof fn law_lane_is_shared_only_without_overlap(rows: Seq<Row>, bs: Seq<Branch>, j: int, k: int, i: int)
    requires
        is_layout(rows, bs),
        0 <= j < bs.len(),
        0 <= k < bs.len(),
        bs[j].lane == bs[k].lane,
        covers(bs[j], i),
        covers(bs[k], i),
    ensures
        j == k,
{
    if j < k {
        assert(!overlap(bs[j], bs[k]));
    } else if k < j {
        assert(!overlap(bs[k], bs[j]));
    }
}

/// Disjoint branches reuse one lane rather than widening the gutter: where no two
/// overlap, there is one lane.
pub proof fn law_disjoint_branches_share_one_lane(rows: Seq<Row>, bs: Seq<Branch>)
    requires
        is_layout(rows, bs),
        bs.len() > 0,
        forall|j: int, k: int| #![trigger bs[j], bs[k]] 0 <= j < k < bs.len() ==> !overlap(bs[j], bs[k]),
    ensures
        lane_count(bs) == 1,
{
    lemma_lane_count(bs);
    let k = choose|k: int| 0 <= k < bs.len() && (#[trigger] bs[k]).lane == 0;
    if depth(bs, k) > 0 {
        assert(blocked(bs, k, 0));
        let j = choose|j: int| 0 <= j < k && #[trigger] depth(bs, j) == 0 && overlap(bs[j], bs[k]);
        assert(!overlap(bs[j], bs[k]));
    }
}

/// Nested branches nest visually: of two branches, the shorter within the
/// longer, the inner one's lane is nearer the text.
pub proof fn law_inner_branch_is_nearer_the_text(rows: Seq<Row>, bs: Seq<Branch>, j: int, k: int)
    requires
        is_layout(rows, bs),
        0 <= j < bs.len(),
        0 <= k < bs.len(),
        bs[k].lo <= bs[j].lo <= bs[j].hi <= bs[k].hi,
        bs[j].hi - bs[j].lo < bs[k].hi - bs[k].lo,
    ensures
        bs[j].lane > bs[k].lane,
{
    law_shorter_branch_is_listed_first(rows, bs, j, k);
    lemma_lane_count(bs);
    let d = depth(bs, k);
    assert(bs[j].lane < lane_count(bs) && bs[k].lane < lane_count(bs));
    if bs[j].lane == bs[k].lane {
        assert(!overlap(bs[j], bs[k]));
    } else if bs[j].lane < bs[k].lane {
        assert(blocked(bs, j, d));
        let i = choose|i: int| 0 <= i < j && #[trigger] depth(bs, i) == d && overlap(bs[i], bs[j]);
        assert(bs[i].lane == bs[k].lane);
        assert(!overlap(bs[i], bs[k]));
    }
}

/// Branches are taken up from the shortest span to the longest.
pub proof fn law_shorter_branch_is_listed_first(rows: Seq<Row>, bs: Seq<Branch>, j: int, k: int)
    requires
        is_layout(rows, bs),
        0 <= j < bs.len(),
        0 <= k < bs.len(),
        bs[j].hi - bs[j].lo < bs[k].hi - bs[k].lo,
        bs[j].lo <= bs[j].hi,
    ensures
        j < k,
{
    let all = branches_of(rows, rows.len());
    let order = choose|order: Seq<usize>| #[trigger] is_listed_by(rows, bs, order);
    assert(same_branch(bs[j], all[order[j] as int]));
    assert(same_branch(bs[k], all[order[k] as int]));
    let keys = span_keys(all);
    assert(order[j] < keys.len() && order[k] < keys.len());
    if k < j {
        assert(key_before(keys[order[k] as int], order[k] as int, keys[order[j] as int], order[j] as int));
    }
}

/// A branch is drawn unbroken: in its lane every row of its span shows it, and
/// no other branch.
pub proof fn law_branch_is_drawn_along_its_span(rows: Seq<Row>, bs: Seq<Branch>, k: int, i: int)
    requires
        is_layout(rows, bs),
        0 <= k < bs.len(),
        covers(bs[k], i),
    ensures
        drawn_at(bs, i, bs[k].lane as int) == Some(bs[k]),
        cell_at(bs, i, bs[k].lane as int) == (glyph(bs[k], i), Some(bs[k].branch_idx)),
{
    lemma_drawn_at(rows, bs, k, i, bs.len());
    assert(bs.take(bs.len() as int) =~= bs);
}

proof fn lemma_drawn_at(rows: Seq<Row>, bs: Seq<Branch>, k: int, i: int, n: nat)
    requires
        is_layout(rows, bs),
        0 <= k < n <= bs.len(),
        covers(bs[k], i),
    ensures
        drawn_at(bs.take(n as int), i, bs[k].lane as int) == Some(bs[k]),
    decreases n,
{
    let seen = bs.take(n as int);
    assert(seen.drop_last() =~= bs.take(n - 1));
    let last = bs[n - 1];
    assert(seen.last() == last);
    if k < n - 1 {
        if last.lane == bs[k].lane && covers(last, i) {
            law_lane_is_shared_only_without_overlap(rows, bs, k, n - 1, i);
        }
        lemma_drawn_at(rows, bs, k, i, (n - 1) as nat);
    }
}

/// A row at which a branch begins or ends has a head, and the head belongs to
/// the innermost of the branches that do.
pub proof fn law_a_branch_end_has_a_head(bs: Seq<Branch>, k: int, i: int)
    requires
        0 <= k < bs.len(),
        i == bs[k].dest || i == bs[k].src,
    ensures
        head_at(bs, i) is Some,
        head_at(bs, i)->0.lane >= bs[k].lane,
        i == head_at(bs, i)->0.dest || i == head_at(bs, i)->0.src,
        bs.contains(head_at(bs, i)->0),
    decreases bs.len(),
{
    let rest = bs.drop_last();
    lemma_head_at(rest, i);
    if k < bs.len() - 1 {
        law_a_branch_end_has_a_head(rest, k, i);
        assert(rest[k] == bs[k]);
    }
    let head = head_at(bs, i)->0;
    if head_at(rest, i) is Some && head == head_at(rest, i)->0 {
        let j = choose|j: int| 0 <= j < rest.len() && rest[j] == head;
        assert(bs[j] == head);
    } else {
        assert(bs[bs.len() - 1] == head);
    }
}

proof fn lemma_head_at(bs: Seq<Branch>, i: int)
    ensures
        match head_at(bs, i) {
            Some(h) => bs.contains(h) && (i == h.dest || i == h.src),
            None => true,
        },
    decreases bs.len(),
{
    if bs.len() > 0 {
        let rest = bs.drop_last();
        lemma_head_at(rest, i);
        match head_at(rest, i) {
            Some(h) => {
                let j = choose|j: int| 0 <= j < rest.len() && rest[j] == h;
                assert(bs[j] == h);
            },
            None => {},
        }
        assert(bs[bs.len() - 1] == bs.last());
    }
}

/// Every row's gutter takes the same columns, whether colored or not, and a
/// colored gutter shows what the plain one reads.
pub proof fn law_gutter_columns(rows: Seq<Row>, i: int)
    requires
        0 <= i < rows.len(),
    ensures
        gutter(rows, false)[i].len() == gutter_width(rows),
        is_plain(gutter(rows, false)[i]),
        trims_alike(gutter(rows, true)[i], gutter(rows, false)[i]),
{
    let bs = layout(rows);
    if bs.len() == 0 {
        lemma_plain_trims_alike(Seq::<char>::empty());
    } else {
        lemma_cells(bs, i, lane_count(bs));
        let plain = cells_text(bs, i, lane_count(bs), false);
        let colored = cells_text(bs, i, lane_count(bs), true);
        reveal_strlit("->");
        reveal_strlit("--");
        reveal_strlit("  ");
        let ph = head_text(bs, i, false);
        let ch = head_text(bs, i, true);
        assert(is_plain(ph));
        lemma_plain_trims_alike(ph);
        match head_at(bs, i) {
            Some(h) => {
                lemma_branch_ansi_is_escape(h.branch_idx);
                lemma_styled_trims_alike(ph, branch_ansi(h.branch_idx), true);
            },
            None => {},
        }
        lemma_concat_trims_alike(colored, plain, ch, ph);
        let space = seq![' '];
        lemma_plain_trims_alike(space);
        lemma_concat_trims_alike(colored + ch, plain + ph, space, space);
        lemma_plain_concat(plain, ph);
        lemma_plain_concat(plain + ph, space);
        assert(gutter_row(bs, i, true) =~= colored + ch + space);
        assert(gutter_row(bs, i, false) =~= plain + ph + space);
    }
}

proof fn lemma_cells(bs: Seq<Branch>, i: int, n: nat)
    ensures
        cells_text(bs, i, n, false).len() == n,
        is_plain(cells_text(bs, i, n, false)),
        trims_alike(cells_text(bs, i, n, true), cells_text(bs, i, n, false)),
    decreases n,
{
    if n == 0 {
        lemma_plain_trims_alike(Seq::<char>::empty());
    } else {
        lemma_cells(bs, i, (n - 1) as nat);
        let cell = cell_at(bs, i, n - 1);
        let mark = seq![cell.0];
        assert(is_plain(mark));
        lemma_plain_trims_alike(mark);
        match cell.1 {
            Some(branch_idx) => {
                lemma_branch_ansi_is_escape(branch_idx);
                lemma_styled_trims_alike(mark, branch_ansi(branch_idx), true);
            },
            None => {},
        }
        let colored = cells_text(bs, i, (n - 1) as nat, true);
        let plain = cells_text(bs, i, (n - 1) as nat, false);
        lemma_concat_trims_alike(colored, plain, cell_text(cell, true), mark);
        lemma_plain_concat(plain, mark);
    }
}

/// The plain gutter is drawn with blanks, corners, verticals, horizontals and
/// arrow heads, and nothing else.
pub proof fn law_gutter_is_drawn_in_strokes(rows: Seq<Row>, i: int, j: int)
    requires
        0 <= i < rows.len(),
        0 <= j < gutter(rows, false)[i].len(),
    ensures
        ({
            let c = gutter(rows, false)[i][j];
            c == ' ' || c == ',' || c == '`' || c == '|' || c == '-' || c == '>'
        }),
{
    let bs = layout(rows);
    reveal_strlit("->");
    reveal_strlit("--");
    reveal_strlit("  ");
    lemma_cells(bs, i, lane_count(bs));
    if j < lane_count(bs) {
        lemma_cell_stands(bs, i, lane_count(bs), j);
    }
}

proof fn lemma_cell_stands(bs: Seq<Branch>, i: int, n: nat, l: int)
    requires
        0 <= l < n,
    ensures
        cells_text(bs, i, n, false).len() == n,
        cells_text(bs, i, n, false)[l] == cell_at(bs, i, l).0,
    decreases n,
{
    lemma_cells(bs, i, n);
    lemma_cells(bs, i, (n - 1) as nat);
    if l < n - 1 {
        lemma_cell_stands(bs, i, (n - 1) as nat, l);
    }
}

/// Whether a branch begins or ends at row `i`.
pub open spec fn ends_at(b: Branch, i: int) -> bool {
    i == b.src || i == b.dest
}

/// Whether row `i` branches to another row of the function.
pub open spec fn branches_away(rows: Seq<Row>, i: int) -> bool {
    match rows[i].branch_to {
        Some((dest, _)) => dest != i && dest < rows.len(),
        None => false,
    }
}

/// Exactly the rows that branch to another row of the function have a branch, in
/// the order of the rows; it goes from its row to where the row branches to, and
/// spans the rows between them. The rows are given.
pub proof fn law_every_branch_is_collected(rows: Seq<Row>) -> (order: Seq<int>)
    requires
        rows.len() <= usize::MAX,
    ensures
        selects(order, rows.len() as int, |i: int| branches_away(rows, i)),
        branches_of(rows, rows.len()).len() == order.len(),
        forall|k: int|
            0 <= k < order.len() ==> {
                let b = #[trigger] branches_of(rows, rows.len())[k];
                let (dest, branch_idx) = rows[order[k]].branch_to->0;
                &&& b.src == order[k]
                &&& b.dest == dest
                &&& b.branch_idx == branch_idx
                &&& b.lo == (if order[k] < dest { order[k] } else { dest as int })
                &&& b.hi == (if order[k] < dest { dest as int } else { order[k] })
            },
{
    lemma_collected(rows, rows.len())
}

proof fn lemma_collected(rows: Seq<Row>, n: nat) -> (order: Seq<int>)
    requires
        n <= rows.len() <= usize::MAX,
    ensures
        selects(order, n as int, |i: int| branches_away(rows, i)),
        branches_of(rows, n).len() == order.len(),
        forall|k: int|
            0 <= k < order.len() ==> {
                let b = #[trigger] branches_of(rows, n)[k];
                let (dest, branch_idx) = rows[order[k]].branch_to->0;
                &&& b.src == order[k]
                &&& b.dest == dest
                &&& b.branch_idx == branch_idx
                &&& b.lo == (if order[k] < dest { order[k] } else { dest as int })
                &&& b.hi == (if order[k] < dest { dest as int } else { order[k] })
            },
    decreases n,
{
    let wanted = |i: int| branches_away(rows, i);
    if n == 0 {
        Seq::empty()
    } else {
        let before = lemma_collected(rows, (n - 1) as nat);
        lemma_selects_more(before, n - 1, wanted);
        if wanted(n - 1) {
            before.push(n - 1)
        } else {
            before
        }
    }
}

/// The lanes and the arrow of a plain row: a branch that passes the row shows in
/// its lane, with a corner where it begins and ends and a vertical between; an
/// empty lane carries the horizontal where every branch that ends at the row
/// stands left of it, and is blank otherwise; of those that end at the row the
/// innermost has the arrow, with a head where it arrives and without where it
/// leaves.
pub proof fn law_a_row_of_the_gutter_is_drawn(rows: Seq<Row>, bs: Seq<Branch>, i: int)
    requires
        is_layout(rows, bs),
        bs.len() > 0,
    ensures
        ({
            let g = gutter_row(bs, i, false);
            let lanes = lane_count(bs) as int;
            &&& g.len() == lanes + 3
            &&& forall|k: int|
                0 <= k < bs.len() && (#[trigger] bs[k]).lo <= i <= bs[k].hi ==> bs[k].lane < lanes
                    && g[bs[k].lane as int] == (if i == bs[k].lo {
                    ','
                } else if i == bs[k].hi {
                    '`'
                } else {
                    '|'
                })
            &&& forall|l: int|
                #![trigger g[l]]
                0 <= l < lanes && (forall|k: int|
                    0 <= k < bs.len() && (#[trigger] bs[k]).lo <= i <= bs[k].hi ==> bs[k].lane != l) ==> {
                    let ending = exists|k: int| 0 <= k < bs.len() && ends_at(#[trigger] bs[k], i);
                    let inside = forall|k: int|
                        0 <= k < bs.len() && ends_at(#[trigger] bs[k], i) ==> bs[k].lane < l;
                    g[l] == (if ending && inside {
                        '-'
                    } else {
                        ' '
                    })
                }
            &&& forall|k: int|
                0 <= k < bs.len() && ends_at(#[trigger] bs[k], i) && (forall|j: int|
                    0 <= j < bs.len() && j != k && ends_at(#[trigger] bs[j], i) ==> bs[j].lane < bs[k].lane)
                    ==> g[lanes] == '-' && g[lanes + 1] == (if i == bs[k].dest {
                    '>'
                } else {
                    '-'
                })
            &&& (forall|k: int| 0 <= k < bs.len() ==> !ends_at(#[trigger] bs[k], i)) ==> g[lanes] == ' ' && g[lanes
                + 1] == ' '
            &&& g[lanes + 2] == ' '
        }),
{
    let g = gutter_row(bs, i, false);
    let lanes = lane_count(bs) as int;
    lemma_lane_count(bs);
    lemma_cells(bs, i, lane_count(bs));
    lemma_head_at(bs, i);
    reveal_strlit("->");
    reveal_strlit("--");
    reveal_strlit("  ");
    let cells = cells_text(bs, i, lane_count(bs), false);
    assert forall|l: int| 0 <= l < lanes implies g[l] == #[trigger] cell_at(bs, i, l).0 by {
        lemma_cell_stands(bs, i, lane_count(bs), l);
    }
    assert forall|k: int| 0 <= k < bs.len() && (#[trigger] bs[k]).lo <= i <= bs[k].hi implies bs[k].lane < lanes && g[
    bs[k].lane as int] == (if i == bs[k].lo {
        ','
    } else if i == bs[k].hi {
        '`'
    } else {
        '|'
    }) by {
        law_branch_is_drawn_along_its_span(rows, bs, k, i);
        assert(g[bs[k].lane as int] == cell_at(bs, i, bs[k].lane as int).0);
    }
    assert forall|l: int|
        #![trigger g[l]]
        0 <= l < lanes && (forall|k: int|
            0 <= k < bs.len() && (#[trigger] bs[k]).lo <= i <= bs[k].hi ==> bs[k].lane != l) implies {
        let ending = exists|k: int| 0 <= k < bs.len() && ends_at(#[trigger] bs[k], i);
        let inside = forall|k: int| 0 <= k < bs.len() && ends_at(#[trigger] bs[k], i) ==> bs[k].lane < l;
        g[l] == (if ending && inside {
            '-'
        } else {
            ' '
        })
    } by {
        assert(g[l] == cell_at(bs, i, l).0);
        lemma_nothing_drawn(bs, i, l);
        match head_at(bs, i) {
            Some(h) => {
                let k = choose|k: int| 0 <= k < bs.len() && bs[k] == h;
                assert(ends_at(bs[k], i));
                if l > h.lane {
                    assert forall|j: int| 0 <= j < bs.len() && ends_at(#[trigger] bs[j], i) implies bs[j].lane < l by {
                        law_a_branch_end_has_a_head(bs, j, i);
                    }
                }
            },
            None => {
                assert forall|j: int| 0 <= j < bs.len() implies !ends_at(#[trigger] bs[j], i) by {
                    if ends_at(bs[j], i) {
                        law_a_branch_end_has_a_head(bs, j, i);
                    }
                }
            },
        }
    }
    assert forall|k: int|
        0 <= k < bs.len() && ends_at(#[trigger] bs[k], i) && (forall|j: int|
            0 <= j < bs.len() && j != k && ends_at(#[trigger] bs[j], i) ==> bs[j].lane < bs[k].lane) implies g[lanes]
        == '-' && g[lanes + 1] == (if i == bs[k].dest {
        '>'
    } else {
        '-'
    }) by {
        law_a_branch_end_has_a_head(bs, k, i);
        let h = head_at(bs, i)->0;
        let j = choose|j: int| 0 <= j < bs.len() && bs[j] == h;
        assert(ends_at(bs[j], i));
        assert(j == k);
    }
    if forall|k: int| 0 <= k < bs.len() ==> !ends_at(#[trigger] bs[k], i) {
        if head_at(bs, i) is Some {
            let h = head_at(bs, i)->0;
            let j = choose|j: int| 0 <= j < bs.len() && bs[j] == h;
            assert(ends_at(bs[j], i));
        }
    }
}

proof fn lemma_nothing_drawn(bs: Seq<Branch>, i: int, l: int)
    requires
        forall|k: int| 0 <= k < bs.len() && (#[trigger] bs[k]).lo <= i <= bs[k].hi ==> bs[k].lane != l,
    ensures
        drawn_at(bs, i, l) is None,
    decreases bs.len(),
{
    if bs.len() > 0 {
        assert(bs[bs.len() - 1] == bs.last());
        let rest = bs.drop_last();
        assert forall|k: int| 0 <= k < rest.len() && (#[trigger] rest[k]).lo <= i <= rest[k].hi implies rest[k].lane
            != l by {
            assert(rest[k] == bs[k]);
        }
        lemma_nothing_drawn(rest, i, l);
    }
}

/// The gutter beside a function is that of its branches, row by row, and empty
/// where it has none; the lanes are as many as are used.
pub proof fn law_the_gutter_has_a_row_for_every_row(rows: Seq<Row>, color: bool, i: int)
    requires
        0 <= i < rows.len(),
    ensures
        gutter(rows, color).len() == rows.len(),
        layout(rows).len() == 0 ==> gutter(rows, color)[i].len() == 0 && gutter_width(rows) == 0,
        layout(rows).len() > 0 ==> gutter(rows, color)[i] == gutter_row(layout(rows), i, color) && gutter_width(rows)
            == gutter(rows, false)[i].len(),
        forall|k: int|
            0 <= k < layout(rows).len() ==> (#[trigger] layout(rows)[k]).lane < lane_count(layout(rows)),
        layout(rows).len() > 0 ==> exists|k: int|
            0 <= k < layout(rows).len() && (#[trigger] layout(rows)[k]).lane == lane_count(layout(rows)) - 1,
{
    law_gutter_columns(rows, i);
    lemma_lane_count(layout(rows));
}

/// Of branches that span as many rows the one that begins first is listed first,
/// and of those that begin together the one whose row comes first.
pub proof fn law_the_upper_branch_is_listed_first(rows: Seq<Row>, bs: Seq<Branch>, j: int, k: int)
    requires
        rows.len() <= usize::MAX,
        is_layout(rows, bs),
        0 <= j < bs.len(),
        0 <= k < bs.len(),
        bs[j].lo <= bs[j].hi,
        bs[j].hi - bs[j].lo == bs[k].hi - bs[k].lo,
        bs[j].lo < bs[k].lo || (bs[j].lo == bs[k].lo && bs[j].src < bs[k].src),
    ensures
        j < k,
{
    let all = branches_of(rows, rows.len());
    let order = choose|order: Seq<usize>| #[trigger] is_listed_by(rows, bs, order);
    assert(same_branch(bs[j], all[order[j] as int]));
    assert(same_branch(bs[k], all[order[k] as int]));
    let keys = span_keys(all);
    assert(order[j] < keys.len() && order[k] < keys.len());
    let from = law_every_branch_is_collected(rows);
    assert(all[order[j] as int].src == from[order[j] as int]);
    assert(all[order[k] as int].src == from[order[k] as int]);
    if k < j {
        assert(key_before(keys[order[k] as int], order[k] as int, keys[order[j] as int], order[j] as int));
        assert(from[order[k] as int] < from[order[j] as int]);
    }
}

/// In color every branch is drawn in its own: its cells along its span, and the
/// arrow of the innermost that ends at a row. The cells are given.
pub proof fn law_a_branch_is_drawn_in_its_color(rows: Seq<Row>, bs: Seq<Branch>, i: int) -> (cells: Seq<Seq<char>>)
    requires
        is_layout(rows, bs),
        bs.len() > 0,
    ensures
        cells.len() == lane_count(bs),
        forall|k: int|
            0 <= k < bs.len() && (#[trigger] bs[k]).lo <= i <= bs[k].hi ==> cells[bs[k].lane as int] == branch_ansi(
                bs[k].branch_idx,
            ) + seq![gutter_row(bs, i, false)[bs[k].lane as int]] + "\x1b[0m"@,
        forall|k: int|
            0 <= k < bs.len() && ends_at(#[trigger] bs[k], i) && (forall|j: int|
                0 <= j < bs.len() && j != k && ends_at(#[trigger] bs[j], i) ==> bs[j].lane < bs[k].lane)
                ==> gutter_row(bs, i, true) == joined(cells, ""@) + (branch_ansi(bs[k].branch_idx) + (if i
                == bs[k].dest {
                "->"@
            } else {
                "--"@
            }) + "\x1b[0m"@) + seq![' '],
        (forall|k: int| 0 <= k < bs.len() ==> !ends_at(#[trigger] bs[k], i)) ==> gutter_row(bs, i, true) == joined(
            cells,
            ""@,
        ) + "  "@ + seq![' '],
{
    let cells = Seq::new(lane_count(bs), |l: int| cell_text(cell_at(bs, i, l), true));
    lemma_cells_joined(bs, i, lane_count(bs));
    lemma_lane_count(bs);
    lemma_head_at(bs, i);
    assert forall|k: int| 0 <= k < bs.len() && (#[trigger] bs[k]).lo <= i <= bs[k].hi implies cells[bs[k].lane as int]
        == branch_ansi(bs[k].branch_idx) + seq![gutter_row(bs, i, false)[bs[k].lane as int]] + "\x1b[0m"@ by {
        law_branch_is_drawn_along_its_span(rows, bs, k, i);
        lemma_cell_stands(bs, i, lane_count(bs), bs[k].lane as int);
        lemma_branch_ansi_is_escape(bs[k].branch_idx);
    }
    let text = joined(cells, ""@);
    assert forall|k: int|
        0 <= k < bs.len() && ends_at(#[trigger] bs[k], i) && (forall|j: int|
            0 <= j < bs.len() && j != k && ends_at(#[trigger] bs[j], i) ==> bs[j].lane < bs[k].lane) implies gutter_row(
        bs,
        i,
        true,
    ) == text + (branch_ansi(bs[k].branch_idx) + (if i == bs[k].dest {
        "->"@
    } else {
        "--"@
    }) + "\x1b[0m"@) + seq![' '] by {
        law_a_branch_end_has_a_head(bs, k, i);
        let h = head_at(bs, i)->0;
        let j = choose|j: int| 0 <= j < bs.len() && bs[j] == h;
        assert(ends_at(bs[j], i));
        assert(j == k);
        lemma_branch_ansi_is_escape(h.branch_idx);
        let arrow = head_text(bs, i, true);
        assert((text + arrow).push(' ') =~= text + arrow + seq![' ']);
    }
    if forall|k: int| 0 <= k < bs.len() ==> !ends_at(#[trigger] bs[k], i) {
        if head_at(bs, i) is Some {
            let h = head_at(bs, i)->0;
            let j = choose|j: int| 0 <= j < bs.len() && bs[j] == h;
            assert(ends_at(bs[j], i));
        }
        assert((text + "  "@).push(' ') =~= text + "  "@ + seq![' ']);
    }
    cells
}

proof fn lemma_cells_joined(bs: Seq<Branch>, i: int, n: nat)
    ensures
        cells_text(bs, i, n, true) == joined(Seq::new(n, |l: int| cell_text(cell_at(bs, i, l), true)), ""@),
    decreases n,
{
    if n > 0 {
        let m = (n - 1) as nat;
        lemma_cells_joined(bs, i, m);
        let before = Seq::new(m, |l: int| cell_text(cell_at(bs, i, l), true));
        let cell = cell_text(cell_at(bs, i, n - 1), true);
        lemma_joined_with_nothing(before, cell);
        assert(Seq::new(n, |l: int| cell_text(cell_at(bs, i, l), true)) =~= before.push(cell));
    }
}

/// A branch stands as near the text as it can: in every lane nearer the text
/// stands a branch listed before it that has a row in common with it; so one that
/// has none in common with those before it stands right at the text.
pub proof fn law_a_branch_stands_as_near_the_text_as_it_can(rows: Seq<Row>, bs: Seq<Branch>, k: int, l: int)
    requires
        is_layout(rows, bs),
        0 <= k < bs.len(),
        bs[k].lane < l < lane_count(bs),
    ensures
        exists|j: int|
            0 <= j < k && (#[trigger] bs[j]).lane == l && bs[j].lo <= bs[k].hi && bs[k].lo <= bs[j].hi,
{
    lemma_lane_count(bs);
    let d = lane_count(bs) - 1 - l;
    assert(blocked(bs, k, d));
    let j = choose|j: int| 0 <= j < k && #[trigger] depth(bs, j) == d && overlap(bs[j], bs[k]);
    assert(bs[j].lane == l);
}

/// A layout holds exactly the branches of the rows, each once, whatever the lane.
pub proof fn law_a_layout_holds_every_branch(rows: Seq<Row>, bs: Seq<Branch>, src: int)
    requires
        rows.len() <= usize::MAX,
        is_layout(rows, bs),
    ensures
        bs.len() == branches_of(rows, rows.len()).len(),
        0 <= src < rows.len() && branches_away(rows, src) ==> exists|k: int|
            {
                &&& 0 <= k < bs.len()
                &&& (#[trigger] bs[k]).src == src
                &&& rows[src].branch_to == Some((bs[k].dest, bs[k].branch_idx))
            },
        forall|k: int|
            0 <= k < bs.len() ==> {
                &&& (#[trigger] bs[k]).src < rows.len()
                &&& branches_away(rows, bs[k].src as int)
                &&& rows[bs[k].src as int].branch_to == Some((bs[k].dest, bs[k].branch_idx))
            },
{
    let all = branches_of(rows, rows.len());
    let order = choose|order: Seq<usize>| #[trigger] is_listed_by(rows, bs, order);
    let from = law_every_branch_is_collected(rows);
    let wanted = |i: int| branches_away(rows, i);
    assert forall|k: int| 0 <= k < bs.len() implies {
        &&& (#[trigger] bs[k]).src < rows.len()
        &&& branches_away(rows, bs[k].src as int)
        &&& rows[bs[k].src as int].branch_to == Some((bs[k].dest, bs[k].branch_idx))
    } by {
        let p = order[k] as int;
        assert(same_branch(bs[k], all[p]));
        assert(0 <= p < all.len());
        assert(all[p].src == from[p]);
        assert(wanted(from[p]));
    }
    if 0 <= src < rows.len() && branches_away(rows, src) {
        assert(wanted(src));
        assert(from.contains(src));
        let p = choose|p: int| 0 <= p < from.len() && from[p] == src;
        lemma_collected_len(rows, rows.len());
        assert(order.contains(p as usize));
        let k = choose|k: int| 0 <= k < order.len() && order[k] == p as usize;
        assert(same_branch(bs[k], all[p]));
        assert(all[p].src == from[p]);
        assert(bs[k].src == src);
    }
}

proof fn lemma_collected_len(rows: Seq<Row>, n: nat)
    ensures
        branches_of(rows, n).len() <= n,
    decreases n,
{
    if n > 0 {
        lemma_collected_len(rows, (n - 1) as nat);
    }
}

} // verus!
