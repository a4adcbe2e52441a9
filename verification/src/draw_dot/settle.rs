use vstd::prelude::*;
use crate::draw_dot::rank::IndexEdge;
use crate::draw_dot::place::ROW_H;
use crate::draw_dot::columns::MAX_NODES;
use crate::draw_dot::place::count_rank;

verus! {

/// The lowest height a node starts at.
pub open spec fn y_low() -> int {
    -(ROW_H as int) * (MAX_NODES as int)
}

/// The highest height a node can reach once `t` nodes have been settled.
pub open spec fn y_high(t: int) -> int {
    (ROW_H as int) * (MAX_NODES as int) + (ROW_H as int) * t
}

/// `ys` lies between the lowest height and the highest after `t` nodes.
pub open spec fn heights_within(ys: Seq<i32>, t: int) -> bool {
    forall|v: int| 0 <= v < ys.len() ==> y_low() <= #[trigger] ys[v] <= y_high(t)
}

/// `a / b` rounded towards zero, as integer division in Rust does.
pub open spec fn tdiv(a: int, b: int) -> int {
    if a >= 0 { a / b } else { -((-a) / b) }
}

/// The nodes of rank `r` among the first `k`, in order.
pub open spec fn members(rank: Seq<i32>, k: int, r: i32) -> Seq<usize>
    decreases k,
{
    if k <= 0 {
        Seq::empty()
    } else {
        let s = members(rank, k - 1, r);
        if rank[k - 1] == r { s.push((k - 1) as usize) } else { s }
    }
}

/// The number of the first `m` edges that go into `v`.
pub open spec fn in_count(es: Seq<IndexEdge>, m: int, v: usize) -> nat
    decreases m,
{
    if m <= 0 { 0 } else { in_count(es, m - 1, v) + if es[m - 1].1 == v { 1nat } else { 0nat } }
}

/// The sum of the heights of the sources of the first `m` edges into `v`.
pub open spec fn in_sum(es: Seq<IndexEdge>, m: int, v: usize, ys: Seq<i32>) -> int
    decreases m,
{
    if m <= 0 { 0 } else { in_sum(es, m - 1, v, ys) + if es[m - 1].1 == v { ys[es[m - 1].0 as int] as int } else { 0 } }
}

/// The heights after centring the first `j` nodes of the column `mem` in
/// turn, each with inputs at the mean height of its inputs (rounded towards
/// zero).
pub open spec fn centered(ys: Seq<i32>, es: Seq<IndexEdge>, mem: Seq<usize>, j: int) -> Seq<i32>
    decreases j,
{
    if j <= 0 {
        ys
    } else {
        let y = centered(ys, es, mem, j - 1);
        let v = mem[j - 1];
        let c = in_count(es, es.len() as int, v);
        if c > 0 { y.update(v as int, tdiv(in_sum(es, es.len() as int, v, y), c as int) as i32) } else { y }
    }
}

/// `s` (ordered by height) with `x` inserted after every node no higher than it.
pub open spec fn insert_by_height(s: Seq<usize>, x: usize, ys: Seq<i32>) -> Seq<usize>
    decreases s.len(),
{
    if s.len() == 0 {
        seq![x]
    } else if ys[s.last() as int] <= ys[x as int] {
        s.push(x)
    } else {
        insert_by_height(s.drop_last(), x, ys).push(s.last())
    }
}

/// `s` ordered by height, nodes of equal height keeping their order.
pub open spec fn sort_by_height(s: Seq<usize>, ys: Seq<i32>) -> Seq<usize>
    decreases s.len(),
{
    if s.len() == 0 { s } else { insert_by_height(sort_by_height(s.drop_last(), ys), s.last(), ys) }
}

/// The heights after spreading the first `k` nodes of `order` (ordered by
/// height) downwards, so that each is at least `ROW_H` below the one before.
pub open spec fn spread(ys: Seq<i32>, order: Seq<usize>, k: int) -> Seq<i32>
    decreases k,
{
    if k <= 1 {
        ys
    } else {
        let y = spread(ys, order, k - 1);
        let prev = y[order[k - 2] as int];
        let cur = y[order[k - 1] as int];
        if cur - prev < ROW_H { y.update(order[k - 1] as int, (prev + ROW_H) as i32) } else { y }
    }
}

/// The heights after settling column `mem`: centring its nodes on their
/// inputs (except in the first column), then spreading it.
pub open spec fn settle_column(ys: Seq<i32>, es: Seq<IndexEdge>, mem: Seq<usize>, first: bool) -> Seq<i32> {
    let y1 = if first { ys } else { centered(ys, es, mem, mem.len() as int) };
    spread(y1, sort_by_height(mem, y1), mem.len() as int)
}

/// The heights after settling the first `c` columns, left to right.
pub open spec fn settled(ys: Seq<i32>, es: Seq<IndexEdge>, rank: Seq<i32>, cols: Seq<i32>, c: int) -> Seq<i32>
    decreases c,
{
    if c <= 0 {
        ys
    } else {
        let y = settled(ys, es, rank, cols, c - 1);
        settle_column(y, es, members(rank, rank.len() as int, cols[c - 1]), c == 1)
    }
}

proof fn lemma_members(rank: Seq<i32>, k: int, r: i32)
    requires
        0 <= k <= rank.len(),
        rank.len() <= usize::MAX,
    ensures
        members(rank, k, r).len() == count_rank(rank, k, r),
        forall|i: int| 0 <= i < members(rank, k, r).len() ==> (#[trigger] members(rank, k, r)[i]) < k
            && rank[members(rank, k, r)[i] as int] == r,
        forall|i: int, j: int| 0 <= i < j < members(rank, k, r).len() ==> members(rank, k, r)[i] < members(rank, k, r)[j],
    decreases k,
{
    if k > 0 {
        lemma_members(rank, k - 1, r);
        let s = members(rank, k - 1, r);
        let t = members(rank, k, r);
        if rank[k - 1] == r {
            assert(t == s.push((k - 1) as usize));
            assert forall|i: int| 0 <= i < t.len() implies (#[trigger] t[i]) < k && rank[t[i] as int] == r by {
                if i < s.len() { assert(t[i] == s[i]); }
            }
            assert forall|i: int, j: int| 0 <= i < j < t.len() implies t[i] < t[j] by {
                if j < s.len() { assert(t[i] == s[i] && t[j] == s[j]); } else { assert(t[i] == s[i]); }
            }
        }
    }
}

proof fn lemma_members_cover(rank: Seq<i32>, k: int, r: i32, v: int)
    requires
        0 <= v < k <= rank.len(),
        rank[v] == r,
    ensures
        members(rank, k, r).contains(v as usize),
    decreases k,
{
    if v < k - 1 {
        lemma_members_cover(rank, k - 1, r, v);
        let s = members(rank, k - 1, r);
        let j = choose|j: int| 0 <= j < s.len() && s[j] == v as usize;
        if rank[k - 1] == r {
            assert(members(rank, k, r)[j] == v as usize);
        }
    } else {
        let s = members(rank, k - 1, r);
        assert(members(rank, k, r)[s.len() as int] == v as usize);
    }
}

proof fn lemma_insert_by_height_elements(s: Seq<usize>, x: usize, ys: Seq<i32>)
    ensures
        insert_by_height(s, x, ys).len() == s.len() + 1,
        forall|y: usize| #[trigger] insert_by_height(s, x, ys).contains(y) <==> (s.contains(y) || y == x),
        s.no_duplicates() && !s.contains(x) ==> insert_by_height(s, x, ys).no_duplicates(),
    decreases s.len(),
{
    let t = insert_by_height(s, x, ys);
    if s.len() == 0 {
        assert forall|y: usize| #[trigger] t.contains(y) <==> (s.contains(y) || y == x) by {
            if t.contains(y) { assert(t[0] == y); }
            if y == x { assert(t[0] == x); }
        }
    } else if ys[s.last() as int] <= ys[x as int] {
        assert(t == s.push(x));
        assert forall|y: usize| #[trigger] t.contains(y) <==> (s.contains(y) || y == x) by {
            if t.contains(y) {
                let k = choose|k: int| 0 <= k < t.len() && t[k] == y;
                if k < s.len() { assert(s[k] == y); }
            }
            if s.contains(y) {
                let k = choose|k: int| 0 <= k < s.len() && s[k] == y;
                assert(t[k] == y);
            }
            if y == x { assert(t[s.len() as int] == x); }
        }
        if s.no_duplicates() && !s.contains(x) {
            assert forall|a: int, b: int| 0 <= a < b < t.len() implies t[a] != t[b] by {
                if b == s.len() { assert(s.contains(s[a])); }
            }
        }
    } else {
        let d = s.drop_last();
        let l = s.last();
        lemma_insert_by_height_elements(d, x, ys);
        let u = insert_by_height(d, x, ys);
        assert(t == u.push(l));
        assert forall|y: usize| #[trigger] t.contains(y) <==> (s.contains(y) || y == x) by {
            if t.contains(y) {
                let k = choose|k: int| 0 <= k < t.len() && t[k] == y;
                if k < u.len() {
                    assert(u[k] == y);
                    assert(u.contains(y));
                    if d.contains(y) {
                        let j = choose|j: int| 0 <= j < d.len() && d[j] == y;
                        assert(s[j] == y);
                    }
                } else {
                    assert(s[s.len() - 1] == y);
                }
            }
            if s.contains(y) {
                let k = choose|k: int| 0 <= k < s.len() && s[k] == y;
                if k < s.len() - 1 {
                    assert(d[k] == y);
                    assert(u.contains(y));
                    let j = choose|j: int| 0 <= j < u.len() && u[j] == y;
                    assert(t[j] == y);
                } else {
                    assert(t[u.len() as int] == y);
                }
            }
            if y == x {
                assert(u.contains(x));
                let j = choose|j: int| 0 <= j < u.len() && u[j] == x;
                assert(t[j] == x);
            }
        }
        if s.no_duplicates() && !s.contains(x) {
            assert(d.no_duplicates()) by {
                assert forall|a: int, b: int| 0 <= a < b < d.len() implies d[a] != d[b] by {
                    assert(s[a] == d[a] && s[b] == d[b]);
                }
            }
            assert(!d.contains(x)) by {
                if d.contains(x) {
                    let j = choose|j: int| 0 <= j < d.len() && d[j] == x;
                    assert(s[j] == x);
                }
            }
            assert(!u.contains(l)) by {
                if d.contains(l) {
                    let j = choose|j: int| 0 <= j < d.len() && d[j] == l;
                    assert(s[j] == l && s[s.len() - 1] == l);
                }
                assert(s.contains(l)) by { assert(s[s.len() - 1] == l); }
            }
            assert forall|a: int, b: int| 0 <= a < b < t.len() implies t[a] != t[b] by {
                if b == u.len() {
                    assert(t[a] == u[a]);
                    assert(u.contains(u[a]));
                } else {
                    assert(t[a] == u[a] && t[b] == u[b]);
                }
            }
        }
    }
}

/// Ordering by height keeps the nodes: the same ones, each as often.
pub proof fn lemma_sort_by_height_elements(s: Seq<usize>, ys: Seq<i32>)
    ensures
        sort_by_height(s, ys).len() == s.len(),
        forall|y: usize| #[trigger] sort_by_height(s, ys).contains(y) <==> s.contains(y),
        s.no_duplicates() ==> sort_by_height(s, ys).no_duplicates(),
    decreases s.len(),
{
    if s.len() > 0 {
        let d = s.drop_last();
        let l = s.last();
        lemma_sort_by_height_elements(d, ys);
        let u = sort_by_height(d, ys);
        lemma_insert_by_height_elements(u, l, ys);
        assert forall|y: usize| #[trigger] sort_by_height(s, ys).contains(y) <==> s.contains(y) by {
            if d.contains(y) {
                let j = choose|j: int| 0 <= j < d.len() && d[j] == y;
                assert(s[j] == y);
            }
            if s.contains(y) {
                let j = choose|j: int| 0 <= j < s.len() && s[j] == y;
                if j < s.len() - 1 { assert(d[j] == y); }
            }
        }
        if s.no_duplicates() {
            assert(d.no_duplicates()) by {
                assert forall|a: int, b: int| 0 <= a < b < d.len() implies d[a] != d[b] by {
                    assert(s[a] == d[a] && s[b] == d[b]);
                }
            }
            assert(!u.contains(l)) by {
                if d.contains(l) {
                    let j = choose|j: int| 0 <= j < d.len() && d[j] == l;
                    assert(s[j] == l && s[s.len() - 1] == l);
                }
            }
        }
    }
}

/// The nodes of rank `r`, in order.
pub fn column_members(rank: &Vec<i32>, r: i32) -> (mem: Vec<usize>)
    ensures
        mem@ == members(rank@, rank@.len() as int, r),
{
    let mut mem: Vec<usize> = Vec::new();
    for v in 0..rank.len()
        invariant
            mem@ == members(rank@, v as int, r),
    {
        if rank[v] == r {
            mem.push(v);
        }
    }
    mem
}

proof fn lemma_tdiv_between(s: int, c: int, lo: int, hi: int)
    requires
        c > 0,
        lo <= 0 <= hi,
        c * lo <= s <= c * hi,
    ensures
        lo <= tdiv(s, c) <= hi,
{
    if s >= 0 {
        assert(s / c <= hi) by (nonlinear_arith) requires c > 0, 0 <= s <= c * hi;
        assert(0 <= s / c) by (nonlinear_arith) requires c > 0, 0 <= s;
    } else {
        assert(c * (-lo) == -(c * lo)) by (nonlinear_arith);
        assert((-s) / c <= -lo) by (nonlinear_arith) requires c > 0, 0 <= -s <= c * (-lo);
        assert(0 <= (-s) / c) by (nonlinear_arith) requires c > 0, 0 <= -s;
    }
}

/// No edge into a node of `mem` comes from a node of `mem`.
pub open spec fn inputs_outside(es: Seq<IndexEdge>, mem: Seq<usize>) -> bool {
    forall|i: int| 0 <= i < es.len() && mem.contains((#[trigger] es[i]).1) ==> !mem.contains(es[i].0)
}

/// The sum of the heights of `v`'s inputs depends only on those heights.
proof fn lemma_in_sum_same(es: Seq<IndexEdge>, m: int, v: usize, ys1: Seq<i32>, ys2: Seq<i32>)
    requires
        0 <= m <= es.len(),
        forall|i: int| 0 <= i < m && (#[trigger] es[i]).1 == v ==> ys1[es[i].0 as int] == ys2[es[i].0 as int],
    ensures
        in_sum(es, m, v, ys1) == in_sum(es, m, v, ys2),
    decreases m,
{
    if m > 0 {
        lemma_in_sum_same(es, m - 1, v, ys1, ys2);
    }
}

/// Centres each node of the column `mem` in turn at the mean height of its
/// inputs (rounded towards zero); nodes without inputs stay.
pub fn center_column(ys: &mut Vec<i32>, es: &Vec<IndexEdge>, mem: &Vec<usize>, Ghost(t): Ghost<int>)
    requires
        0 <= t <= MAX_NODES,
        forall|i: int| 0 <= i < es@.len() ==> (#[trigger] es@[i]).0 < old(ys)@.len() && es@[i].1 < old(ys)@.len(),
        forall|i: int| 0 <= i < mem@.len() ==> (#[trigger] mem@[i]) < old(ys)@.len(),
        heights_within(old(ys)@, t),
    ensures
        final(ys)@ == centered(old(ys)@, es@, mem@, mem@.len() as int),
        final(ys)@.len() == old(ys)@.len(),
        heights_within(final(ys)@, t),
        forall|x: usize| x < old(ys)@.len() && !mem@.contains(x) ==> #[trigger] final(ys)@[x as int] == old(ys)@[x as int],
        mem@.no_duplicates() && inputs_outside(es@, mem@) ==> forall|k: int| 0 <= k < mem@.len()
            && in_count(es@, es@.len() as int, #[trigger] mem@[k]) > 0
            ==> final(ys)@[mem@[k] as int] == tdiv(in_sum(es@, es@.len() as int, mem@[k], old(ys)@),
                in_count(es@, es@.len() as int, mem@[k]) as int),
{
    let m = es.len();
    for j in 0..mem.len()
        invariant
            0 <= t <= MAX_NODES,
            m == es@.len(),
            ys@.len() == old(ys)@.len(),
            forall|i: int| 0 <= i < es@.len() ==> (#[trigger] es@[i]).0 < old(ys)@.len() && es@[i].1 < old(ys)@.len(),
            forall|i: int| 0 <= i < mem@.len() ==> (#[trigger] mem@[i]) < old(ys)@.len(),
            ys@ == centered(old(ys)@, es@, mem@, j as int),
            heights_within(ys@, t),
            forall|x: usize| x < old(ys)@.len() && !mem@.contains(x) ==> #[trigger] ys@[x as int] == old(ys)@[x as int],
            mem@.no_duplicates() && inputs_outside(es@, mem@) ==> forall|k: int| 0 <= k < j
                && in_count(es@, es@.len() as int, #[trigger] mem@[k]) > 0
                ==> ys@[mem@[k] as int] == tdiv(in_sum(es@, es@.len() as int, mem@[k], old(ys)@),
                    in_count(es@, es@.len() as int, mem@[k]) as int),
    {
        let ghost before = ys@;
        let v = mem[j];
        let mut sum: i128 = 0;
        let mut cnt: usize = 0;
        let ghost hi = y_high(t);
        for i in 0..m
            invariant
                0 <= t <= MAX_NODES,
                hi == y_high(t),
                m == es@.len(),
                forall|q: int| 0 <= q < es@.len() ==> (#[trigger] es@[q]).0 < ys@.len() && es@[q].1 < ys@.len(),
                heights_within(ys@, t),
                cnt == in_count(es@, i as int, v),
                sum == in_sum(es@, i as int, v, ys@),
                0 <= cnt <= i,
                cnt * y_low() <= sum <= cnt * hi,
        {
            let e = es[i];
            if e.1 == v {
                proof {
                    assert(y_low() <= ys@[e.0 as int] <= hi);
                    assert((cnt + 1) * hi == cnt * hi + hi) by (nonlinear_arith);
                    assert((cnt + 1) * y_low() == cnt * y_low() + y_low()) by (nonlinear_arith);
                    assert(0 <= hi <= 0x1_0000_0000);
                    assert((cnt + 1) * hi <= 0x1_0000_0000_0000_0000 * 0x1_0000_0000) by (nonlinear_arith)
                        requires 0 <= cnt + 1 <= 0x1_0000_0000_0000_0000, 0 <= hi <= 0x1_0000_0000;
                    assert((cnt + 1) * y_low() >= 0x1_0000_0000_0000_0000 * -0x1_0000_0000) by (nonlinear_arith)
                        requires 0 <= cnt + 1 <= 0x1_0000_0000_0000_0000, -0x1_0000_0000 <= y_low() <= 0;
                }
                sum = sum + ys[e.0] as i128;
                cnt = cnt + 1;
            }
        }
        if cnt > 0 {
            proof { lemma_tdiv_between(sum as int, cnt as int, y_low(), hi); }
            let avg = (sum / (cnt as i128)) as i32;
            ys.set(v, avg);
        }
        proof {
            assert(mem@[j as int] == v);
            assert forall|x: usize| x < old(ys)@.len() && !mem@.contains(x) implies #[trigger] ys@[x as int] == old(ys)@[x as int] by {
                assert(x != v);
                assert(before[x as int] == old(ys)@[x as int]);
            }
            if mem@.no_duplicates() && inputs_outside(es@, mem@) {
                assert(mem@.contains(v));
                assert forall|i: int| 0 <= i < m && (#[trigger] es@[i]).1 == v implies
                    before[es@[i].0 as int] == old(ys)@[es@[i].0 as int] by {
                    assert(!mem@.contains(es@[i].0));
                }
                lemma_in_sum_same(es@, m as int, v, before, old(ys)@);
                assert forall|k: int| 0 <= k < j + 1 && in_count(es@, es@.len() as int, #[trigger] mem@[k]) > 0
                    implies ys@[mem@[k] as int] == tdiv(in_sum(es@, es@.len() as int, mem@[k], old(ys)@),
                        in_count(es@, es@.len() as int, mem@[k]) as int) by {
                    if k < j {
                        assert(mem@[k] != v);
                        assert(ys@[mem@[k] as int] == before[mem@[k] as int]);
                    }
                }
            }
        }
    }
}

proof fn lemma_insert_at(s: Seq<usize>, x: usize, ys: Seq<i32>, pos: int)
    requires
        0 <= pos <= s.len(),
        forall|i: int| pos <= i < s.len() ==> ys[#[trigger] s[i] as int] > ys[x as int],
        pos > 0 ==> ys[s[pos - 1] as int] <= ys[x as int],
    ensures
        insert_by_height(s, x, ys) == s.subrange(0, pos).push(x) + s.subrange(pos, s.len() as int),
    decreases s.len(),
{
    if s.len() == 0 {
        assert(s.subrange(0, 0).push(x) + s.subrange(0, 0) =~= seq![x]);
    } else if pos == s.len() {
        assert(s.subrange(0, pos).push(x) + s.subrange(pos, s.len() as int) =~= s.push(x));
    } else {
        let d = s.drop_last();
        assert(ys[s[s.len() - 1] as int] > ys[x as int]);
        assert forall|i: int| pos <= i < d.len() implies ys[#[trigger] d[i] as int] > ys[x as int] by {
            assert(d[i] == s[i]);
        }
        lemma_insert_at(d, x, ys, pos);
        assert(d.subrange(0, pos).push(x) + d.subrange(pos, d.len() as int) + seq![s.last()]
            =~= s.subrange(0, pos).push(x) + s.subrange(pos, s.len() as int));
        assert(insert_by_height(d, x, ys).push(s.last())
            =~= d.subrange(0, pos).push(x) + d.subrange(pos, d.len() as int) + seq![s.last()]);
    }
}

/// The column `mem` ordered by height, nodes of equal height keeping their
/// order (an insertion sort, which is stable).
pub fn sort_column(mem: &Vec<usize>, ys: &Vec<i32>) -> (order: Vec<usize>)
    requires
        forall|i: int| 0 <= i < mem@.len() ==> (#[trigger] mem@[i]) < ys@.len(),
    ensures
        order@ == sort_by_height(mem@, ys@),
        order@.len() == mem@.len(),
        forall|i: int| 0 <= i < order@.len() ==> mem@.contains(#[trigger] order@[i]),
{
    let mut order: Vec<usize> = Vec::new();
    for i in 0..mem.len()
        invariant
            forall|q: int| 0 <= q < mem@.len() ==> (#[trigger] mem@[q]) < ys@.len(),
            order@ == sort_by_height(mem@.take(i as int), ys@),
            order@.len() == i,
            forall|q: int| 0 <= q < order@.len() ==> mem@.take(i as int).contains(#[trigger] order@[q]),
            forall|q: int| 0 <= q < order@.len() ==> (#[trigger] order@[q]) < ys@.len(),
    {
        let x = mem[i];
        let mut pos = order.len();
        while pos > 0 && ys[order[pos - 1]] > ys[x]
            invariant
                pos <= order@.len(),
                i < mem@.len(),
                x < ys@.len(),
                forall|q: int| 0 <= q < order@.len() ==> (#[trigger] order@[q]) < ys@.len(),
                forall|q: int| 0 <= q < mem@.len() ==> (#[trigger] mem@[q]) < ys@.len(),
                forall|q: int| 0 <= q < order@.len() ==> mem@.take(i as int).contains(#[trigger] order@[q]),
                forall|q: int| pos <= q < order@.len() ==> ys@[#[trigger] order@[q] as int] > ys@[x as int],
            decreases pos,
        {
            pos = pos - 1;
        }
        let ghost before = order@;
        proof {
            lemma_insert_at(before, x, ys@, pos as int);
            assert(mem@.take(i + 1).drop_last() =~= mem@.take(i as int));
        }
        order.insert(pos, x);
        proof {
            assert(order@ =~= before.subrange(0, pos as int).push(x) + before.subrange(pos as int, before.len() as int));
            assert forall|q: int| 0 <= q < order@.len() implies mem@.take(i + 1).contains(#[trigger] order@[q]) by {
                if q < pos {
                    assert(order@[q] == before[q]);
                    let k = choose|k: int| 0 <= k < i && mem@.take(i as int)[k] == before[q];
                    assert(mem@.take(i + 1)[k] == before[q]);
                } else if q == pos {
                    assert(mem@.take(i + 1)[i as int] == x);
                } else {
                    assert(order@[q] == before[q - 1]);
                    let k = choose|k: int| 0 <= k < i && mem@.take(i as int)[k] == before[q - 1];
                    assert(mem@.take(i + 1)[k] == before[q - 1]);
                }
            }
        }
    }
    assert(mem@.take(mem@.len() as int) =~= mem@);
    order
}

/// Spreads the column, taken in the order `order` (by height), downwards so
/// that each node is at least `ROW_H` below the one before it.
pub fn spread_column(ys: &mut Vec<i32>, order: &Vec<usize>, Ghost(t): Ghost<int>)
    requires
        0 <= t,
        t + order@.len() <= MAX_NODES,
        forall|i: int| 0 <= i < order@.len() ==> (#[trigger] order@[i]) < old(ys)@.len(),
        heights_within(old(ys)@, t),
    ensures
        final(ys)@ == spread(old(ys)@, order@, order@.len() as int),
        final(ys)@.len() == old(ys)@.len(),
        heights_within(final(ys)@, t + order@.len()),
        forall|x: usize| x < old(ys)@.len() && !order@.contains(x) ==> #[trigger] final(ys)@[x as int] == old(ys)@[x as int],
        order@.no_duplicates() ==> forall|a: int, b: int| 0 <= a < b < order@.len()
            ==> final(ys)@[(#[trigger] order@[b]) as int] - final(ys)@[(#[trigger] order@[a]) as int] >= ROW_H,
        forall|x: int| 0 <= x < old(ys)@.len() ==> #[trigger] final(ys)@[x] >= old(ys)@[x],
{
    let n = order.len();
    if n < 2 {
        proof {
            assert forall|v: int| 0 <= v < ys@.len() implies y_low() <= #[trigger] ys@[v] <= y_high(t + n) by {}
        }
        return;
    }
    for i in 1..n
        invariant
            n == order@.len(),
            n >= 2,
            0 <= t,
            t + n <= MAX_NODES,
            ys@.len() == old(ys)@.len(),
            forall|q: int| 0 <= q < order@.len() ==> (#[trigger] order@[q]) < old(ys)@.len(),
            ys@ == spread(old(ys)@, order@, i as int),
            forall|v: int| 0 <= v < ys@.len() ==> y_low() <= #[trigger] ys@[v] <= y_high(t) + ROW_H * (i - 1),
            forall|x: usize| x < old(ys)@.len() && !order@.contains(x) ==> #[trigger] ys@[x as int] == old(ys)@[x as int],
            order@.no_duplicates() ==> forall|a: int, b: int| 0 <= a < b < i
                ==> ys@[(#[trigger] order@[b]) as int] - ys@[(#[trigger] order@[a]) as int] >= ROW_H,
            forall|x: int| 0 <= x < old(ys)@.len() ==> #[trigger] ys@[x] >= old(ys)@[x],
    {
        let ghost before = ys@;
        let prev = ys[order[i - 1]];
        let cur = ys[order[i]];
        if cur < prev + ROW_H {
            ys.set(order[i], prev + ROW_H);
        }
        proof {
            assert forall|x: usize| x < old(ys)@.len() && !order@.contains(x) implies #[trigger] ys@[x as int] == old(ys)@[x as int] by {
                assert(order@[i as int] != x);
                assert(before[x as int] == old(ys)@[x as int]);
            }
            if order@.no_duplicates() {
                assert forall|a: int, b: int| 0 <= a < b < i + 1
                    implies ys@[(#[trigger] order@[b]) as int] - ys@[(#[trigger] order@[a]) as int] >= ROW_H by {
                    assert(order@[a] != order@[i as int]);
                    if b < i {
                        assert(order@[b] != order@[i as int]);
                        assert(before[order@[b] as int] - before[order@[a] as int] >= ROW_H);
                    } else {
                        assert(ys@[order@[i as int] as int] >= before[order@[i - 1] as int] + ROW_H);
                        if a < i - 1 {
                            assert(before[order@[i - 1] as int] - before[order@[a] as int] >= ROW_H);
                        }
                    }
                }
            }
        }
    }
    proof {
        assert forall|v: int| 0 <= v < ys@.len() implies y_low() <= #[trigger] ys@[v] <= y_high(t + n) by {}
    }
}

/// The number of nodes in the first `c` columns, counting among the first `k` nodes.
pub open spec fn col_total(rank: Seq<i32>, k: int, cols: Seq<i32>, c: int) -> nat
    decreases c,
{
    if c <= 0 { 0 } else { col_total(rank, k, cols, c - 1) + count_rank(rank, k, cols[c - 1]) }
}

/// The number of the first `c` columns of rank `x`.
pub open spec fn hits(cols: Seq<i32>, c: int, x: i32) -> nat
    decreases c,
{
    if c <= 0 { 0 } else { hits(cols, c - 1, x) + if cols[c - 1] == x { 1nat } else { 0nat } }
}

proof fn lemma_total_step(rank: Seq<i32>, k: int, cols: Seq<i32>, c: int)
    requires
        1 <= k <= rank.len(),
        0 <= c <= cols.len(),
    ensures
        col_total(rank, k, cols, c) == col_total(rank, k - 1, cols, c) + hits(cols, c, rank[k - 1]),
    decreases c,
{
    if c > 0 {
        lemma_total_step(rank, k, cols, c - 1);
    }
}

proof fn lemma_hits_zero(cols: Seq<i32>, c: int, x: i32)
    requires
        0 <= c <= cols.len(),
        forall|j: int| 0 <= j < c ==> cols[j] != x,
    ensures
        hits(cols, c, x) == 0,
    decreases c,
{
    if c > 0 {
        lemma_hits_zero(cols, c - 1, x);
    }
}

proof fn lemma_hits_le1(cols: Seq<i32>, c: int, x: i32)
    requires
        0 <= c <= cols.len(),
        forall|i: int, j: int| 0 <= i < j < cols.len() ==> cols[i] < cols[j],
    ensures
        hits(cols, c, x) <= 1,
    decreases c,
{
    if c > 0 {
        if cols[c - 1] == x {
            assert forall|j: int| 0 <= j < c - 1 implies cols[j] != x by {
                assert(cols[j] < cols[c - 1]);
            }
            lemma_hits_zero(cols, c - 1, x);
        } else {
            lemma_hits_le1(cols, c - 1, x);
        }
    }
}

proof fn lemma_total_bound(rank: Seq<i32>, k: int, cols: Seq<i32>, c: int)
    requires
        0 <= k <= rank.len(),
        0 <= c <= cols.len(),
        forall|i: int, j: int| 0 <= i < j < cols.len() ==> cols[i] < cols[j],
    ensures
        col_total(rank, k, cols, c) <= k,
    decreases k,
{
    if k == 0 {
        lemma_total_zero(rank, cols, c);
    } else {
        lemma_total_bound(rank, k - 1, cols, c);
        lemma_total_step(rank, k, cols, c);
        lemma_hits_le1(cols, c, rank[k - 1]);
    }
}

proof fn lemma_total_zero(rank: Seq<i32>, cols: Seq<i32>, c: int)
    requires
        0 <= c <= cols.len(),
    ensures
        col_total(rank, 0, cols, c) == 0,
    decreases c,
{
    if c > 0 {
        lemma_total_zero(rank, cols, c - 1);
    }
}

proof fn lemma_total_monotone(rank: Seq<i32>, k: int, cols: Seq<i32>, c: int)
    requires
        0 <= c <= cols.len(),
    ensures
        col_total(rank, k, cols, c) <= col_total(rank, k, cols, cols.len() as int),
    decreases cols.len() - c,
{
    if c < cols.len() {
        lemma_total_monotone(rank, k, cols, c + 1);
    }
}

/// Every edge runs from a lower rank to a higher one.
pub open spec fn ranks_rise(es: Seq<IndexEdge>, rank: Seq<i32>) -> bool {
    forall|i: int| 0 <= i < es.len() ==> rank[(#[trigger] es[i]).0 as int] < rank[es[i].1 as int]
}

/// Every node with inputs whose rank is among `done`, other than `first`,
/// is no higher than the mean height of its inputs (rounded towards zero).
pub open spec fn not_above_inputs(ys: Seq<i32>, es: Seq<IndexEdge>, rank: Seq<i32>, done: Seq<i32>, first: i32) -> bool {
    forall|u: int| 0 <= u < ys.len() && done.contains(rank[u]) && rank[u] != first
        && in_count(es, es.len() as int, u as usize) > 0
        ==> #[trigger] ys[u] >= tdiv(in_sum(es, es.len() as int, u as usize, ys), in_count(es, es.len() as int, u as usize) as int)
}

/// Any two nodes of the same rank, where that rank is among `done`, are at
/// least `ROW_H` apart in height.
pub open spec fn rows_apart(ys: Seq<i32>, rank: Seq<i32>, done: Seq<i32>) -> bool {
    forall|u: int, w: int|
        #![trigger ys[u], ys[w]]
        0 <= u < ys.len() && 0 <= w < ys.len() && u != w && rank[u] == rank[w] && done.contains(rank[u])
            ==> ys[u] - ys[w] >= ROW_H || ys[w] - ys[u] >= ROW_H
}

/// Settling column `c` keeps every settled node with inputs, outside the
/// first column, no higher than the mean height of its inputs.
proof fn lemma_settle_step_mean(
    es: Seq<IndexEdge>,
    rank: Seq<i32>,
    cols: Seq<i32>,
    c: int,
    mem: Seq<usize>,
    order: Seq<usize>,
    y0: Seq<i32>,
    y1: Seq<i32>,
    y2: Seq<i32>,
)
    requires
        rank.len() <= usize::MAX,
        y0.len() == rank.len(),
        y1.len() == rank.len(),
        y2.len() == rank.len(),
        forall|i: int| 0 <= i < es.len() ==> (#[trigger] es[i]).0 < rank.len() && es[i].1 < rank.len(),
        forall|i: int, j: int| 0 <= i < j < cols.len() ==> cols[i] < cols[j],
        0 <= c < cols.len(),
        forall|x: usize| x < rank.len() ==> (#[trigger] mem.contains(x) <==> rank[x as int] == cols[c]),
        forall|x: usize| #[trigger] order.contains(x) <==> mem.contains(x),
        mem.no_duplicates(),
        c == 0 ==> y1 == y0,
        c > 0 ==> forall|x: usize| x < y0.len() && !mem.contains(x) ==> #[trigger] y1[x as int] == y0[x as int],
        c > 0 ==> (mem.no_duplicates() && inputs_outside(es, mem) ==> forall|k: int| 0 <= k < mem.len()
            && in_count(es, es.len() as int, #[trigger] mem[k]) > 0
            ==> y1[mem[k] as int] == tdiv(in_sum(es, es.len() as int, mem[k], y0), in_count(es, es.len() as int, mem[k]) as int)),
        forall|x: usize| x < y1.len() && !order.contains(x) ==> #[trigger] y2[x as int] == y1[x as int],
        forall|x: int| 0 <= x < y1.len() ==> #[trigger] y2[x] >= y1[x],
        ranks_rise(es, rank),
        not_above_inputs(y0, es, rank, cols.take(c), cols[0]),
    ensures
        not_above_inputs(y2, es, rank, cols.take(c + 1), cols[0]),
{
    let r = cols[c];
    let n = rank.len();
    let ys = y2;
    let m = es.len() as int;
    assert(inputs_outside(es, mem)) by {
        assert forall|i: int| 0 <= i < es.len() && mem.contains((#[trigger] es[i]).1) implies !mem.contains(es[i].0) by {
            assert(rank[es[i].0 as int] < rank[es[i].1 as int]);
        }
    }
    assert forall|x: int| 0 <= x < n && rank[x] < r implies ys[x] == y0[x] by {
        let xu = x as usize;
        assert(xu as int == x);
        assert(!mem.contains(xu));
        assert(!order.contains(xu));
        assert(ys[xu as int] == y1[xu as int]);
        if c > 0 {
            assert(y1[xu as int] == y0[xu as int]);
        }
    }
    assert forall|u: int| 0 <= u < ys.len() && cols.take(c + 1).contains(rank[u]) && rank[u] != cols[0]
        && in_count(es, m, u as usize) > 0
        implies #[trigger] ys[u] >= tdiv(in_sum(es, m, u as usize, ys), in_count(es, m, u as usize) as int) by {
        assert forall|i: int| 0 <= i < m && (#[trigger] es[i]).1 == u as usize implies
            ys[es[i].0 as int] == y0[es[i].0 as int] by {
            assert(rank[es[i].0 as int] < rank[u]);
            let k = choose|k: int| 0 <= k < cols.take(c + 1).len() && #[trigger] cols.take(c + 1)[k] == rank[u];
            assert(rank[u] <= r) by {
                if k < c { assert(cols[k] < cols[c]); }
            }
        }
        lemma_in_sum_same(es, m, u as usize, ys, y0);
        if rank[u] == r {
            assert(c > 0) by {
                if c == 0 { assert(cols[0] == r); }
            }
            assert(mem.contains(u as usize));
            let k = choose|k: int| 0 <= k < mem.len() && mem[k] == u as usize;
            assert(y1[mem[k] as int] == tdiv(in_sum(es, m, mem[k], y0), in_count(es, m, mem[k]) as int));
            assert(ys[u] >= y1[u]);
        } else {
            let k = choose|k: int| 0 <= k < cols.take(c + 1).len() && #[trigger] cols.take(c + 1)[k] == rank[u];
            assert(k < c) by {
                if k == c { assert(cols.take(c + 1)[k] == r); }
            }
            assert(cols.take(c)[k] == rank[u]);
            assert(!mem.contains(u as usize));
            assert(!order.contains(u as usize));
            assert(ys[u] == y1[u] && y1[u] == y0[u]);
            assert(y0[u] >= tdiv(in_sum(es, m, u as usize, y0), in_count(es, m, u as usize) as int));
        }
    }
}

/// Settles the columns left to right: the first is spread; each later one is
/// centred on its inputs and then spread.
#[verifier::rlimit(80)]
#[verifier::spinoff_prover]
pub fn settle(ys: &mut Vec<i32>, es: &Vec<IndexEdge>, rank: &Vec<i32>, cols: &Vec<i32>)
    requires
        old(ys)@.len() == rank@.len(),
        rank@.len() <= MAX_NODES,
        forall|i: int| 0 <= i < es@.len() ==> (#[trigger] es@[i]).0 < rank@.len() && es@[i].1 < rank@.len(),
        forall|i: int, j: int| 0 <= i < j < cols@.len() ==> cols@[i] < cols@[j],
        heights_within(old(ys)@, 0),
    ensures
        final(ys)@ == settled(old(ys)@, es@, rank@, cols@, cols@.len() as int),
        final(ys)@.len() == old(ys)@.len(),
        heights_within(final(ys)@, rank@.len() as int),
        rows_apart(final(ys)@, rank@, cols@),
        cols@.len() > 0 && ranks_rise(es@, rank@) ==> not_above_inputs(final(ys)@, es@, rank@, cols@, cols@[0]),
{
    let n = rank.len();
    let ghost ys0 = ys@;
    for c in 0..cols.len()
        invariant
            n == rank@.len(),
            n <= MAX_NODES,
            ys@.len() == n,
            forall|i: int| 0 <= i < es@.len() ==> (#[trigger] es@[i]).0 < n && es@[i].1 < n,
            forall|i: int, j: int| 0 <= i < j < cols@.len() ==> cols@[i] < cols@[j],
            ys0 == old(ys)@,
            ys@ == settled(ys0, es@, rank@, cols@, c as int),
            heights_within(ys@, col_total(rank@, n as int, cols@, c as int) as int),
            rows_apart(ys@, rank@, cols@.take(c as int)),
            cols@.len() > 0 && ranks_rise(es@, rank@) ==> not_above_inputs(ys@, es@, rank@, cols@.take(c as int), cols@[0]),
    {
        let ghost y0 = ys@;
        let mem = column_members(rank, cols[c]);
        let ghost t = col_total(rank@, n as int, cols@, c as int) as int;
        proof {
            lemma_members(rank@, n as int, cols@[c as int]);
            lemma_total_bound(rank@, n as int, cols@, c + 1);
            assert forall|i: int| 0 <= i < mem@.len() implies (#[trigger] mem@[i]) < n by {
                assert(members(rank@, n as int, cols@[c as int])[i] == mem@[i]);
            }
        }
        if c > 0 {
            center_column(ys, es, &mem, Ghost(t));
        }
        let order = sort_column(&mem, ys);
        proof {
            assert forall|i: int| 0 <= i < order@.len() implies (#[trigger] order@[i]) < ys@.len() by {
                assert(mem@.contains(order@[i]));
                let k = choose|k: int| 0 <= k < mem@.len() && mem@[k] == order@[i];
                assert(mem@[k] < n);
            }
        }
        let ghost y1 = ys@;
        spread_column(ys, &order, Ghost(t));
        proof {
            let r = cols@[c as int];
            lemma_sort_by_height_elements(mem@, y1);
            assert(mem@.no_duplicates()) by {
                assert forall|a: int, b: int| 0 <= a < b < mem@.len() implies mem@[a] != mem@[b] by {
                    assert(members(rank@, n as int, r)[a] < members(rank@, n as int, r)[b]);
                }
            }
            assert forall|x: usize| x < n implies (#[trigger] mem@.contains(x) <==> rank@[x as int] == r) by {
                if rank@[x as int] == r {
                    lemma_members_cover(rank@, n as int, r, x as int);
                }
                if mem@.contains(x) {
                    let k = choose|k: int| 0 <= k < mem@.len() && mem@[k] == x;
                    assert(rank@[members(rank@, n as int, r)[k] as int] == r);
                }
            }
            assert forall|u: int, w: int|
                #![trigger ys@[u], ys@[w]]
                0 <= u < ys@.len() && 0 <= w < ys@.len() && u != w && rank@[u] == rank@[w] && cols@.take(c + 1).contains(rank@[u])
                implies ys@[u] - ys@[w] >= ROW_H || ys@[w] - ys@[u] >= ROW_H by {
                let k = choose|k: int| 0 <= k < cols@.take(c + 1).len() && #[trigger] cols@.take(c + 1)[k] == rank@[u];
                if rank@[u] == r {
                    assert(mem@.contains(u as usize) && mem@.contains(w as usize));
                    assert(order@.contains(u as usize) && order@.contains(w as usize));
                    let a = choose|a: int| 0 <= a < order@.len() && order@[a] == u as usize;
                    let b = choose|b: int| 0 <= b < order@.len() && order@[b] == w as usize;
                    if a < b {
                        assert(ys@[order@[b] as int] - ys@[order@[a] as int] >= ROW_H);
                    } else {
                        assert(ys@[order@[a] as int] - ys@[order@[b] as int] >= ROW_H);
                    }
                } else {
                    assert(k < c) by {
                        if k == c { assert(cols@.take(c + 1)[k] == r); }
                    }
                    assert(cols@.take(c as int)[k] == rank@[u]);
                    assert(!mem@.contains(u as usize) && !mem@.contains(w as usize));
                    assert(!order@.contains(u as usize) && !order@.contains(w as usize));
                    assert(ys@[u] == y1[u] && ys@[w] == y1[w]);
                    assert(y1[u] == y0[u] && y1[w] == y0[w]);
                    assert(y0[u] - y0[w] >= ROW_H || y0[w] - y0[u] >= ROW_H);
                }
            }
            if cols@.len() > 0 && ranks_rise(es@, rank@) {
                assert forall|x: usize| #[trigger] order@.contains(x) <==> mem@.contains(x) by {}
                lemma_settle_step_mean(es@, rank@, cols@, c as int, mem@, order@, y0, y1, ys@);
            }
        }
    }
    proof {
        assert(cols@.take(cols@.len() as int) =~= cols@);
        lemma_total_bound(rank@, n as int, cols@, cols@.len() as int);
        assert forall|v: int| 0 <= v < ys@.len() implies y_low() <= #[trigger] ys@[v] <= y_high(n as int) by {}
    }
}

proof fn lemma_centered_len(ys: Seq<i32>, es: Seq<IndexEdge>, mem: Seq<usize>, j: int)
    requires
        j <= mem.len(),
        forall|i: int| 0 <= i < mem.len() ==> (#[trigger] mem[i]) < ys.len(),
    ensures
        centered(ys, es, mem, j).len() == ys.len(),
    decreases j,
{
    if j > 0 {
        lemma_centered_len(ys, es, mem, j - 1);
    }
}

proof fn lemma_spread_len(ys: Seq<i32>, order: Seq<usize>, k: int)
    requires
        k <= order.len(),
        forall|i: int| 0 <= i < order.len() ==> (#[trigger] order[i]) < ys.len(),
    ensures
        spread(ys, order, k).len() == ys.len(),
    decreases k,
{
    if k > 1 {
        lemma_spread_len(ys, order, k - 1);
    }
}

/// Settling keeps one height per node.
pub proof fn lemma_settled_len(ys: Seq<i32>, es: Seq<IndexEdge>, rank: Seq<i32>, cols: Seq<i32>, c: int)
    requires
        ys.len() == rank.len(),
        rank.len() <= usize::MAX,
        c <= cols.len(),
    ensures
        settled(ys, es, rank, cols, c).len() == ys.len(),
    decreases c,
{
    if c > 0 {
        lemma_settled_len(ys, es, rank, cols, c - 1);
        let y = settled(ys, es, rank, cols, c - 1);
        let mem = members(rank, rank.len() as int, cols[c - 1]);
        lemma_members(rank, rank.len() as int, cols[c - 1]);
        lemma_centered_len(y, es, mem, mem.len() as int);
        let y1 = if c == 1 { y } else { centered(y, es, mem, mem.len() as int) };
        let order = sort_by_height(mem, y1);
        lemma_sort_by_height_elements(mem, y1);
        assert forall|i: int| 0 <= i < order.len() implies (#[trigger] order[i]) < y1.len() by {
            assert(order.contains(order[i]));
            let k = choose|k: int| 0 <= k < mem.len() && mem[k] == order[i];
        }
        lemma_spread_len(y1, order, mem.len() as int);
    }
}

} // verus!
