use vstd::prelude::*;
use std::collections::VecDeque;

verus! {

/// An edge between nodes given by their positions in the node list.
pub type IndexEdge = (usize, usize);

/// The larger of two integers.
pub open spec fn imax(a: int, b: int) -> int {
    if a >= b { a } else { b }
}

/// The longest-path candidate of `v` over the first `m` edges that `counted`
/// accepts: one more than the rank of the source of each such edge into `v`,
/// at least zero.
pub open spec fn best(es: Seq<IndexEdge>, m: int, v: usize, rank: Seq<i32>, counted: spec_fn(int) -> bool) -> int
    decreases m,
{
    if m <= 0 {
        0
    } else {
        let b = best(es, m - 1, v, rank, counted);
        let e = es[m - 1];
        if e.1 == v && counted(m - 1) { imax(b, rank[e.0 as int] + 1) } else { b }
    }
}

/// The number of edges into `v` among the first `m` that `counted` does not accept.
pub open spec fn pending(es: Seq<IndexEdge>, m: int, v: usize, counted: spec_fn(int) -> bool) -> nat
    decreases m,
{
    if m <= 0 {
        0
    } else {
        let c = pending(es, m - 1, v, counted);
        if es[m - 1].1 == v && !counted(m - 1) { c + 1 } else { c }
    }
}

/// The number of entries of `s` that are positive.
pub open spec fn count_pos(s: Seq<usize>) -> nat
    decreases s.len(),
{
    if s.len() == 0 { 0 } else { count_pos(s.drop_last()) + if s.last() > 0 { 1nat } else { 0nat } }
}

/// No edge counts.
pub open spec fn none_counted() -> spec_fn(int) -> bool {
    |i: int| false
}

/// An edge counts once its source is done.
pub open spec fn by_done(es: Seq<IndexEdge>, done: Seq<bool>) -> spec_fn(int) -> bool {
    |i: int| done[es[i].0 as int]
}

/// While the edges out of `u` are being followed, those from position `k`
/// on do not count yet.
pub open spec fn by_done_before(es: Seq<IndexEdge>, done: Seq<bool>, u: usize, k: int) -> spec_fn(int) -> bool {
    |i: int| done[es[i].0 as int] && !(es[i].0 == u && i >= k)
}

proof fn lemma_count_pos_update(s: Seq<usize>, i: int, x: usize)
    requires
        0 <= i < s.len(),
    ensures
        count_pos(s.update(i, x)) + (if s[i] > 0 { 1nat } else { 0nat })
            == count_pos(s) + (if x > 0 { 1nat } else { 0nat }),
    decreases s.len(),
{
    if i == s.len() - 1 {
        assert(s.update(i, x).drop_last() =~= s.drop_last());
    } else {
        lemma_count_pos_update(s.drop_last(), i, x);
        assert(s.update(i, x).drop_last() =~= s.drop_last().update(i, x));
    }
}

proof fn lemma_count_pos_bound(s: Seq<usize>)
    ensures
        count_pos(s) <= s.len(),
    decreases s.len(),
{
    if s.len() > 0 {
        lemma_count_pos_bound(s.drop_last());
    }
}

/// Counting or not counting edges other than `k` does not change anything
/// that depends only on edges other than `k`; accepting edge `k` raises the
/// candidate of its target and lowers its pending count.
proof fn lemma_accept(es: Seq<IndexEdge>, m: int, v: usize, rank: Seq<i32>, c1: spec_fn(int) -> bool, c2: spec_fn(int) -> bool, k: int)
    requires
        0 <= m <= es.len(),
        0 <= k,
        forall|i: int| 0 <= i < m && i != k ==> #[trigger] c1(i) == c2(i),
        k < m ==> !c1(k) && c2(k),
    ensures
        best(es, m, v, rank, c2) == if k < m && es[k].1 == v { imax(best(es, m, v, rank, c1), rank[es[k].0 as int] + 1) } else { best(es, m, v, rank, c1) },
        pending(es, m, v, c1) == pending(es, m, v, c2) + if k < m && es[k].1 == v { 1nat } else { 0nat },
    decreases m,
{
    if m > 0 {
        lemma_accept(es, m - 1, v, rank, c1, c2, k);
    }
}

/// The candidate only depends on the ranks of the sources it accepts.
proof fn lemma_best_ranks(es: Seq<IndexEdge>, m: int, v: usize, r1: Seq<i32>, r2: Seq<i32>, c: spec_fn(int) -> bool)
    requires
        0 <= m <= es.len(),
        forall|i: int| 0 <= i < m && es[i].1 == v && #[trigger] c(i) ==> r1[es[i].0 as int] == r2[es[i].0 as int],
    ensures
        best(es, m, v, r1, c) == best(es, m, v, r2, c),
    decreases m,
{
    if m > 0 {
        lemma_best_ranks(es, m - 1, v, r1, r2, c);
    }
}

/// The candidate and the pending count only depend on which edges are accepted.
proof fn lemma_same_counted(es: Seq<IndexEdge>, m: int, v: usize, rank: Seq<i32>, c1: spec_fn(int) -> bool, c2: spec_fn(int) -> bool)
    requires
        0 <= m <= es.len(),
        forall|i: int| 0 <= i < m ==> #[trigger] c1(i) == c2(i),
    ensures
        best(es, m, v, rank, c1) == best(es, m, v, rank, c2),
        pending(es, m, v, c1) == pending(es, m, v, c2),
    decreases m,
{
    if m > 0 {
        lemma_same_counted(es, m - 1, v, rank, c1, c2);
    }
}

/// No edge into `v` is pending exactly when every edge into `v` is accepted.
proof fn lemma_pending_zero(es: Seq<IndexEdge>, m: int, v: usize, c: spec_fn(int) -> bool)
    requires
        0 <= m <= es.len(),
    ensures
        pending(es, m, v, c) == 0 <==> forall|i: int| 0 <= i < m && es[i].1 == v ==> #[trigger] c(i),
    decreases m,
{
    if m > 0 {
        lemma_pending_zero(es, m - 1, v, c);
    }
}

/// `order` lists the nodes `taken` marks, each once, each after the sources
/// of all the edges into it.
#[verifier::opaque]
pub open spec fn taken_in_order(es: Seq<IndexEdge>, n: int, taken: Seq<bool>, order: Seq<usize>) -> bool {
    &&& order.no_duplicates()
    &&& forall|k: int| 0 <= k < order.len() ==> (#[trigger] order[k]) < n
    &&& forall|x: usize| x < n ==> (taken[x as int] <==> #[trigger] order.contains(x))
    &&& forall|k: int, i: int| 0 <= k < order.len() && 0 <= i < es.len() && (#[trigger] es[i]).1 == #[trigger] order[k]
        ==> exists|j: int| 0 <= j < k && order[j] == es[i].0
}

/// The nodes `taken` marks can be listed so that each comes after the
/// sources of all the edges into it.
#[verifier::opaque]
pub open spec fn taken_in_some_order(es: Seq<IndexEdge>, n: int, taken: Seq<bool>) -> bool {
    exists|order: Seq<usize>| taken_in_order(es, n, taken, order)
}

/// Taking a node whose inputs are all taken extends the order.
proof fn lemma_take(es: Seq<IndexEdge>, n: int, taken: Seq<bool>, order: Seq<usize>, u: usize)
    requires
        taken_in_order(es, n, taken, order),
        taken.len() == n,
        u < n,
        !taken[u as int],
        forall|i: int| 0 <= i < es.len() && (#[trigger] es[i]).1 == u ==> taken[es[i].0 as int] && es[i].0 < n,
    ensures
        taken_in_order(es, n, taken.update(u as int, true), order.push(u)),
{
    reveal(taken_in_order);
    let o2 = order.push(u);
    let t2 = taken.update(u as int, true);
    assert(!order.contains(u));
    assert(o2[order.len() as int] == u);
    assert forall|a: int, b: int| 0 <= a < o2.len() && 0 <= b < o2.len() && a != b implies o2[a] != o2[b] by {
        if a < order.len() && b < order.len() {
            assert(o2[a] == order[a] && o2[b] == order[b]);
        } else if a < order.len() {
            assert(o2[a] == order[a]);
            assert(order.contains(order[a]));
        } else {
            assert(o2[b] == order[b]);
            assert(order.contains(order[b]));
        }
    }
    assert forall|k: int| 0 <= k < o2.len() implies (#[trigger] o2[k]) < n by {
        if k < order.len() { assert(o2[k] == order[k]); }
    }
    assert forall|x: usize| x < n implies (t2[x as int] <==> #[trigger] o2.contains(x)) by {
        if x == u {
            assert(o2[order.len() as int] == x);
        } else {
            if order.contains(x) {
                let k = choose|k: int| 0 <= k < order.len() && order[k] == x;
                assert(o2[k] == x);
            }
            if o2.contains(x) {
                let k = choose|k: int| 0 <= k < o2.len() && o2[k] == x;
                assert(order[k] == x);
            }
        }
    }
    assert forall|k: int, i: int| 0 <= k < o2.len() && 0 <= i < es.len() && (#[trigger] es[i]).1 == #[trigger] o2[k]
        implies exists|j: int| 0 <= j < k && o2[j] == es[i].0 by {
        if k < order.len() {
            assert(o2[k] == order[k]);
            let j = choose|j: int| 0 <= j < k && order[j] == es[i].0;
            assert(o2[j] == order[j]);
        } else {
            assert(taken[es[i].0 as int]);
            assert(order.contains(es[i].0));
            let j = choose|j: int| 0 <= j < order.len() && order[j] == es[i].0;
            assert(o2[j] == order[j]);
        }
    }
}

/// The candidate is at least zero and at most one more than the largest
/// accepted source rank.
proof fn lemma_best_bound(es: Seq<IndexEdge>, m: int, v: usize, rank: Seq<i32>, c: spec_fn(int) -> bool, hi: int)
    requires
        0 <= m <= es.len(),
        hi >= 0,
        forall|i: int| 0 <= i < m && es[i].1 == v && #[trigger] c(i) ==> rank[es[i].0 as int] + 1 <= hi,
    ensures
        0 <= best(es, m, v, rank, c) <= hi,
    decreases m,
{
    if m > 0 {
        lemma_best_bound(es, m - 1, v, rank, c, hi);
    }
}

/// The number of entries of `s` that are set.
pub open spec fn count_true(s: Seq<bool>) -> nat
    decreases s.len(),
{
    if s.len() == 0 { 0 } else { count_true(s.drop_last()) + if s.last() { 1nat } else { 0nat } }
}

/// Setting an entry that was not set adds one to the count.
pub proof fn lemma_count_true_set(s: Seq<bool>, i: int)
    requires
        0 <= i < s.len(),
        !s[i],
    ensures
        count_true(s.update(i, true)) == count_true(s) + 1,
    decreases s.len(),
{
    if i == s.len() - 1 {
        assert(s.update(i, true).drop_last() =~= s.drop_last());
    } else {
        lemma_count_true_set(s.drop_last(), i);
        assert(s.update(i, true).drop_last() =~= s.drop_last().update(i, true));
    }
}

proof fn lemma_push_contains(s: Seq<usize>, v: usize)
    requires
        s.no_duplicates(),
        !s.contains(v),
    ensures
        forall|x: usize| #[trigger] s.push(v).contains(x) <==> (s.contains(x) || x == v),
        s.push(v).no_duplicates(),
{
    assert forall|x: usize| #[trigger] s.push(v).contains(x) <==> (s.contains(x) || x == v) by {
        if s.contains(x) {
            let j = choose|j: int| 0 <= j < s.len() && s[j] == x;
            assert(s.push(v)[j] == x);
        }
        if x == v {
            assert(s.push(v)[s.len() as int] == x);
        }
        if s.push(v).contains(x) {
            let j = choose|j: int| 0 <= j < s.len() + 1 && s.push(v)[j] == x;
            if j < s.len() {
                assert(s[j] == x);
            }
        }
    }
    assert forall|i: int, j: int| 0 <= i < s.push(v).len() && 0 <= j < s.push(v).len() && i != j
        implies s.push(v)[i] != s.push(v)[j] by {
        if i < s.len() && j < s.len() {
        } else if i < s.len() {
            assert(s.contains(s[i]));
        } else if j < s.len() {
            assert(s.contains(s[j]));
        }
    }
}

/// Nothing set counts zero.
pub proof fn lemma_count_true_zero(s: Seq<bool>)
    requires
        forall|q: int| 0 <= q < s.len() ==> !s[q],
    ensures
        count_true(s) == 0,
    decreases s.len(),
{
    if s.len() > 0 {
        lemma_count_true_zero(s.drop_last());
    }
}

/// The count is at most the length.
pub proof fn lemma_count_true_bound(s: Seq<bool>)
    ensures
        count_true(s) <= s.len(),
    decreases s.len(),
{
    if s.len() > 0 {
        lemma_count_true_bound(s.drop_last());
    }
}

/// The longest-path rank of every node that Kahn's algorithm reaches: nodes
/// are taken from a first-in first-out queue that starts with the nodes
/// without inputs; following the edges out of a node raises each target's
/// rank to one more than the node's, and a target joins the queue once all
/// its inputs have been taken. Returns the ranks and which nodes were taken:
/// a node is taken exactly when all its inputs are, and the rank of a node
/// is one more than the largest rank among its taken inputs (zero without any).
pub fn kahn_ranks(n: usize, es: &Vec<IndexEdge>) -> (r: (Vec<i32>, Vec<bool>))
    requires
        n < i32::MAX,
        forall|i: int| 0 <= i < es@.len() ==> (#[trigger] es@[i]).0 < n && es@[i].1 < n,
    ensures
        r.0@.len() == n,
        r.1@.len() == n,
        forall|v: int| 0 <= v < n ==> (r.1@[v] <==> forall|i: int| 0 <= i < es@.len() && es@[i].1 == v ==> r.1@[(#[trigger] es@[i]).0 as int]),
        forall|v: int| 0 <= v < n ==> r.0@[v] == best(es@, es@.len() as int, v as usize, r.0@, by_done(es@, r.1@)),
        taken_in_some_order(es@, n as int, r.1@),
{
    let m = es.len();
    let ghost ems = es@;
    let mut rank: Vec<i32> = Vec::new();
    let mut in_deg: Vec<usize> = Vec::new();
    let mut done: Vec<bool> = Vec::new();
    for v in 0..n
        invariant
            rank@.len() == v,
            in_deg@.len() == v,
            done@.len() == v,
            forall|q: int| 0 <= q < v ==> rank@[q] == 0 && !done@[q] && in_deg@[q] == 0,
    {
        rank.push(0);
        in_deg.push(0);
        done.push(false);
    }
    for k in 0..m
        invariant
            m == ems.len(),
            ems == es@,
            forall|i: int| 0 <= i < ems.len() ==> (#[trigger] ems[i]).0 < n && ems[i].1 < n,
            rank@.len() == n,
            in_deg@.len() == n,
            done@.len() == n,
            forall|q: int| 0 <= q < n ==> rank@[q] == 0 && !done@[q],
            forall|q: int| 0 <= q < n ==> #[trigger] in_deg@[q] == pending(ems, k as int, q as usize, none_counted()),
            forall|q: int| 0 <= q < n ==> #[trigger] in_deg@[q] <= k,
    {
        let t = es[k].1;
        let d = in_deg[t];
        let ghost old_deg = in_deg@;
        in_deg.set(t, d + 1);
        proof {
            assert forall|q: int| 0 <= q < n implies #[trigger] in_deg@[q] == pending(ems, k + 1, q as usize, none_counted()) by {
                assert(old_deg[q] == pending(ems, k as int, q as usize, none_counted()));
                assert(!none_counted()(k as int));
                assert(pending(ems, k + 1, q as usize, none_counted()) == pending(ems, k as int, q as usize, none_counted())
                    + if ems[k as int].1 == q as usize && !none_counted()(k as int) { 1nat } else { 0nat });
                assert(ems[k as int].1 == t);
                if q == t as int {
                    assert(in_deg@[q] == d + 1);
                } else {
                    assert(in_deg@[q] == old_deg[q]);
                }
            }
        }
    }
    proof {
        assert forall|q: int| 0 <= q < n implies
            in_deg@[q] == pending(ems, m as int, q as usize, by_done(ems, done@))
            && rank@[q] == best(ems, m as int, q as usize, rank@, by_done(ems, done@)) by {
            lemma_same_counted(ems, m as int, q as usize, rank@, none_counted(), by_done(ems, done@));
            lemma_best_bound(ems, m as int, q as usize, rank@, none_counted(), 0);
        }
    }
    let mut queue: VecDeque<usize> = VecDeque::new();
    for v in 0..n
        invariant
            rank@.len() == n,
            in_deg@.len() == n,
            done@.len() == n,
            forall|q: int| 0 <= q < n ==> !done@[q],
            forall|x: usize| #[trigger] queue@.contains(x) <==> (x < v && in_deg@[x as int] == 0),
            queue@.no_duplicates(),
    {
        if in_deg[v] == 0 {
            proof { assert(!queue@.contains(v)); }
            let ghost q0 = queue@;
            queue.push_back(v);
            proof { lemma_push_contains(q0, v); }
        }
    }
    let ghost mut order: Seq<usize> = Seq::empty();
    proof {
        lemma_count_true_zero(done@);
        lemma_count_true_bound(done@);
        lemma_count_pos_bound(in_deg@);
        reveal(taken_in_order);
    }
    loop
        invariant
            m == ems.len(),
            ems == es@,
            n < i32::MAX,
            forall|i: int| 0 <= i < ems.len() ==> (#[trigger] ems[i]).0 < n && ems[i].1 < n,
            rank@.len() == n,
            in_deg@.len() == n,
            done@.len() == n,
            forall|q: int| 0 <= q < n ==> in_deg@[q] == pending(ems, m as int, q as usize, by_done(ems, done@)),
            forall|q: int| 0 <= q < n ==> rank@[q] == best(ems, m as int, q as usize, rank@, by_done(ems, done@)),
            forall|q: int| 0 <= q < n ==> 0 <= #[trigger] rank@[q] <= count_true(done@),
            forall|q: int| 0 <= q < n && done@[q] ==> in_deg@[q] == 0,
            forall|x: usize| #[trigger] queue@.contains(x) <==> (x < n && in_deg@[x as int] == 0 && !done@[x as int]),
            queue@.no_duplicates(),
            taken_in_order(ems, n as int, done@, order),
        ensures
            taken_in_order(ems, n as int, done@, order),
            forall|q: int| 0 <= q < n ==> in_deg@[q] == pending(ems, m as int, q as usize, by_done(ems, done@)),
            forall|q: int| 0 <= q < n ==> rank@[q] == best(ems, m as int, q as usize, rank@, by_done(ems, done@)),
            forall|q: int| 0 <= q < n ==> (done@[q] <==> in_deg@[q] == 0),
        decreases 2 * count_pos(in_deg@) + queue@.len(),
    {
        let ghost meas = 2 * count_pos(in_deg@) + queue@.len();
        let ghost qb = queue@;
        let front = queue.pop_front();
        let u = match front {
            None => {
                proof {
                    assert forall|q: int| 0 <= q < n implies (done@[q] <==> in_deg@[q] == 0) by {
                        if in_deg@[q] == 0 && !done@[q] {
                            assert(qb.contains(q as usize));
                        }
                    }
                }
                break;
            },
            Some(u) => u,
        };
        let ghost done0 = done@;
        proof {
            assert(qb[0] == u);
            assert(qb.contains(u));
            assert(!queue@.contains(u)) by {
                if queue@.contains(u) {
                    let j = choose|j: int| 0 <= j < queue@.len() && queue@[j] == u;
                    assert(qb[j + 1] == u);
                }
            }
            assert forall|x: usize| #[trigger] queue@.contains(x) implies qb.contains(x) by {
                {
                    let j = choose|j: int| 0 <= j < queue@.len() && queue@[j] == x;
                    assert(qb[j + 1] == x);
                }
            }
            assert forall|x: usize| qb.contains(x) && x != u implies #[trigger] queue@.contains(x) by {
                {
                    let j = choose|j: int| 0 <= j < qb.len() && qb[j] == x;
                    assert(j != 0);
                    assert(queue@[j - 1] == x);
                }
            }
            lemma_count_true_set(done0, u as int);
            lemma_count_true_bound(done0.update(u as int, true));
            lemma_pending_zero(ems, m as int, u, by_done(ems, done0));
            assert forall|i: int| 0 <= i < ems.len() && (#[trigger] ems[i]).1 == u implies done0[ems[i].0 as int] && ems[i].0 < n by {
                assert(by_done(ems, done0)(i));
            }
            lemma_take(ems, n as int, done0, order, u);
            order = order.push(u);
        }
        done.set(u, true);
        let r = rank[u];
        proof {
            assert forall|q: int| 0 <= q < n implies
                in_deg@[q] == pending(ems, m as int, q as usize, by_done_before(ems, done@, u, 0))
                && rank@[q] == best(ems, m as int, q as usize, rank@, by_done_before(ems, done@, u, 0)) by {
                assert forall|i: int| 0 <= i < m implies #[trigger] by_done(ems, done0)(i) == by_done_before(ems, done@, u, 0)(i) by {
                    assert(ems[i].0 < n);
                }
                lemma_same_counted(ems, m as int, q as usize, rank@, by_done(ems, done0), by_done_before(ems, done@, u, 0));
            }
        }
        for k in 0..m
            invariant
                m == ems.len(),
                ems == es@,
                n < i32::MAX,
                forall|i: int| 0 <= i < ems.len() ==> (#[trigger] ems[i]).0 < n && ems[i].1 < n,
                u < n,
                done@[u as int],
                rank@.len() == n,
                in_deg@.len() == n,
                done@.len() == n,
                r == rank@[u as int],
                0 <= r,
                r + 1 <= count_true(done@),
                count_true(done@) <= n,
                forall|q: int| 0 <= q < n ==> in_deg@[q] == pending(ems, m as int, q as usize, by_done_before(ems, done@, u, k as int)),
                forall|q: int| 0 <= q < n ==> rank@[q] == best(ems, m as int, q as usize, rank@, by_done_before(ems, done@, u, k as int)),
                forall|q: int| 0 <= q < n ==> 0 <= #[trigger] rank@[q] <= count_true(done@),
                forall|q: int| 0 <= q < n && done@[q] ==> in_deg@[q] == 0,
                forall|x: usize| #[trigger] queue@.contains(x) <==> (x < n && in_deg@[x as int] == 0 && !done@[x as int]),
                queue@.no_duplicates(),
                2 * count_pos(in_deg@) + queue@.len() < meas,
                taken_in_order(ems, n as int, done@, order),
        {
            let e = es[k];
            let ghost ck = by_done_before(ems, done@, u, k as int);
            let ghost ck1 = by_done_before(ems, done@, u, k + 1);
            if e.0 == u {
                let ds = e.1;
                let ghost rank0 = rank@;
                let ghost deg0 = in_deg@;
                proof {
                    assert(ems[k as int] == e);
                    assert(!ck(k as int) && ck1(k as int));
                    assert forall|i: int| 0 <= i < m && i != k implies #[trigger] ck(i) == ck1(i) by {}
                    lemma_accept(ems, m as int, ds, rank0, ck, ck1, k as int);
                    assert(in_deg@[ds as int] >= 1);
                    assert(!done@[ds as int]);
                    assert(ds != u);
                }
                let new_r = r + 1;
                if new_r > rank[ds] {
                    rank.set(ds, new_r);
                }
                let d = in_deg[ds];
                in_deg.set(ds, d - 1);
                proof {
                    lemma_count_pos_update(deg0, ds as int, (d - 1) as usize);
                }
                if d - 1 == 0 {
                    proof { assert(!queue@.contains(ds)); }
                    let ghost q0 = queue@;
                    queue.push_back(ds);
                    proof { lemma_push_contains(q0, ds); }
                }
                proof {
                    assert forall|q: int| 0 <= q < n implies
                        in_deg@[q] == pending(ems, m as int, q as usize, ck1)
                        && rank@[q] == best(ems, m as int, q as usize, rank@, ck1) by {
                        lemma_accept(ems, m as int, q as usize, rank0, ck, ck1, k as int);
                        assert forall|i: int| 0 <= i < m && ems[i].1 == q as usize && #[trigger] ck1(i) implies
                            rank0[ems[i].0 as int] == rank@[ems[i].0 as int] by {
                            assert(ems[i].0 < n);
                            assert(done@[ems[i].0 as int]);
                        }
                        lemma_best_ranks(ems, m as int, q as usize, rank0, rank@, ck1);
                    }
                }
            } else {
                proof {
                    assert forall|i: int| 0 <= i < m implies #[trigger] ck(i) == ck1(i) by {}
                    assert forall|q: int| 0 <= q < n implies
                        in_deg@[q] == pending(ems, m as int, q as usize, ck1)
                        && rank@[q] == best(ems, m as int, q as usize, rank@, ck1) by {
                        lemma_same_counted(ems, m as int, q as usize, rank@, ck, ck1);
                    }
                }
            }
        }
        proof {
            assert forall|q: int| 0 <= q < n implies
                in_deg@[q] == pending(ems, m as int, q as usize, by_done(ems, done@))
                && rank@[q] == best(ems, m as int, q as usize, rank@, by_done(ems, done@)) by {
                assert forall|i: int| 0 <= i < m implies #[trigger] by_done_before(ems, done@, u, m as int)(i) == by_done(ems, done@)(i) by {}
                lemma_same_counted(ems, m as int, q as usize, rank@, by_done_before(ems, done@, u, m as int), by_done(ems, done@));
            }
        }
    }
    proof {
        assert forall|v: int| 0 <= v < n implies (done@[v] <==> forall|i: int| 0 <= i < es@.len() && es@[i].1 == v ==> done@[(#[trigger] es@[i]).0 as int]) by {
            lemma_pending_zero(ems, m as int, v as usize, by_done(ems, done@));
            assert forall|i: int| 0 <= i < m implies #[trigger] by_done(ems, done@)(i) == done@[ems[i].0 as int] by {}
            if done@[v] {
                assert forall|i: int| 0 <= i < es@.len() && es@[i].1 == v implies done@[(#[trigger] es@[i]).0 as int] by {
                    assert(by_done(ems, done@)(i));
                }
            } else {
                assert(in_deg@[v] != 0);
                let i = choose|i: int| 0 <= i < m && ems[i].1 == v as usize && !#[trigger] by_done(ems, done@)(i);
                assert(!done@[es@[i].0 as int]);
            }
        }
    }
    proof {
        assert(taken_in_order(es@, n as int, done@, order));
        reveal(taken_in_some_order);
    }
    (rank, done)
}

/// The candidate is never negative.
pub proof fn lemma_best_nonneg(es: Seq<IndexEdge>, m: int, v: usize, rank: Seq<i32>, c: spec_fn(int) -> bool)
    ensures
        best(es, m, v, rank, c) >= 0,
    decreases m,
{
    if m > 0 {
        lemma_best_nonneg(es, m - 1, v, rank, c);
    }
}

/// `(rank, taken)` is what Kahn's algorithm leaves: a node is taken exactly
/// when all its inputs are, the taken nodes can be listed so that each comes
/// after all its inputs, and each rank is one more than the largest rank
/// among the node's taken inputs, or zero.
pub open spec fn kahn_result(es: Seq<IndexEdge>, n: int, rank: Seq<i32>, taken: Seq<bool>) -> bool {
    &&& rank.len() == n
    &&& taken.len() == n
    &&& forall|v: int| 0 <= v < n ==> (taken[v] <==> forall|i: int| 0 <= i < es.len() && es[i].1 == v ==> taken[(#[trigger] es[i]).0 as int])
    &&& taken_in_some_order(es, n, taken)
    &&& forall|v: int| 0 <= v < n ==> rank[v] == best(es, es.len() as int, v as usize, rank, by_done(es, taken))
}

/// Every node listed in `order` before position `k` is taken in any `taken2`
/// that takes a node exactly when it takes all its inputs.
proof fn lemma_order_taken(es: Seq<IndexEdge>, n: int, taken: Seq<bool>, order: Seq<usize>, taken2: Seq<bool>, k: int)
    requires
        taken_in_order(es, n, taken, order),
        0 <= k <= order.len(),
        forall|v: int| 0 <= v < n ==> (taken2[v] <==> forall|i: int| 0 <= i < es.len() && es[i].1 == v ==> taken2[(#[trigger] es[i]).0 as int]),
    ensures
        forall|j: int| 0 <= j < k ==> taken2[#[trigger] order[j] as int],
    decreases k,
{
    reveal(taken_in_order);
    if k > 0 {
        lemma_order_taken(es, n, taken, order, taken2, k - 1);
        let v = order[k - 1];
        assert(v < n);
        assert forall|i: int| 0 <= i < es.len() && es[i].1 == v implies taken2[(#[trigger] es[i]).0 as int] by {
            let j = choose|j: int| 0 <= j < k - 1 && order[j] == es[i].0;
            assert(taken2[order[j] as int]);
        }
    }
}

/// Two rankings that both satisfy the rank equation over the same taken
/// nodes agree on the nodes listed in `order` before position `k`.
proof fn lemma_order_ranks(
    es: Seq<IndexEdge>, n: int, taken: Seq<bool>, order: Seq<usize>, r1: Seq<i32>, r2: Seq<i32>, k: int,
)
    requires
        taken_in_order(es, n, taken, order),
        0 <= k <= order.len(),
        forall|v: int| 0 <= v < n ==> r1[v] == best(es, es.len() as int, v as usize, r1, by_done(es, taken)),
        forall|v: int| 0 <= v < n ==> r2[v] == best(es, es.len() as int, v as usize, r2, by_done(es, taken)),
    ensures
        forall|j: int| 0 <= j < k ==> r1[#[trigger] order[j] as int] == r2[order[j] as int],
    decreases k,
{
    reveal(taken_in_order);
    if k > 0 {
        lemma_order_ranks(es, n, taken, order, r1, r2, k - 1);
        let v = order[k - 1];
        assert(v < n);
        assert forall|i: int| 0 <= i < es.len() && es[i].1 == v && #[trigger] by_done(es, taken)(i)
            implies r1[es[i].0 as int] == r2[es[i].0 as int] by {
            let j = choose|j: int| 0 <= j < k - 1 && order[j] == es[i].0;
            assert(r1[order[j] as int] == r2[order[j] as int]);
        }
        lemma_best_ranks(es, es.len() as int, v, r1, r2, by_done(es, taken));
    }
}

/// Kahn's result is unique: any two results for the same edges take the
/// same nodes and give them the same ranks.
pub proof fn lemma_kahn_unique(es: Seq<IndexEdge>, n: int, rank1: Seq<i32>, taken1: Seq<bool>, rank2: Seq<i32>, taken2: Seq<bool>)
    requires
        n <= usize::MAX,
        forall|i: int| 0 <= i < es.len() ==> (#[trigger] es[i]).0 < n && es[i].1 < n,
        kahn_result(es, n, rank1, taken1),
        kahn_result(es, n, rank2, taken2),
    ensures
        taken1 == taken2,
        rank1 == rank2,
{
    reveal(taken_in_order);
    reveal(taken_in_some_order);
    let o1 = choose|o: Seq<usize>| taken_in_order(es, n, taken1, o);
    let o2 = choose|o: Seq<usize>| taken_in_order(es, n, taken2, o);
    lemma_order_taken(es, n, taken1, o1, taken2, o1.len() as int);
    lemma_order_taken(es, n, taken2, o2, taken1, o2.len() as int);
    assert forall|v: int| 0 <= v < n implies taken1[v] == taken2[v] by {
        let x = v as usize;
        if taken1[v] {
            assert(o1.contains(x));
            let j = choose|j: int| 0 <= j < o1.len() && o1[j] == x;
            assert(taken2[o1[j] as int]);
        }
        if taken2[v] {
            assert(o2.contains(x));
            let j = choose|j: int| 0 <= j < o2.len() && o2[j] == x;
            assert(taken1[o2[j] as int]);
        }
    }
    assert(taken1 =~= taken2);
    lemma_order_ranks(es, n, taken1, o1, rank1, rank2, o1.len() as int);
    assert forall|v: int| 0 <= v < n implies rank1[v] == rank2[v] by {
        assert forall|i: int| 0 <= i < es.len() && es[i].1 == v as usize && #[trigger] by_done(es, taken1)(i)
            implies rank1[es[i].0 as int] == rank2[es[i].0 as int] by {
            let src = es[i].0;
            assert(taken1[src as int]);
            assert(o1.contains(src));
            let j = choose|j: int| 0 <= j < o1.len() && o1[j] == src;
            assert(rank1[o1[j] as int] == rank2[o1[j] as int]);
        }
        lemma_best_ranks(es, es.len() as int, v as usize, rank1, rank2, by_done(es, taken1));
    }
    assert(rank1 =~= rank2);
}

} // verus!
