use vstd::prelude::*;
use crate::draw_dot::rank::IndexEdge;

verus! {

/// Node `v` is the target of no edge.
pub open spec fn no_inputs(es: Seq<IndexEdge>, v: usize) -> bool {
    forall|i: int| 0 <= i < es.len() ==> (#[trigger] es[i]).1 != v
}

/// The smallest rank among the targets of the first `m` edges out of `u`,
/// or `None` when there are none.
pub open spec fn min_out(es: Seq<IndexEdge>, m: int, u: usize, rank: Seq<i32>) -> Option<int>
    decreases m,
{
    if m <= 0 {
        None
    } else {
        let prev = min_out(es, m - 1, u, rank);
        let e = es[m - 1];
        if e.0 != u {
            prev
        } else {
            let r = rank[e.1 as int] as int;
            match prev {
                None => Some(r),
                Some(p) => Some(if r < p { r } else { p }),
            }
        }
    }
}

/// The rank of `v` once leaves are pulled next to their consumers: a node
/// without inputs that feeds some node sits one column left of the leftmost
/// node it feeds; every other node keeps its rank.
pub open spec fn pulled_rank(es: Seq<IndexEdge>, v: usize, rank: Seq<i32>) -> int {
    if no_inputs(es, v) {
        match min_out(es, es.len() as int, v, rank) {
            Some(r) => r - 1,
            None => rank[v as int] as int,
        }
    } else {
        rank[v as int] as int
    }
}

/// Pulls every leaf that feeds some node next to the leftmost node it feeds.
pub fn pull_leaves(n: usize, es: &Vec<IndexEdge>, rank: &Vec<i32>) -> (r: Vec<i32>)
    requires
        rank@.len() == n,
        forall|i: int| 0 <= i < es@.len() ==> (#[trigger] es@[i]).0 < n && es@[i].1 < n,
        forall|v: int| 0 <= v < n ==> #[trigger] rank@[v] >= 0,
    ensures
        r@.len() == n,
        forall|v: int| 0 <= v < n ==> #[trigger] r@[v] == pulled_rank(es@, v as usize, rank@),
{
    let m = es.len();
    let mut r: Vec<i32> = Vec::new();
    for v in 0..n
        invariant
            m == es@.len(),
            rank@.len() == n,
            forall|i: int| 0 <= i < es@.len() ==> (#[trigger] es@[i]).0 < n && es@[i].1 < n,
            forall|q: int| 0 <= q < n ==> #[trigger] rank@[q] >= 0,
            r@.len() == v,
            forall|q: int| 0 <= q < v ==> #[trigger] r@[q] == pulled_rank(es@, q as usize, rank@),
    {
        let mut leaf = true;
        let mut best: Option<i32> = None;
        for i in 0..m
            invariant
                m == es@.len(),
                rank@.len() == n,
                v < n,
                forall|j: int| 0 <= j < es@.len() ==> (#[trigger] es@[j]).0 < n && es@[j].1 < n,
                forall|q: int| 0 <= q < n ==> #[trigger] rank@[q] >= 0,
                leaf == forall|j: int| 0 <= j < i ==> (#[trigger] es@[j]).1 != v,
                match best {
                    None => min_out(es@, i as int, v, rank@) is None,
                    Some(b) => min_out(es@, i as int, v, rank@) == Some(b as int) && b >= 0,
                },
        {
            let e = es[i];
            if e.1 == v {
                leaf = false;
            }
            if e.0 == v {
                let t = rank[e.1];
                best = match best {
                    None => Some(t),
                    Some(b) => Some(if t < b { t } else { b }),
                };
            }
        }
        let value = if leaf {
            match best {
                Some(b) => b - 1,
                None => rank[v],
            }
        } else {
            rank[v]
        };
        r.push(value);
    }
    r
}

/// The ranks in use, each once, in increasing order.
pub open spec fn is_rank_columns(cols: Seq<i32>, rank: Seq<i32>) -> bool {
    &&& forall|i: int, j: int| 0 <= i < j < cols.len() ==> cols[i] < cols[j]
    &&& forall|c: int| 0 <= c < cols.len() ==> rank.contains(#[trigger] cols[c])
    &&& forall|v: int| 0 <= v < rank.len() ==> cols.contains(#[trigger] rank[v])
}

/// Inserts `x` into the increasing list `s` unless it is already there.
fn insert_sorted(s: &mut Vec<i32>, x: i32)
    requires
        forall|i: int, j: int| 0 <= i < j < old(s)@.len() ==> old(s)@[i] < old(s)@[j],
    ensures
        forall|i: int, j: int| 0 <= i < j < final(s)@.len() ==> final(s)@[i] < final(s)@[j],
        forall|y: i32| final(s)@.contains(y) <==> (old(s)@.contains(y) || y == x),
        final(s)@.len() <= old(s)@.len() + 1,
{
    let n = s.len();
    let mut k: usize = 0;
    while k < n && s[k] < x
        invariant
            n == s@.len(),
            s@ == old(s)@,
            k <= n,
            forall|i: int| 0 <= i < k ==> s@[i] < x,
        decreases n - k,
    {
        k = k + 1;
    }
    if k < n && s[k] == x {
        proof {
            assert(s@[k as int] == x);
            assert(s@.contains(x));
            assert forall|y: i32| s@.contains(y) <==> (old(s)@.contains(y) || y == x) by {}
        }
        return;
    }
    let ghost s0 = s@;
    s.insert(k, x);
    proof {
        assert(s@ == s0.subrange(0, k as int).push(x) + s0.subrange(k as int, n as int));
        assert forall|y: i32| s@.contains(y) <==> (s0.contains(y) || y == x) by {
            if s0.contains(y) {
                let j = choose|j: int| 0 <= j < s0.len() && s0[j] == y;
                if j < k { assert(s@[j] == y); } else { assert(s@[j + 1] == y); }
            }
            if y == x { assert(s@[k as int] == y); }
            if s@.contains(y) {
                let j = choose|j: int| 0 <= j < s@.len() && s@[j] == y;
                if j < k { assert(s0[j] == y); } else if j > k { assert(s0[j - 1] == y); }
            }
        }
        assert(s0 == old(s)@);
        assert forall|i: int, j: int| 0 <= i < j < s@.len() implies s@[i] < s@[j] by {
            if j < k {
            } else if i > k {
                assert(s@[i] == s0[i - 1] && s@[j] == s0[j - 1]);
            } else if i == k {
                assert(s@[j] == s0[j - 1]);
                assert(!(s0[k as int] < x));
                assert(s0[k as int] != x);
            } else if j == k {
            } else {
                assert(s@[j] == s0[j - 1]);
                assert(s0[k as int] > x);
            }
        }
    }
}

/// The ranks in use, each once, in increasing order.
pub fn rank_columns(rank: &Vec<i32>) -> (cols: Vec<i32>)
    ensures
        is_rank_columns(cols@, rank@),
        cols@.len() <= rank@.len(),
{
    let mut cols: Vec<i32> = Vec::new();
    for v in 0..rank.len()
        invariant
            forall|i: int, j: int| 0 <= i < j < cols@.len() ==> cols@[i] < cols@[j],
            forall|y: i32| cols@.contains(y) <==> exists|q: int| 0 <= q < v && rank@[q] == y,
            cols@.len() <= v,
    {
        let ghost c0 = cols@;
        insert_sorted(&mut cols, rank[v]);
        proof {
            assert forall|y: i32| cols@.contains(y) <==> exists|q: int| 0 <= q < v + 1 && rank@[q] == y by {
                if c0.contains(y) {
                    let q = choose|q: int| 0 <= q < v && rank@[q] == y;
                    assert(0 <= q < v + 1 && rank@[q] == y);
                }
                if y == rank@[v as int] {
                    assert(0 <= v < v + 1 && rank@[v as int] == y);
                }
                if exists|q: int| 0 <= q < v + 1 && rank@[q] == y {
                    let q = choose|q: int| 0 <= q < v + 1 && rank@[q] == y;
                    if q < v { assert(exists|q: int| 0 <= q < v && rank@[q] == y); }
                }
            }
        }
    }
    proof {
        assert forall|c: int| 0 <= c < cols@.len() implies rank@.contains(#[trigger] cols@[c]) by {
            assert(cols@.contains(cols@[c]));
            let q = choose|q: int| 0 <= q < rank@.len() && rank@[q] == cols@[c];
            assert(rank@[q] == cols@[c]);
        }
        assert forall|w: int| 0 <= w < rank@.len() implies cols@.contains(#[trigger] rank@[w]) by {
            let y = rank@[w];
            assert(0 <= w < rank@.len() && rank@[w] == y);
            assert(exists|q: int| 0 <= q < rank@.len() && rank@[q] == y);
        }
    }
    cols
}

/// The widest node of rank `r` among the first `k` nodes, and at least zero.
pub open spec fn col_width(rank: Seq<i32>, widths: Seq<i32>, k: int, r: i32) -> int
    decreases k,
{
    if k <= 0 {
        0
    } else {
        let w = col_width(rank, widths, k - 1, r);
        if rank[k - 1] == r && widths[k - 1] > w { widths[k - 1] as int } else { w }
    }
}

/// The gap between the edges of neighbouring columns, where the operation
/// ellipses sit.
pub const COL_GAP: i32 = 110;

/// The most nodes the layout accepts: as many as fit, `ROW_H` apart, twice
/// over in the `i32` heights (`i32::MAX / (2 * ROW_H)`).
pub const MAX_NODES: usize = 21_474_836;

/// The horizontal centre of column `c`: the first column's left edge is at
/// zero, and neighbouring columns are `COL_GAP` apart edge to edge.
pub open spec fn col_center(cw: Seq<i32>, c: int) -> int
    decreases c,
{
    if c <= 0 {
        cw[0] / 2
    } else {
        col_center(cw, c - 1) + cw[c - 1] / 2 + COL_GAP + cw[c] / 2
    }
}

/// The widest node `n` nodes may have: with every width at most this, `n`
/// columns `COL_GAP` apart, twice over, stay within `i32`.
pub open spec fn width_cap(n: int) -> int {
    (i32::MAX as int) / (2 * n) - COL_GAP
}

/// `n` columns no wider than `width_cap(n)`, with their gaps, take at most
/// half the `i32` range.
pub proof fn lemma_width_cap(n: int)
    requires
        n >= 1,
    ensures
        n * (width_cap(n) + COL_GAP) <= i32::MAX / 2,
        width_cap(n) + COL_GAP >= 0,
{
    let m = i32::MAX as int;
    let q = m / (2 * n);
    assert(q >= 0) by (nonlinear_arith) requires n >= 1, m >= 0, q == m / (2 * n);
    assert(2 * n * q <= m) by (nonlinear_arith) requires n >= 1, m >= 0, q == m / (2 * n);
    assert(n * q <= m / 2) by (nonlinear_arith) requires 2 * n * q <= m, n >= 1, q >= 0;
}

proof fn lemma_col_width_bounds(rank: Seq<i32>, widths: Seq<i32>, k: int, r: i32, wb: int)
    requires
        0 <= k <= rank.len(),
        k <= widths.len(),
        forall|v: int| 0 <= v < widths.len() ==> 0 <= #[trigger] widths[v] <= wb,
    ensures
        0 <= col_width(rank, widths, k, r),
        k > 0 ==> col_width(rank, widths, k, r) <= wb,
        col_width(rank, widths, k, r) <= if wb > 0 { wb } else { 0 },
    decreases k,
{
    if k > 0 {
        lemma_col_width_bounds(rank, widths, k - 1, r, wb);
    }
}

proof fn lemma_col_center_bound(cw: Seq<i32>, c: int, wb: int)
    requires
        0 <= c < cw.len(),
        forall|i: int| 0 <= i < cw.len() ==> 0 <= #[trigger] cw[i] <= wb,
    ensures
        cw[c] / 2 <= col_center(cw, c) <= c * (wb + COL_GAP) + cw[c] / 2,
    decreases c,
{
    if c > 0 {
        lemma_col_center_bound(cw, c - 1, wb);
        assert((c - 1) * (wb + COL_GAP) + wb + COL_GAP == c * (wb + COL_GAP)) by (nonlinear_arith);
    }
}

/// The width of each column and its horizontal centre.
pub fn column_geometry(rank: &Vec<i32>, widths: &Vec<i32>, cols: &Vec<i32>) -> (r: (Vec<i32>, Vec<i32>))
    requires
        rank@.len() == widths@.len(),
        cols@.len() <= rank@.len(),
        forall|v: int| 0 <= v < widths@.len() ==> 0 <= #[trigger] widths@[v] <= width_cap(rank@.len() as int),
    ensures
        r.0@.len() == cols@.len(),
        r.1@.len() == cols@.len(),
        forall|c: int| 0 <= c < cols@.len() ==> #[trigger] r.0@[c] == col_width(rank@, widths@, rank@.len() as int, cols@[c]),
        forall|c: int| 0 <= c < cols@.len() ==> #[trigger] r.1@[c] == col_center(r.0@, c),
        forall|c: int| 0 <= c < cols@.len() ==> 0 <= #[trigger] r.0@[c] <= width_cap(rank@.len() as int),
        forall|c: int| 0 <= c < cols@.len() ==> r.0@[c] / 2 <= #[trigger] r.1@[c]
            <= c * (width_cap(rank@.len() as int) + COL_GAP) + r.0@[c] / 2,
{
    let n = rank.len();
    let ghost wb = width_cap(n as int);
    if cols.len() == 0 {
        return (Vec::new(), Vec::new());
    }
    proof {
        assert(0 <= widths@[0] <= wb);
        lemma_width_cap(n as int);
    }
    let mut cw: Vec<i32> = Vec::new();
    for c in 0..cols.len()
        invariant
            n == rank@.len(),
            n == widths@.len(),
            n >= 1,
            wb == width_cap(n as int),
            wb >= 0,
            forall|v: int| 0 <= v < widths@.len() ==> 0 <= #[trigger] widths@[v] <= wb,
            cw@.len() == c,
            forall|q: int| 0 <= q < c ==> #[trigger] cw@[q] == col_width(rank@, widths@, n as int, cols@[q]),
            forall|q: int| 0 <= q < c ==> 0 <= #[trigger] cw@[q] <= wb,
    {
        let r = cols[c];
        let mut w: i32 = 0;
        for v in 0..n
            invariant
                n == rank@.len(),
                n == widths@.len(),
                r == cols@[c as int],
                w == col_width(rank@, widths@, v as int, r),
        {
            if rank[v] == r && widths[v] > w {
                w = widths[v];
            }
        }
        proof { lemma_col_width_bounds(rank@, widths@, n as int, r, wb); }
        cw.push(w);
    }
    let mut cx: Vec<i32> = Vec::new();
    let mut cursor: i32 = 0;
    for c in 0..cols.len()
        invariant
            cw@.len() == cols@.len(),
            cols@.len() <= n,
            n >= 1,
            wb >= 0,
            n * (wb + COL_GAP) <= i32::MAX / 2,
            forall|q: int| 0 <= q < cw@.len() ==> 0 <= #[trigger] cw@[q] <= wb,
            cx@.len() == c,
            forall|q: int| 0 <= q < c ==> #[trigger] cx@[q] == col_center(cw@, q),
            c > 0 ==> cursor == col_center(cw@, c - 1),
    {
        let half_w = cw[c] / 2;
        proof {
            if c > 0 {
                lemma_col_center_bound(cw@, c - 1, wb);
                lemma_col_center_bound(cw@, c as int, wb);
                assert(c * (wb + COL_GAP) + wb <= 2 * (n * (wb + COL_GAP))) by (nonlinear_arith)
                    requires c < n, wb >= 0, n >= 1;
            }
        }
        if c == 0 {
            cursor = half_w;
        } else {
            cursor = cursor + cw[c - 1] / 2 + COL_GAP + half_w;
        }
        cx.push(cursor);
    }
    proof {
        assert forall|c: int| 0 <= c < cols@.len() implies cw@[c] / 2 <= #[trigger] cx@[c]
            <= c * (wb + COL_GAP) + cw@[c] / 2 by {
            lemma_col_center_bound(cw@, c, wb);
        }
    }
    (cw, cx)
}

/// The column widths and centres of `cols`, for widths within
/// `width_cap(n)`: each column is no wider than the cap, and column `c`'s
/// centre lies between half its width and `c` capped columns with their
/// gaps further on, all within half the `i32` range.
pub proof fn lemma_column_bounds(rank: Seq<i32>, widths: Seq<i32>, cols: Seq<i32>)
    requires
        rank.len() == widths.len(),
        1 <= rank.len(),
        cols.len() <= rank.len(),
        forall|v: int| 0 <= v < widths.len() ==> 0 <= #[trigger] widths[v] <= width_cap(rank.len() as int),
    ensures
        ({
            let n = rank.len() as int;
            let cw = Seq::new(cols.len(), |c: int| col_width(rank, widths, n, cols[c]) as i32);
            &&& 0 <= width_cap(n)
            &&& n * (width_cap(n) + COL_GAP) <= i32::MAX / 2
            &&& forall|c: int| 0 <= c < cols.len() ==> 0 <= #[trigger] cw[c] <= width_cap(n)
                && cw[c] == col_width(rank, widths, n, cols[c])
            &&& forall|c: int| 0 <= c < cols.len() ==> cw[c] / 2 <= #[trigger] col_center(cw, c)
                <= c * (width_cap(n) + COL_GAP) + cw[c] / 2
        }),
{
    let n = rank.len() as int;
    let wb = width_cap(n);
    let cw = Seq::new(cols.len(), |c: int| col_width(rank, widths, n, cols[c]) as i32);
    assert(0 <= widths[0] <= wb);
    lemma_width_cap(n);
    assert forall|c: int| 0 <= c < cols.len() implies 0 <= #[trigger] cw[c] <= wb
        && cw[c] == col_width(rank, widths, n, cols[c]) by {
        lemma_col_width_bounds(rank, widths, n, cols[c], wb);
    }
    assert forall|c: int| 0 <= c < cols.len() implies cw[c] / 2 <= #[trigger] col_center(cw, c)
        <= c * (wb + COL_GAP) + cw[c] / 2 by {
        lemma_col_center_bound(cw, c, wb);
    }
}

} // verus!
