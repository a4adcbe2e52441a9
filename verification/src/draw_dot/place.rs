use vstd::prelude::*;
use crate::draw_dot::columns::{COL_GAP, MAX_NODES, is_rank_columns, lemma_width_cap, width_cap};

verus! {

/// The vertical distance between the centres of stacked nodes.
pub const ROW_H: i32 = 50;

/// The number of the first `k` nodes that have rank `r`.
pub open spec fn count_rank(rank: Seq<i32>, k: int, r: i32) -> nat
    decreases k,
{
    if k <= 0 { 0 } else { count_rank(rank, k - 1, r) + if rank[k - 1] == r { 1nat } else { 0nat } }
}

/// The column of rank `r`.
pub open spec fn col_index(cols: Seq<i32>, r: i32) -> int {
    choose|c: int| 0 <= c < cols.len() && cols[c] == r
}

/// The left edge of column `c`.
pub open spec fn col_left(cw: Seq<i32>, cx: Seq<i32>, c: int) -> int {
    cx[c] - cw[c] / 2
}

/// Where node `v` first goes: its left edge on its column's left edge, and
/// stacked in its column in node order, `ROW_H` apart, centred on zero.
pub open spec fn first_pos(rank: Seq<i32>, widths: Seq<i32>, cols: Seq<i32>, cw: Seq<i32>, cx: Seq<i32>, v: int) -> (int, int) {
    let c = col_index(cols, rank[v]);
    let slot = count_rank(rank, v, rank[v]) as int;
    let n = count_rank(rank, rank.len() as int, rank[v]) as int;
    (col_left(cw, cx, c) + widths[v] / 2, (slot - n / 2) * ROW_H + ROW_H / 2)
}

/// Where the operation ellipse of a node in column `c` goes horizontally:
/// midway between the previous column's right edge and this column's left
/// edge, or half a gap left of the first column.
pub open spec fn op_x(cw: Seq<i32>, cx: Seq<i32>, c: int) -> int {
    if c > 0 {
        (cx[c - 1] + cw[c - 1] / 2 + col_left(cw, cx, c)) / 2
    } else {
        col_left(cw, cx, c) - COL_GAP / 2
    }
}

/// The position of `r` in the increasing list `cols`, which holds it.
fn find_col(cols: &Vec<i32>, r: i32) -> (c: usize)
    requires
        cols@.contains(r),
    ensures
        c < cols@.len(),
        cols@[c as int] == r,
{
    let mut c: usize = 0;
    while c < cols.len() && cols[c] != r
        invariant
            c <= cols@.len(),
            cols@.contains(r),
            forall|q: int| 0 <= q < c ==> cols@[q] != r,
        decreases cols@.len() - c,
    {
        c = c + 1;
    }
    proof {
        if c == cols@.len() {
            let k = choose|k: int| 0 <= k < cols@.len() && cols@[k] == r;
            assert(cols@[k] != r);
        }
    }
    c
}

proof fn lemma_count_rank_bound(rank: Seq<i32>, k: int, j: int, r: i32)
    requires
        0 <= j <= k <= rank.len(),
    ensures
        count_rank(rank, j, r) <= count_rank(rank, k, r) <= k,
    decreases k,
{
    if k > j {
        lemma_count_rank_bound(rank, k - 1, j, r);
    } else if k > 0 {
        lemma_count_rank_bound(rank, k - 1, k - 1, r);
    }
}

/// The first positions of the nodes and the horizontal positions of their
/// operation ellipses (for the nodes that have an operation).
pub fn first_positions(
    rank: &Vec<i32>,
    widths: &Vec<i32>,
    has_op: &Vec<bool>,
    cols: &Vec<i32>,
    cw: &Vec<i32>,
    cx: &Vec<i32>,
) -> (r: (Vec<i32>, Vec<i32>, Vec<Option<i32>>))
    requires
        rank@.len() == widths@.len(),
        rank@.len() == has_op@.len(),
        rank@.len() <= MAX_NODES,
        is_rank_columns(cols@, rank@),
        cw@.len() == cols@.len(),
        cx@.len() == cols@.len(),
        cols@.len() <= rank@.len(),
        forall|v: int| 0 <= v < widths@.len() ==> 0 <= #[trigger] widths@[v] <= width_cap(rank@.len() as int),
        forall|c: int| 0 <= c < cols@.len() ==> 0 <= #[trigger] cw@[c] <= width_cap(rank@.len() as int),
        forall|c: int| 0 <= c < cols@.len() ==> cw@[c] / 2 <= #[trigger] cx@[c]
            <= c * (width_cap(rank@.len() as int) + COL_GAP) + cw@[c] / 2,
    ensures
        r.0@.len() == rank@.len(),
        r.1@.len() == rank@.len(),
        r.2@.len() == rank@.len(),
        forall|v: int| 0 <= v < rank@.len() ==>
            #[trigger] r.0@[v] == first_pos(rank@, widths@, cols@, cw@, cx@, v).0 && r.1@[v] == first_pos(rank@, widths@, cols@, cw@, cx@, v).1,
        forall|v: int| 0 <= v < rank@.len() ==> #[trigger] r.2@[v] == if has_op@[v] {
            Some(op_x(cw@, cx@, col_index(cols@, rank@[v])) as i32)
        } else {
            None
        },
        forall|v: int| 0 <= v < rank@.len() ==> -(ROW_H as int) * (MAX_NODES as int) <= #[trigger] r.1@[v] <= (ROW_H as int) * (MAX_NODES as int),
{
    let n = rank.len();
    let mut xs: Vec<i32> = Vec::new();
    let mut ys: Vec<i32> = Vec::new();
    let mut ops: Vec<Option<i32>> = Vec::new();
    for v in 0..n
        invariant
            n == rank@.len(),
            n == widths@.len(),
            n == has_op@.len(),
            n <= MAX_NODES,
            is_rank_columns(cols@, rank@),
            cw@.len() == cols@.len(),
            cx@.len() == cols@.len(),
            cols@.len() <= n,
            forall|q: int| 0 <= q < widths@.len() ==> 0 <= #[trigger] widths@[q] <= width_cap(n as int),
            forall|c: int| 0 <= c < cols@.len() ==> 0 <= #[trigger] cw@[c] <= width_cap(n as int),
            forall|c: int| 0 <= c < cols@.len() ==> cw@[c] / 2 <= #[trigger] cx@[c]
                <= c * (width_cap(n as int) + COL_GAP) + cw@[c] / 2,
            xs@.len() == v,
            ys@.len() == v,
            ops@.len() == v,
            forall|q: int| 0 <= q < v ==> #[trigger] xs@[q] == first_pos(rank@, widths@, cols@, cw@, cx@, q).0 && ys@[q] == first_pos(rank@, widths@, cols@, cw@, cx@, q).1,
            forall|q: int| 0 <= q < v ==> #[trigger] ops@[q] == if has_op@[q] {
                Some(op_x(cw@, cx@, col_index(cols@, rank@[q])) as i32)
            } else {
                None
            },
            forall|q: int| 0 <= q < v ==> -(ROW_H as int) * (MAX_NODES as int) <= #[trigger] ys@[q] <= (ROW_H as int) * (MAX_NODES as int),
    {
        let r = rank[v];
        proof { assert(cols@.contains(rank@[v as int])); }
        let c = find_col(cols, r);
        proof {
            let k = col_index(cols@, r);
            assert(0 <= k < cols@.len() && cols@[k] == r);
            if k != c {
                if k < c { assert(cols@[k] < cols@[c as int]); } else { assert(cols@[c as int] < cols@[k]); }
            }
        }
        let mut slot: i32 = 0;
        let mut count: i32 = 0;
        for u in 0..n
            invariant
                n == rank@.len(),
                n <= MAX_NODES,
                v < n,
                r == rank@[v as int],
                slot == count_rank(rank@, if u < v { u as int } else { v as int }, r),
                count == count_rank(rank@, u as int, r),
        {
            proof { lemma_count_rank_bound(rank@, u as int, u as int, r); }
            if rank[u] == r {
                if u < v {
                    slot = slot + 1;
                }
                count = count + 1;
            }
        }
        proof {
            lemma_count_rank_bound(rank@, n as int, v as int, r);
            assert(count_rank(rank@, v + 1, r) == count_rank(rank@, v as int, r) + 1);
            lemma_count_rank_bound(rank@, n as int, v + 1, r);
        }
        proof {
            let wb = width_cap(n as int);
            lemma_width_cap(n as int);
            assert(0 <= wb) by { assert(0 <= widths@[v as int] <= wb); }
            assert(c * (wb + COL_GAP) + wb <= 2 * (n * (wb + COL_GAP))) by (nonlinear_arith)
                requires c < n, wb >= 0, n >= 1;
            if c > 0 {
                assert((c - 1) * (wb + COL_GAP) + wb + c * (wb + COL_GAP) <= 2 * (n * (wb + COL_GAP))) by (nonlinear_arith)
                    requires c < n, wb >= 0, n >= 1;
            }
        }
        let left = cx[c] - cw[c] / 2;
        xs.push(left + widths[v] / 2);
        ys.push((slot - count / 2) * ROW_H + ROW_H / 2);
        if has_op[v] {
            let ox = if c > 0 { (cx[c - 1] + cw[c - 1] / 2 + left) / 2 } else { left - COL_GAP / 2 };
            ops.push(Some(ox));
        } else {
            ops.push(None);
        }
    }
    (xs, ys, ops)
}

} // verus!
