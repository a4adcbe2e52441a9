use vstd::prelude::*;
use crate::draw_dot::rank::{IndexEdge, best, by_done, kahn_ranks, kahn_result, lemma_kahn_unique};
use crate::draw_dot::columns::{
    COL_GAP, MAX_NODES, lemma_column_bounds, min_out, no_inputs, width_cap, col_center, col_width, column_geometry, is_rank_columns, pull_leaves, pulled_rank,
    rank_columns,
};
use crate::draw_dot::place::{ROW_H, col_index, col_left, first_pos, first_positions, op_x};
use crate::draw_dot::settle::{in_count, in_sum, not_above_inputs, ranks_rise, rows_apart, settle, settled, tdiv};

verus! {

/// A node of the graph to draw: its id and whether it was computed by an
/// operation (drawn as an ellipse before it).
#[derive(Clone, Copy, PartialEq, Eq, Structural, Debug)]
pub struct GNode {
    pub id: usize,
    pub has_op: bool,
}

/// An edge from an input node to the node computed from it, by ids.
#[derive(Clone, Copy, PartialEq, Eq, Structural, Debug)]
pub struct GEdge {
    pub from: usize,
    pub to: usize,
}

/// The nodes have distinct ids.
pub open spec fn ids_distinct(nodes: Seq<GNode>) -> bool {
    forall|i: int, j: int| 0 <= i < j < nodes.len() ==> nodes[i].id != nodes[j].id
}

/// Some node has id `id`.
pub open spec fn has_id(nodes: Seq<GNode>, id: usize) -> bool {
    exists|k: int| 0 <= k < nodes.len() && nodes[k].id == id
}

/// What the layout accepts: at least one node, with distinct ids, edges
/// between them, and for each node a width from zero up to `width_cap`, so
/// that the coordinates stay within `i32` (which also keeps the node count
/// within `MAX_NODES`).
pub open spec fn layout_ok(nodes: Seq<GNode>, edges: Seq<GEdge>, widths: Seq<i32>) -> bool {
    &&& 1 <= nodes.len() <= MAX_NODES
    &&& widths.len() == nodes.len()
    &&& forall|v: int| 0 <= v < widths.len() ==> 0 <= #[trigger] widths[v] <= width_cap(nodes.len() as int)
    &&& ids_distinct(nodes)
    &&& forall|i: int| 0 <= i < edges.len() ==> has_id(nodes, (#[trigger] edges[i]).from) && has_id(nodes, edges[i].to)
}

/// `es` is `edges` with ids replaced by node positions.
pub open spec fn indexes_edges(nodes: Seq<GNode>, edges: Seq<GEdge>, es: Seq<IndexEdge>) -> bool {
    &&& es.len() == edges.len()
    &&& forall|i: int| 0 <= i < es.len() ==> (#[trigger] es[i]).0 < nodes.len() && es[i].1 < nodes.len()
        && nodes[es[i].0 as int].id == edges[i].from && nodes[es[i].1 as int].id == edges[i].to
}

/// The position of the node with id `id`.
fn index_of(nodes: &Vec<GNode>, id: usize) -> (k: usize)
    requires
        has_id(nodes@, id),
    ensures
        k < nodes@.len(),
        nodes@[k as int].id == id,
{
    let mut k: usize = 0;
    while k < nodes.len() && nodes[k].id != id
        invariant
            k <= nodes@.len(),
            has_id(nodes@, id),
            forall|q: int| 0 <= q < k ==> nodes@[q].id != id,
        decreases nodes@.len() - k,
    {
        k = k + 1;
    }
    proof {
        if k == nodes@.len() {
            let q = choose|q: int| 0 <= q < nodes@.len() && nodes@[q].id == id;
            assert(nodes@[q].id != id);
        }
    }
    k
}

/// The edges with ids replaced by node positions.
pub fn edge_indices(nodes: &Vec<GNode>, edges: &Vec<GEdge>) -> (es: Vec<IndexEdge>)
    requires
        forall|i: int| 0 <= i < edges@.len() ==> has_id(nodes@, (#[trigger] edges@[i]).from) && has_id(nodes@, edges@[i].to),
    ensures
        indexes_edges(nodes@, edges@, es@),
{
    let mut es: Vec<IndexEdge> = Vec::new();
    for i in 0..edges.len()
        invariant
            forall|q: int| 0 <= q < edges@.len() ==> has_id(nodes@, (#[trigger] edges@[q]).from) && has_id(nodes@, edges@[q].to),
            es@.len() == i,
            forall|q: int| 0 <= q < i ==> (#[trigger] es@[q]).0 < nodes@.len() && es@[q].1 < nodes@.len()
                && nodes@[es@[q].0 as int].id == edges@[q].from && nodes@[es@[q].1 as int].id == edges@[q].to,
    {
        let e = edges[i];
        let a = index_of(nodes, e.from);
        let b = index_of(nodes, e.to);
        es.push((a, b));
    }
    es
}

/// The rank of each node after leaves are pulled next to their consumers.
pub open spec fn final_ranks(es: Seq<IndexEdge>, n: int, rank0: Seq<i32>) -> Seq<i32> {
    Seq::new(n as nat, |v: int| pulled_rank(es, v as usize, rank0) as i32)
}

/// The heights the nodes start at.
pub open spec fn first_heights(rank: Seq<i32>, widths: Seq<i32>, cols: Seq<i32>, cw: Seq<i32>, cx: Seq<i32>) -> Seq<i32> {
    Seq::new(rank.len(), |v: int| first_pos(rank, widths, cols, cw, cx, v).1 as i32)
}

/// `pos` and `ops` are the layout that the index edges `es`, Kahn's ranks
/// and taken nodes `rank0` and `taken`, and the columns `cols` give.
pub open spec fn laid_out_by(
    nodes: Seq<GNode>,
    edges: Seq<GEdge>,
    widths: Seq<i32>,
    pos: Seq<(i32, i32)>,
    ops: Seq<Option<(i32, i32)>>,
    es: Seq<IndexEdge>,
    rank0: Seq<i32>,
    taken: Seq<bool>,
    cols: Seq<i32>,
) -> bool {
    let n = nodes.len() as int;
    let rank = final_ranks(es, n, rank0);
    let cw = Seq::new(cols.len(), |c: int| col_width(rank, widths, n, cols[c]) as i32);
    let cx = Seq::new(cols.len(), |c: int| col_center(cw, c) as i32);
    let ys = settled(first_heights(rank, widths, cols, cw, cx), es, rank, cols, cols.len() as int);
    &&& indexes_edges(nodes, edges, es)
    &&& kahn_result(es, n, rank0, taken)
    &&& is_rank_columns(cols, rank)
    &&& cols.len() <= n
    &&& rows_apart(ys, rank, cols)
    &&& cols.len() > 0 && ranks_rise(es, rank) ==> not_above_inputs(ys, es, rank, cols, cols[0])
    &&& forall|v: int| 0 <= v < n ==> (#[trigger] pos[v]).0 == first_pos(rank, widths, cols, cw, cx, v).0
        && pos[v].1 == ys[v]
    &&& forall|v: int| 0 <= v < n ==> #[trigger] ops[v] == if nodes[v].has_op {
        Some((op_x(cw, cx, col_index(cols, rank[v])) as i32, ys[v]))
    } else {
        None
    }
}

/// `pos` and `ops` are the layout of the graph: each node's centre and, for
/// a node computed by an operation, its ellipse's centre, as `layout` says.
pub open spec fn laid_out(nodes: Seq<GNode>, edges: Seq<GEdge>, widths: Seq<i32>, pos: Seq<(i32, i32)>, ops: Seq<Option<(i32, i32)>>) -> bool {
    &&& pos.len() == nodes.len()
    &&& ops.len() == nodes.len()
    &&& exists|es: Seq<IndexEdge>, rank0: Seq<i32>, taken: Seq<bool>, cols: Seq<i32>|
        #[trigger] laid_out_by(nodes, edges, widths, pos, ops, es, rank0, taken, cols)
}

/// The layout of a graph: each node's centre and, for a node computed by an
/// operation, its ellipse's centre, at the node's height.
///
/// Each node's column is its rank: the length of the longest path to it
/// from a node without inputs (found with Kahn's algorithm), where a node
/// without inputs that feeds some node is moved to the column just left of
/// the leftmost node it feeds. Columns are as wide as their widest node and
/// `COL_GAP` apart; a node's left edge is its column's left edge, and an
/// operation ellipse sits midway between its column and the previous one.
/// Nodes first stack in their column in node order, `ROW_H` apart and
/// centred on zero; then, column by column from the left, each node with
/// inputs moves to the mean height of its inputs (not in the first column),
/// and the column, taken by height, is spread downwards so that each node is
/// at least `ROW_H` below the one before.
pub fn layout(nodes: &Vec<GNode>, edges: &Vec<GEdge>, widths: &Vec<i32>) -> (r: (Vec<(i32, i32)>, Vec<Option<(i32, i32)>>))
    requires
        layout_ok(nodes@, edges@, widths@),
    ensures
        laid_out(nodes@, edges@, widths@, r.0@, r.1@),
{
    let n = nodes.len();
    let es = edge_indices(nodes, edges);
    let (rank0, taken) = kahn_ranks(n, &es);
    proof {
        assert forall|v: int| 0 <= v < n implies #[trigger] rank0@[v] >= 0 by {
            crate::draw_dot::rank::lemma_best_nonneg(es@, es@.len() as int, v as usize, rank0@, by_done(es@, taken@));
        }
    }
    let rank = pull_leaves(n, &es, &rank0);
    let cols = rank_columns(&rank);
    let mut has_op: Vec<bool> = Vec::new();
    for v in 0..n
        invariant
            n == nodes@.len(),
            has_op@.len() == v,
            forall|q: int| 0 <= q < v ==> #[trigger] has_op@[q] == nodes@[q].has_op,
    {
        has_op.push(nodes[v].has_op);
    }
    let (cw, cx) = column_geometry(&rank, widths, &cols);
    let (xs, ys0, ops) = first_positions(&rank, widths, &has_op, &cols, &cw, &cx);
    let ghost ys0v = ys0@;
    let mut ys = ys0;
    proof {
        assert forall|v: int| 0 <= v < ys@.len() implies
            crate::draw_dot::settle::y_low() <= #[trigger] ys@[v] <= crate::draw_dot::settle::y_high(0) by {}
    }
    settle(&mut ys, &es, &rank, &cols);
    let mut val: Vec<(i32, i32)> = Vec::new();
    let mut op: Vec<Option<(i32, i32)>> = Vec::new();
    for v in 0..n
        invariant
            n == nodes@.len(),
            xs@.len() == n,
            ys@.len() == n,
            ops@.len() == n,
            val@.len() == v,
            op@.len() == v,
            forall|q: int| 0 <= q < v ==> (#[trigger] val@[q]).0 == xs@[q] && val@[q].1 == ys@[q],
            forall|q: int| 0 <= q < v ==> #[trigger] op@[q] == match ops@[q] {
                Some(ox) => Some((ox, ys@[q])),
                None => None,
            },
    {
        val.push((xs[v], ys[v]));
        op.push(match ops[v] {
            Some(ox) => Some((ox, ys[v])),
            None => None,
        });
    }
    proof {
        let ghost fr = final_ranks(es@, n as int, rank0@);
        assert(rank@ =~= fr);
        let gcw = Seq::new(cols@.len(), |c: int| col_width(fr, widths@, n as int, cols@[c]) as i32);
        assert(cw@ =~= gcw);
        let gcx = Seq::new(cols@.len(), |c: int| col_center(gcw, c) as i32);
        assert(cx@ =~= gcx);
        assert forall|v: int| 0 <= v < n implies #[trigger] ys0v[v] == first_heights(fr, widths@, cols@, gcw, gcx)[v] by {
            assert(xs@[v] == first_pos(rank@, widths@, cols@, cw@, cx@, v).0);
            assert(ys0v[v] == first_pos(rank@, widths@, cols@, cw@, cx@, v).1);
        }
        assert(ys0v =~= first_heights(fr, widths@, cols@, gcw, gcx));
        assert(kahn_result(es@, n as int, rank0@, taken@));
        assert(indexes_edges(nodes@, edges@, es@));
        assert(is_rank_columns(cols@, fr));
        assert(rows_apart(settled(first_heights(fr, widths@, cols@, gcw, gcx), es@, fr, cols@, cols@.len() as int), fr, cols@));
        assert(cols@.len() > 0 && ranks_rise(es@, fr) ==> not_above_inputs(
            settled(first_heights(fr, widths@, cols@, gcw, gcx), es@, fr, cols@, cols@.len() as int), es@, fr, cols@, cols@[0]));
        assert(laid_out_by(nodes@, edges@, widths@, val@, op@, es@, rank0@, taken@, cols@));
    }
    (val, op)

}

/// The width of a drawn character.
pub const CHAR_W: i32 = 7;

/// The padding of each section of a node box, left and right together.
pub const PADDING: i32 = 14;

/// The width of a section for a text of `len` characters: its characters
/// plus the padding, the length taken as an `i32` as the drawing does.
pub open spec fn section_w(len: usize) -> int {
    #[verifier::truncate] (len as i32) * CHAR_W + PADDING
}

/// The width of the label section: none for an empty label, else at least 20.
pub open spec fn label_section_w(len: usize) -> int {
    if len == 0 {
        0
    } else if section_w(len) > 20 {
        section_w(len)
    } else {
        20
    }
}

/// The section of a text of `len` characters can be computed in `i32`.
pub open spec fn section_fits(len: usize) -> bool {
    &&& i32::MIN <= #[verifier::truncate] (len as i32) * CHAR_W
    &&& section_w(len) <= i32::MAX
}

/// Every step of the width of a node box with texts of these lengths is an `i32`.
pub open spec fn node_width_ok(label_len: usize, data_len: usize, grad_len: usize) -> bool {
    &&& label_len > 0 ==> section_fits(label_len)
    &&& section_fits(data_len)
    &&& section_fits(grad_len)
    &&& i32::MIN <= label_section_w(label_len) + section_w(data_len) <= i32::MAX
    &&& i32::MIN <= label_section_w(label_len) + section_w(data_len) + section_w(grad_len) <= i32::MAX
}

/// Whether `node_width` can compute the width of a node box with texts of
/// these lengths without leaving `i32`.
pub fn node_width_fits(label_len: usize, data_len: usize, grad_len: usize) -> (b: bool)
    ensures
        b == node_width_ok(label_len, data_len, grad_len),
{
    let l = #[verifier::truncate] (label_len as i32) as i64 * 7;
    let d = #[verifier::truncate] (data_len as i32) as i64 * 7;
    let g = #[verifier::truncate] (grad_len as i32) as i64 * 7;
    let min = i32::MIN as i64;
    let max = i32::MAX as i64;
    if label_len > 0 && (l < min || l + 14 > max) {
        return false;
    }
    if d < min || d + 14 > max || g < min || g + 14 > max {
        return false;
    }
    let lw: i64 = if label_len == 0 { 0 } else if l + 14 > 20 { l + 14 } else { 20 };
    let first = lw + (d + 14);
    let total = first + (g + 14);
    min <= first && first <= max && min <= total && total <= max
}

/// The width of a node box whose label, data text and gradient text have the
/// given lengths: a section for each text (none for an empty label), each as
/// wide as its characters plus the padding; a label section is at least 20
/// wide. Every step of the sum is an `i32`.
pub fn node_width(label_len: usize, data_len: usize, grad_len: usize) -> (w: i32)
    requires
        node_width_ok(label_len, data_len, grad_len),
    ensures
        w == label_section_w(label_len) + section_w(data_len) + section_w(grad_len),
{
    let data_w = #[verifier::truncate] (data_len as i32) * CHAR_W + PADDING;
    let grad_w = #[verifier::truncate] (grad_len as i32) * CHAR_W + PADDING;
    let label_w = if label_len == 0 {
        0
    } else {
        let l = #[verifier::truncate] (label_len as i32) * CHAR_W + PADDING;
        if l > 20 { l } else { 20 }
    };
    label_w + data_w + grad_w
}

/// Whether some node has id `id`.
fn id_present(nodes: &Vec<GNode>, id: usize) -> (b: bool)
    ensures
        b == has_id(nodes@, id),
{
    for k in 0..nodes.len()
        invariant
            forall|q: int| 0 <= q < k ==> nodes@[q].id != id,
    {
        if nodes[k].id == id {
            return true;
        }
    }
    false
}

/// Whether `layout` accepts these nodes, edges and widths.
pub fn layout_fits(nodes: &Vec<GNode>, edges: &Vec<GEdge>, widths: &Vec<i32>) -> (b: bool)
    ensures
        b == layout_ok(nodes@, edges@, widths@),
{
    if nodes.len() < 1 || nodes.len() > MAX_NODES || widths.len() != nodes.len() {
        return false;
    }
    let n = nodes.len() as i64;
    let cap: i64 = 2_147_483_647i64 / (2 * n) - 110;
    assert(cap == width_cap(nodes@.len() as int));
    for v in 0..widths.len()
        invariant
            cap == width_cap(nodes@.len() as int),
            forall|q: int| 0 <= q < v ==> 0 <= #[trigger] widths@[q] <= width_cap(nodes@.len() as int),
    {
        if widths[v] < 0 || widths[v] as i64 > cap {
            return false;
        }
    }
    for i in 0..nodes.len()
        invariant
            forall|a: int, c: int| 0 <= a < c < nodes@.len() && a < i ==> nodes@[a].id != nodes@[c].id,
    {
        for j in i + 1..nodes.len()
            invariant
                i < nodes@.len(),
                forall|a: int, c: int| 0 <= a < c < nodes@.len() && a < i ==> nodes@[a].id != nodes@[c].id,
                forall|c: int| i < c < j ==> nodes@[i as int].id != nodes@[c].id,
        {
            if nodes[i].id == nodes[j].id {
                return false;
            }
        }
    }
    for i in 0..edges.len()
        invariant
            forall|q: int| 0 <= q < i ==> has_id(nodes@, (#[trigger] edges@[q]).from) && has_id(nodes@, edges@[q].to),
    {
        if !id_present(nodes, edges[i].from) || !id_present(nodes, edges[i].to) {
            return false;
        }
    }
    true
}

/// Two increasing sequences with the same elements are equal.
proof fn lemma_increasing_same_elements(a: Seq<i32>, b: Seq<i32>)
    requires
        forall|i: int, j: int| 0 <= i < j < a.len() ==> a[i] < a[j],
        forall|i: int, j: int| 0 <= i < j < b.len() ==> b[i] < b[j],
        forall|x: i32| a.contains(x) <==> b.contains(x),
    ensures
        a == b,
    decreases a.len(),
{
    if a.len() == 0 {
        if b.len() > 0 {
            assert(b.contains(b[0]));
        }
        assert(a =~= b);
    } else {
        assert(a.contains(a[0]));
        assert(b.len() > 0);
        assert(b.contains(b[0]));
        let j = choose|j: int| 0 <= j < b.len() && b[j] == a[0];
        let i = choose|i: int| 0 <= i < a.len() && a[i] == b[0];
        assert(a[0] == b[0]) by {
            if a[0] != b[0] {
                assert(j > 0 && i > 0);
                assert(b[0] < b[j]);
                assert(a[0] < a[i]);
            }
        }
        let a1 = a.drop_first();
        let b1 = b.drop_first();
        assert forall|x: i32| a1.contains(x) <==> b1.contains(x) by {
            if a1.contains(x) {
                let k = choose|k: int| 0 <= k < a1.len() && a1[k] == x;
                assert(a[k + 1] == x);
                assert(a.contains(x));
                assert(x > a[0]);
                let m = choose|m: int| 0 <= m < b.len() && b[m] == x;
                assert(m != 0);
                assert(b1[m - 1] == x);
            }
            if b1.contains(x) {
                let k = choose|k: int| 0 <= k < b1.len() && b1[k] == x;
                assert(b[k + 1] == x);
                assert(b.contains(x));
                assert(x > b[0]);
                let m = choose|m: int| 0 <= m < a.len() && a[m] == x;
                assert(m != 0);
                assert(a1[m - 1] == x);
            }
        }
        lemma_increasing_same_elements(a1, b1);
        assert(a =~= b) by {
            assert forall|k: int| 0 <= k < a.len() implies a[k] == b[k] by {
                if k > 0 {
                    assert(a[k] == a1[k - 1]);
                    assert(b[k] == b1[k - 1]);
                }
            }
        }
    }
}

/// The layout is a function of the graph: any two results that `laid_out`
/// allows for the same nodes, edges and widths are the same.
pub proof fn lemma_layout_unique(
    nodes: Seq<GNode>,
    edges: Seq<GEdge>,
    widths: Seq<i32>,
    pos1: Seq<(i32, i32)>,
    ops1: Seq<Option<(i32, i32)>>,
    pos2: Seq<(i32, i32)>,
    ops2: Seq<Option<(i32, i32)>>,
)
    requires
        layout_ok(nodes, edges, widths),
        laid_out(nodes, edges, widths, pos1, ops1),
        laid_out(nodes, edges, widths, pos2, ops2),
    ensures
        pos1 == pos2,
        ops1 == ops2,
{
    let n = nodes.len() as int;
    let (es1, r1, t1, c1) = choose|es: Seq<IndexEdge>, rank0: Seq<i32>, taken: Seq<bool>, cols: Seq<i32>|
        laid_out_by(nodes, edges, widths, pos1, ops1, es, rank0, taken, cols);
    let (es2, r2, t2, c2) = choose|es: Seq<IndexEdge>, rank0: Seq<i32>, taken: Seq<bool>, cols: Seq<i32>|
        laid_out_by(nodes, edges, widths, pos2, ops2, es, rank0, taken, cols);
    assert(es1 =~= es2) by {
        assert forall|i: int| 0 <= i < es1.len() implies es1[i] == es2[i] by {
            assert(nodes[es1[i].0 as int].id == nodes[es2[i].0 as int].id);
            assert(nodes[es1[i].1 as int].id == nodes[es2[i].1 as int].id);
        }
    }
    lemma_kahn_unique(es1, n, r1, t1, r2, t2);
    let rank = final_ranks(es1, n, r1);
    lemma_increasing_same_elements(c1, c2);
    assert(pos1 =~= pos2);
    assert(ops1 =~= ops2);
}

/// Each node with an operation has its ellipse on its box's row, left of
/// the box's left edge; a node without one has none.
pub proof fn lemma_ellipse_left_of_box(
    nodes: Seq<GNode>,
    edges: Seq<GEdge>,
    widths: Seq<i32>,
    pos: Seq<(i32, i32)>,
    ops: Seq<Option<(i32, i32)>>,
    v: int,
)
    requires
        layout_ok(nodes, edges, widths),
        laid_out(nodes, edges, widths, pos, ops),
        0 <= v < nodes.len(),
    ensures
        ops[v] is Some <==> nodes[v].has_op,
        ops[v] matches Some(o) ==> o.1 == pos[v].1 && o.0 < pos[v].0 - widths[v] / 2,
{
    let n = nodes.len() as int;
    let (es, rank0, taken, cols) = choose|es: Seq<IndexEdge>, rank0: Seq<i32>, taken: Seq<bool>, cols: Seq<i32>|
        laid_out_by(nodes, edges, widths, pos, ops, es, rank0, taken, cols);
    let rank = final_ranks(es, n, rank0);
    let cw = Seq::new(cols.len(), |c: int| col_width(rank, widths, n, cols[c]) as i32);
    let cx = Seq::new(cols.len(), |c: int| col_center(cw, c) as i32);
    lemma_column_bounds(rank, widths, cols);
    let wb = width_cap(n);
    assert(cols.contains(rank[v]));
    let c = col_index(cols, rank[v]);
    assert(0 <= c < cols.len() && cols[c] == rank[v]);
    assert(cx[c] == col_center(cw, c)) by {
        assert(c * (wb + COL_GAP) + wb <= 2 * (n * (wb + COL_GAP))) by (nonlinear_arith)
            requires c < n, wb >= 0, n >= 1;
    }
    if c > 0 {
        assert(cx[c - 1] == col_center(cw, c - 1)) by {
            assert((c - 1) * (wb + COL_GAP) + wb <= 2 * (n * (wb + COL_GAP))) by (nonlinear_arith)
                requires c < n, wb >= 0, n >= 1;
        }
        assert(col_center(cw, c) == col_center(cw, c - 1) + cw[c - 1] / 2 + COL_GAP + cw[c] / 2);
        assert(op_x(cw, cx, c) == col_left(cw, cx, c) - COL_GAP / 2);
    }
    assert(pos[v].0 == col_left(cw, cx, c) + widths[v] / 2);
}

/// The edges run from lower to higher levels: the graph has no cycle.
pub open spec fn levelled(edges: Seq<GEdge>, level: spec_fn(usize) -> nat) -> bool {
    forall|i: int| 0 <= i < edges.len() ==> level((#[trigger] edges[i]).from) < level(edges[i].to)
}

/// The graph has no cycle: some levelling of the node ids rises along every edge.
pub open spec fn acyclic(edges: Seq<GEdge>) -> bool {
    exists|level: spec_fn(usize) -> nat| levelled(edges, level)
}

/// In a graph without cycles Kahn's algorithm takes every node.
proof fn lemma_all_taken(
    nodes: Seq<GNode>, edges: Seq<GEdge>, es: Seq<IndexEdge>, rank0: Seq<i32>, taken: Seq<bool>,
    level: spec_fn(usize) -> nat, v: int,
)
    requires
        indexes_edges(nodes, edges, es),
        kahn_result(es, nodes.len() as int, rank0, taken),
        levelled(edges, level),
        0 <= v < nodes.len(),
    ensures
        taken[v],
    decreases level(nodes[v].id),
{
    assert forall|i: int| 0 <= i < es.len() && es[i].1 == v implies taken[(#[trigger] es[i]).0 as int] by {
        assert(level(edges[i].from) < level(edges[i].to));
        lemma_all_taken(nodes, edges, es, rank0, taken, level, es[i].0 as int);
    }
}

/// An accepted edge into `v` lifts `v`'s candidate above its source's rank.
proof fn lemma_best_above(es: Seq<IndexEdge>, m: int, v: usize, rank: Seq<i32>, c: spec_fn(int) -> bool, i: int)
    requires
        0 <= i < m <= es.len(),
        es[i].1 == v,
        c(i),
    ensures
        best(es, m, v, rank, c) >= rank[es[i].0 as int] + 1,
    decreases m,
{
    if i < m - 1 {
        lemma_best_above(es, m - 1, v, rank, c, i);
    }
}

/// The leftmost target of the edges out of `u` is no further right than the
/// target of any one of them.
proof fn lemma_min_out_below(es: Seq<IndexEdge>, m: int, u: usize, rank: Seq<i32>, i: int)
    requires
        0 <= i < m <= es.len(),
        es[i].0 == u,
    ensures
        min_out(es, m, u, rank) matches Some(r) && r <= rank[es[i].1 as int],
    decreases m,
{
    if i < m - 1 {
        lemma_min_out_below(es, m - 1, u, rank, i);
    }
}

/// The leftmost target of the edges out of `u`, where there is one, is a rank.
proof fn lemma_min_out_rank(es: Seq<IndexEdge>, m: int, u: usize, rank: Seq<i32>)
    requires
        0 <= m <= es.len(),
        forall|i: int| 0 <= i < es.len() ==> (#[trigger] es[i]).1 < rank.len(),
        forall|v: int| 0 <= v < rank.len() ==> rank[v] >= 0,
    ensures
        min_out(es, m, u, rank) matches Some(r) ==> 0 <= r <= i32::MAX,
    decreases m,
{
    if m > 0 {
        lemma_min_out_rank(es, m - 1, u, rank);
    }
}

/// Every node of rank `r` is no wider than the column of rank `r`.
proof fn lemma_col_width_covers(rank: Seq<i32>, widths: Seq<i32>, k: int, v: int)
    requires
        0 <= v < k <= rank.len(),
        k <= widths.len(),
    ensures
        widths[v] <= col_width(rank, widths, k, rank[v]),
    decreases k,
{
    if v < k - 1 {
        lemma_col_width_covers(rank, widths, k - 1, v);
    }
}

/// A column's left edge lies at least a gap right of every earlier column's right edge.
proof fn lemma_columns_apart(cw: Seq<i32>, c: int, d: int)
    requires
        0 <= c < d < cw.len(),
        forall|i: int| 0 <= i < cw.len() ==> 0 <= #[trigger] cw[i],
    ensures
        col_center(cw, d) - cw[d] / 2 >= col_center(cw, c) + cw[c] / 2 + COL_GAP,
    decreases d,
{
    if c < d - 1 {
        lemma_columns_apart(cw, c, d - 1);
    }
}

/// In a graph without cycles every edge runs from a lower final rank to a higher one.
proof fn lemma_ranks_rise(nodes: Seq<GNode>, edges: Seq<GEdge>, es: Seq<IndexEdge>, rank0: Seq<i32>, taken: Seq<bool>)
    requires
        acyclic(edges),
        indexes_edges(nodes, edges, es),
        kahn_result(es, nodes.len() as int, rank0, taken),
    ensures
        ranks_rise(es, final_ranks(es, nodes.len() as int, rank0)),
{
    let n = nodes.len() as int;
    let level = choose|level: spec_fn(usize) -> nat| levelled(edges, level);
    let rank = final_ranks(es, n, rank0);
    assert forall|v: int| 0 <= v < n implies rank0[v] >= 0 by {
        crate::draw_dot::rank::lemma_best_nonneg(es, es.len() as int, v as usize, rank0, by_done(es, taken));
    }
    assert forall|i: int| 0 <= i < es.len() implies rank[(#[trigger] es[i]).0 as int] < rank[es[i].1 as int] by {
        let a = es[i].0 as int;
        let b = es[i].1 as int;
        lemma_all_taken(nodes, edges, es, rank0, taken, level, a);
        assert(rank0[b] >= rank0[a] + 1) by {
            assert(by_done(es, taken)(i));
            lemma_best_above(es, es.len() as int, b as usize, rank0, by_done(es, taken), i);
        }
        assert(!no_inputs(es, b as usize)) by { assert(es[i].1 == b as usize); }
        assert(rank[b] == rank0[b]);
        if no_inputs(es, a as usize) {
            lemma_min_out_below(es, es.len() as int, a as usize, rank0, i);
            lemma_min_out_rank(es, es.len() as int, a as usize, rank0);
        }
    }
}

/// In a graph without cycles every input lies in a column strictly left of
/// the node it feeds: the input's right edge is left of the node's left edge.
pub proof fn lemma_inputs_left_of_nodes(
    nodes: Seq<GNode>,
    edges: Seq<GEdge>,
    widths: Seq<i32>,
    pos: Seq<(i32, i32)>,
    ops: Seq<Option<(i32, i32)>>,
    a: int,
    b: int,
)
    requires
        layout_ok(nodes, edges, widths),
        acyclic(edges),
        laid_out(nodes, edges, widths, pos, ops),
        0 <= a < nodes.len(),
        0 <= b < nodes.len(),
        exists|i: int| 0 <= i < edges.len() && (#[trigger] edges[i]).from == nodes[a].id && edges[i].to == nodes[b].id,
    ensures
        pos[a].0 + widths[a] / 2 < pos[b].0 - widths[b] / 2,
{
    let n = nodes.len() as int;
    let (es, rank0, taken, cols) = choose|es: Seq<IndexEdge>, rank0: Seq<i32>, taken: Seq<bool>, cols: Seq<i32>|
        laid_out_by(nodes, edges, widths, pos, ops, es, rank0, taken, cols);
    let i = choose|i: int| 0 <= i < edges.len() && (#[trigger] edges[i]).from == nodes[a].id && edges[i].to == nodes[b].id;
    assert(es[i].0 == a && es[i].1 == b) by {
        assert(nodes[es[i].0 as int].id == nodes[a].id);
        assert(nodes[es[i].1 as int].id == nodes[b].id);
    }
    let rank = final_ranks(es, n, rank0);
    lemma_ranks_rise(nodes, edges, es, rank0, taken);
    assert(rank[a] < rank[b]);
    let cw = Seq::new(cols.len(), |c: int| col_width(rank, widths, n, cols[c]) as i32);
    let cx = Seq::new(cols.len(), |c: int| col_center(cw, c) as i32);
    lemma_column_bounds(rank, widths, cols);
    let wb = width_cap(n);
    assert(cols.contains(rank[a]) && cols.contains(rank[b]));
    let ca = col_index(cols, rank[a]);
    let cb = col_index(cols, rank[b]);
    assert(0 <= ca < cols.len() && cols[ca] == rank[a]);
    assert(0 <= cb < cols.len() && cols[cb] == rank[b]);
    assert(ca < cb) by {
        if cb <= ca {
            if cb < ca { assert(cols[cb] < cols[ca]); }
        }
    }
    assert(cx[ca] == col_center(cw, ca) && cx[cb] == col_center(cw, cb)) by {
        assert(ca * (wb + COL_GAP) + wb <= 2 * (n * (wb + COL_GAP))) by (nonlinear_arith)
            requires ca < n, wb >= 0, n >= 1;
        assert(cb * (wb + COL_GAP) + wb <= 2 * (n * (wb + COL_GAP))) by (nonlinear_arith)
            requires cb < n, wb >= 0, n >= 1;
    }
    assert forall|k: int| 0 <= k < cw.len() implies 0 <= #[trigger] cw[k] by {}
    lemma_columns_apart(cw, ca, cb);
    lemma_col_width_covers(rank, widths, n, a);
    assert(widths[a] <= cw[ca]);
    assert(pos[a].0 == col_left(cw, cx, ca) + widths[a] / 2);
    assert(pos[b].0 == col_left(cw, cx, cb) + widths[b] / 2);
}

/// Two distinct boxes in one column (with the same left edge) are at least
/// a row height apart.
pub proof fn lemma_column_rows_apart(
    nodes: Seq<GNode>,
    edges: Seq<GEdge>,
    widths: Seq<i32>,
    pos: Seq<(i32, i32)>,
    ops: Seq<Option<(i32, i32)>>,
    p: int,
    q: int,
)
    requires
        layout_ok(nodes, edges, widths),
        laid_out(nodes, edges, widths, pos, ops),
        0 <= p < nodes.len(),
        0 <= q < nodes.len(),
        p != q,
        pos[p].0 - widths[p] / 2 == pos[q].0 - widths[q] / 2,
    ensures
        pos[p].1 - pos[q].1 >= ROW_H || pos[q].1 - pos[p].1 >= ROW_H,
{
    let n = nodes.len() as int;
    let (es, rank0, taken, cols) = choose|es: Seq<IndexEdge>, rank0: Seq<i32>, taken: Seq<bool>, cols: Seq<i32>|
        laid_out_by(nodes, edges, widths, pos, ops, es, rank0, taken, cols);
    let rank = final_ranks(es, n, rank0);
    let cw = Seq::new(cols.len(), |c: int| col_width(rank, widths, n, cols[c]) as i32);
    let cx = Seq::new(cols.len(), |c: int| col_center(cw, c) as i32);
    let ys = settled(first_heights(rank, widths, cols, cw, cx), es, rank, cols, cols.len() as int);
    lemma_column_bounds(rank, widths, cols);
    let wb = width_cap(n);
    assert(cols.contains(rank[p]) && cols.contains(rank[q]));
    let cp = col_index(cols, rank[p]);
    let cq = col_index(cols, rank[q]);
    assert(0 <= cp < cols.len() && cols[cp] == rank[p]);
    assert(0 <= cq < cols.len() && cols[cq] == rank[q]);
    assert(cx[cp] == col_center(cw, cp) && cx[cq] == col_center(cw, cq)) by {
        assert(cp * (wb + COL_GAP) + wb <= 2 * (n * (wb + COL_GAP))) by (nonlinear_arith)
            requires cp < n, wb >= 0, n >= 1;
        assert(cq * (wb + COL_GAP) + wb <= 2 * (n * (wb + COL_GAP))) by (nonlinear_arith)
            requires cq < n, wb >= 0, n >= 1;
    }
    assert(pos[p].0 == col_left(cw, cx, cp) + widths[p] / 2);
    assert(pos[q].0 == col_left(cw, cx, cq) + widths[q] / 2);
    assert forall|k: int| 0 <= k < cw.len() implies 0 <= #[trigger] cw[k] by {}
    assert(cp == cq) by {
        if cp < cq {
            lemma_columns_apart(cw, cp, cq);
        } else if cq < cp {
            lemma_columns_apart(cw, cq, cp);
        }
    }
    assert(rank[p] == rank[q]);
    crate::draw_dot::settle::lemma_settled_len(first_heights(rank, widths, cols, cw, cx), es, rank, cols, cols.len() as int);
    assert(ys.len() == n);
    assert(pos[p].1 == ys[p] && pos[q].1 == ys[q]);
    assert(ys[p] - ys[q] >= ROW_H || ys[q] - ys[p] >= ROW_H);
}

/// The position of the node with id `id`.
pub open spec fn node_index(nodes: Seq<GNode>, id: usize) -> int {
    choose|k: int| 0 <= k < nodes.len() && nodes[k].id == id
}

/// The number of the first `m` edges into the node with id `id`.
pub open spec fn input_count(edges: Seq<GEdge>, m: int, id: usize) -> nat
    decreases m,
{
    if m <= 0 { 0 } else { input_count(edges, m - 1, id) + if edges[m - 1].to == id { 1nat } else { 0nat } }
}

/// The sum of the heights in `pos` of the sources of the first `m` edges into
/// the node with id `id`.
pub open spec fn input_sum(nodes: Seq<GNode>, edges: Seq<GEdge>, pos: Seq<(i32, i32)>, m: int, id: usize) -> int
    decreases m,
{
    if m <= 0 {
        0
    } else {
        input_sum(nodes, edges, pos, m - 1, id)
            + if edges[m - 1].to == id { pos[node_index(nodes, edges[m - 1].from)].1 as int } else { 0 }
    }
}

proof fn lemma_inputs_by_index(
    nodes: Seq<GNode>, edges: Seq<GEdge>, es: Seq<IndexEdge>, pos: Seq<(i32, i32)>, ys: Seq<i32>, m: int, v: int,
)
    requires
        ids_distinct(nodes),
        nodes.len() <= usize::MAX,
        indexes_edges(nodes, edges, es),
        0 <= m <= es.len(),
        0 <= v < nodes.len(),
        pos.len() == nodes.len(),
        forall|k: int| 0 <= k < nodes.len() ==> #[trigger] ys[k] == pos[k].1,
    ensures
        in_count(es, m, v as usize) == input_count(edges, m, nodes[v].id),
        in_sum(es, m, v as usize, ys) == input_sum(nodes, edges, pos, m, nodes[v].id),
    decreases m,
{
    if m > 0 {
        lemma_inputs_by_index(nodes, edges, es, pos, ys, m - 1, v);
        let i = m - 1;
        assert(es[i].0 < nodes.len() && es[i].1 < nodes.len());
        assert((es[i].1 == v as usize) == (edges[i].to == nodes[v].id)) by {
            if edges[i].to == nodes[v].id && es[i].1 != v as usize {
                let t = es[i].1 as int;
                assert(nodes[t].id == nodes[v].id);
                if t < v { assert(nodes[t].id != nodes[v].id); } else { assert(nodes[v].id != nodes[t].id); }
            }
        }
        let k = node_index(nodes, edges[i].from);
        assert(0 <= k < nodes.len() && nodes[k].id == edges[i].from) by {
            assert(nodes[es[i].0 as int].id == edges[i].from);
        }
        assert(k == es[i].0 as int) by {
            if k != es[i].0 as int {
                if k < es[i].0 as int {
                    assert(nodes[k].id != nodes[es[i].0 as int].id);
                } else {
                    assert(nodes[es[i].0 as int].id != nodes[k].id);
                }
            }
        }
    }
}

/// In a graph without cycles, a node outside the first column that has
/// inputs is never above the mean height of its inputs (rounded towards
/// zero): it is placed at that mean, and spreading its column only moves
/// nodes down.
pub proof fn lemma_node_not_above_inputs(
    nodes: Seq<GNode>,
    edges: Seq<GEdge>,
    widths: Seq<i32>,
    pos: Seq<(i32, i32)>,
    ops: Seq<Option<(i32, i32)>>,
    v: int,
)
    requires
        layout_ok(nodes, edges, widths),
        acyclic(edges),
        laid_out(nodes, edges, widths, pos, ops),
        0 <= v < nodes.len(),
        pos[v].0 - widths[v] / 2 > 0,
        input_count(edges, edges.len() as int, nodes[v].id) > 0,
    ensures
        pos[v].1 >= tdiv(input_sum(nodes, edges, pos, edges.len() as int, nodes[v].id),
            input_count(edges, edges.len() as int, nodes[v].id) as int),
{
    let n = nodes.len() as int;
    let (es, rank0, taken, cols) = choose|es: Seq<IndexEdge>, rank0: Seq<i32>, taken: Seq<bool>, cols: Seq<i32>|
        laid_out_by(nodes, edges, widths, pos, ops, es, rank0, taken, cols);
    let rank = final_ranks(es, n, rank0);
    let cw = Seq::new(cols.len(), |c: int| col_width(rank, widths, n, cols[c]) as i32);
    let cx = Seq::new(cols.len(), |c: int| col_center(cw, c) as i32);
    let ys = settled(first_heights(rank, widths, cols, cw, cx), es, rank, cols, cols.len() as int);
    lemma_ranks_rise(nodes, edges, es, rank0, taken);
    lemma_column_bounds(rank, widths, cols);
    let wb = width_cap(n);
    assert(cols.contains(rank[v]));
    let c = col_index(cols, rank[v]);
    assert(0 <= c < cols.len() && cols[c] == rank[v]);
    assert(cx[c] == col_center(cw, c)) by {
        assert(c * (wb + COL_GAP) + wb <= 2 * (n * (wb + COL_GAP))) by (nonlinear_arith)
            requires c < n, wb >= 0, n >= 1;
    }
    assert(pos[v].0 == col_left(cw, cx, c) + widths[v] / 2);
    assert(c != 0);
    assert(rank[v] != cols[0]) by { assert(cols[0] < cols[c]); }
    crate::draw_dot::settle::lemma_settled_len(first_heights(rank, widths, cols, cw, cx), es, rank, cols, cols.len() as int);
    assert(not_above_inputs(ys, es, rank, cols, cols[0]));
    assert forall|k: int| 0 <= k < nodes.len() implies #[trigger] ys[k] == pos[k].1 by {}
    lemma_inputs_by_index(nodes, edges, es, pos, ys, es.len() as int, v);
    assert(ys[v] >= tdiv(in_sum(es, es.len() as int, v as usize, ys), in_count(es, es.len() as int, v as usize) as int));
}

} // verus!
