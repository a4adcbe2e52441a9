//! Which buffers the planned work writes: every operation that adds nodes
//! writes only buffers it was handed out itself.

use vstd::prelude::*;
use crate::gpu::gpu::{BufferId, Cmd, Fill, lemma_nth_handle_exact, next_handle, nth_handle};
use crate::engine::tensor::{NodeView, Op, prod};
use crate::engine::pool::{Pool, Tensor, handles_below, node_below, releases};
use crate::engine::pool_ops::{
    adds_node, binary_cmds, create_uninit, dropout_result, kernel_cmds, matmul_result, unary_cmds, written,
};
use crate::engine::results::{
    bias_add_result, binary_result, div_result, leaf_result, sub_row_max_result, sum_result, unary_result,
};
use crate::primitives::activation::{Activation, activation_result, relu_result, softmax_result};

verus! {

/// Every buffer that the commands `cs` write has a handle of at least `lo`.
pub open spec fn writes_from(cs: Seq<Cmd>, lo: usize) -> bool {
    forall|j: int, k: int| 0 <= j < cs.len() && 0 <= k < written(cs[j]).len()
        ==> (#[trigger] written(cs[j])[k]).0 >= lo
}

/// Going from `old` to `new`, the planner's counter only moved on and the
/// planned work grew by commands that write only buffers handed out after
/// `old`.
pub open spec fn fresh_step(old: &Pool, new: &Pool) -> bool {
    &&& old.gpu.next_id() <= new.gpu.next_id()
    &&& exists|cs: Seq<Cmd>| new.gpu.pending() == old.gpu.pending() + cs && #[trigger] writes_from(cs, old.gpu.next_id())
}

/// Commands that write from `lo` up also write from any lower bound, and
/// joined together they still do.
pub proof fn lemma_writes_join(a: Seq<Cmd>, b: Seq<Cmd>, lo: usize, mid: usize)
    requires
        writes_from(a, lo),
        writes_from(b, mid),
        lo <= mid,
    ensures
        writes_from(a + b, lo),
{
    let c = a + b;
    assert forall|j: int, k: int| 0 <= j < c.len() && 0 <= k < written(c[j]).len()
        implies (#[trigger] written(c[j])[k]).0 >= lo by {
        if j < a.len() {
            assert(c[j] == a[j]);
            assert(written(a[j])[k].0 >= lo);
        } else {
            assert(c[j] == b[j - a.len()]);
            assert(written(b[j - a.len()])[k].0 >= mid);
        }
    }
}

/// A pool moves on to itself.
pub proof fn lemma_fresh_refl(p: &Pool)
    ensures
        fresh_step(p, p),
{
    let cs = Seq::<Cmd>::empty();
    assert(p.gpu.pending() + cs =~= p.gpu.pending());
    assert(writes_from(cs, p.gpu.next_id()));
}

/// Two steps that each write only fresh buffers make one.
pub proof fn lemma_fresh_trans(a: &Pool, b: &Pool, c: &Pool)
    requires
        fresh_step(a, b),
        fresh_step(b, c),
    ensures
        fresh_step(a, c),
{
    let c1 = choose|cs: Seq<Cmd>| b.gpu.pending() == a.gpu.pending() + cs && #[trigger] writes_from(cs, a.gpu.next_id());
    let c2 = choose|cs: Seq<Cmd>| c.gpu.pending() == b.gpu.pending() + cs && #[trigger] writes_from(cs, b.gpu.next_id());
    lemma_writes_join(c1, c2, a.gpu.next_id(), b.gpu.next_id());
    assert(c.gpu.pending() =~= a.gpu.pending() + (c1 + c2));
}

/// The work of an elementwise or kernel node writes only its output buffer.
pub proof fn lemma_node_cmds_from(lo: usize)
    ensures
        forall|a: BufferId, len: usize, kind: u32| #[trigger] writes_from(unary_cmds(a, BufferId(lo), len, kind), lo),
        forall|a: BufferId, b: BufferId, len: usize, kind: u32|
            #[trigger] writes_from(binary_cmds(a, b, BufferId(lo), len, kind), lo),
        forall|k: crate::gpu::gpu::Kernel, ins: Seq<BufferId>, len: usize, ps: crate::gpu::gpu::Params, gs: crate::gpu::gpu::Groups|
            #[trigger] writes_from(kernel_cmds(k, ins, BufferId(lo), len, ps, gs), lo),
{
}

/// A node added with work that writes only from the next handle up is a
/// fresh step.
pub proof fn lemma_adds_node_fresh(
    old: &Pool,
    new: &Pool,
    t: Tensor,
    shape: Seq<usize>,
    parents: Seq<usize>,
    op: Op,
    work: Seq<Cmd>,
)
    requires
        adds_node(old, new, t, shape, parents, op, work),
        writes_from(work, old.gpu.next_id()),
    ensures
        fresh_step(old, new),
{
    let d = old.gpu.next_id();
    let g = next_handle(d);
    let tail = seq![create_uninit(BufferId(g), prod(shape))];
    assert(writes_from(tail, g));
    lemma_writes_join(work, tail, d, g);
    assert(new.gpu.pending() =~= old.gpu.pending() + (work + tail));
}

/// Adding a leaf is a fresh step.
pub proof fn lemma_leaf_fresh(old: &Pool, new: &Pool, t: Tensor, shape: Seq<usize>, fill: Fill)
    requires
        leaf_result(old, new, t, shape, fill),
    ensures
        fresh_step(old, new),
{
    let d = old.gpu.next_id();
    let cs = seq![
        Cmd::Create { buffer: BufferId(d), len: prod(shape) as usize, fill },
        Cmd::Create { buffer: BufferId(next_handle(d)), len: prod(shape) as usize, fill: Fill::Uninit },
    ];
    assert(writes_from(cs, d)) by {
        assert forall|j: int, k: int| 0 <= j < cs.len() && 0 <= k < written(cs[j]).len()
            implies (#[trigger] written(cs[j])[k]).0 >= d by {
            if j == 1 {
                assert(written(cs[1]) == seq![BufferId(next_handle(d))]);
            } else {
                assert(written(cs[0]) == seq![BufferId(d)]);
            }
        }
    }
}

/// The elementwise and kernel operations are fresh steps.
pub proof fn lemma_ops_fresh(old: &Pool, new: &Pool, t: Tensor, a: Tensor, b: Tensor, op: Op)
    ensures
        unary_result(old, new, t, a, op) ==> fresh_step(old, new),
        binary_result(old, new, t, a, b, op) ==> fresh_step(old, new),
        bias_add_result(old, new, t, a, b) ==> fresh_step(old, new),
        sum_result(old, new, t, a) ==> fresh_step(old, new),
        div_result(old, new, t, a, b) ==> fresh_step(old, new),
        sub_row_max_result(old, new, t, a) ==> fresh_step(old, new),
{
    lemma_node_cmds_from(old.gpu.next_id());
    let d = old.gpu.next_id();
    if unary_result(old, new, t, a, op) {
        lemma_adds_node_fresh(old, new, t, old.node(a).shape, seq![a.0], op,
            unary_cmds(old.node(a).data, BufferId(d), old.node(a).len, crate::engine::pool_ops::unary_kind(op)));
    }
    if binary_result(old, new, t, a, b, op) {
        lemma_adds_node_fresh(old, new, t, old.node(a).shape, seq![a.0, b.0], op,
            binary_cmds(old.node(a).data, old.node(b).data, BufferId(d), old.node(a).len,
                crate::engine::pool_ops::binary_kind(op)));
    }
    let rows = old.node(a).shape[0];
    let cols = old.node(a).shape[1];
    if bias_add_result(old, new, t, a, b) {
        lemma_adds_node_fresh(old, new, t, seq![rows, cols], seq![a.0, b.0], Op::BiasAdd,
            kernel_cmds(crate::gpu::gpu::Kernel::BiasAdd, seq![old.node(a).data, old.node(b).data],
                BufferId(d), (rows * cols) as usize,
                crate::gpu::gpu::Params(rows as u32, cols as u32, 0, 0),
                crate::engine::pool::groups_of((rows * cols) as usize)));
    }
    if sum_result(old, new, t, a) {
        lemma_adds_node_fresh(old, new, t, seq![rows], seq![a.0], Op::Sum,
            kernel_cmds(crate::gpu::gpu::Kernel::Sum, seq![old.node(a).data, old.node(a).data],
                BufferId(d), rows, crate::gpu::gpu::Params(rows as u32, cols as u32, 0, 0),
                crate::engine::pool::groups_of(rows)));
    }
    if div_result(old, new, t, a, b) {
        lemma_adds_node_fresh(old, new, t, old.node(a).shape, seq![a.0, b.0], Op::Div,
            kernel_cmds(crate::gpu::gpu::Kernel::Div, seq![old.node(a).data, old.node(b).data],
                BufferId(d), (rows * cols) as usize,
                crate::gpu::gpu::Params(rows as u32, cols as u32, 0, 0),
                crate::engine::pool::groups_of((rows * cols) as usize)));
    }
    if sub_row_max_result(old, new, t, a) {
        lemma_adds_node_fresh(old, new, t, old.node(a).shape, seq![a.0], Op::SubRowMax,
            kernel_cmds(crate::gpu::gpu::Kernel::SubRowMax, seq![old.node(a).data, old.node(a).data],
                BufferId(d), (rows * cols) as usize,
                crate::gpu::gpu::Params(rows as u32, cols as u32, 0, 0),
                crate::engine::pool::groups_of(rows)));
    }
}

/// Commands that write from `hi` up write from any lower bound.
pub proof fn lemma_writes_lower(cs: Seq<Cmd>, lo: usize, hi: usize)
    requires
        writes_from(cs, hi),
        lo <= hi,
    ensures
        writes_from(cs, lo),
{
    assert forall|j: int, k: int| 0 <= j < cs.len() && 0 <= k < written(cs[j]).len()
        implies (#[trigger] written(cs[j])[k]).0 >= lo by {
        assert(written(cs[j])[k].0 >= hi);
    }
}

/// The product of two tensors, with the reshapes it may add, is a fresh step.
pub proof fn lemma_matmul_fresh(old: &Pool, new: &Pool, t: Tensor, a: Tensor, b: Tensor)
    requires
        matmul_result(old, new, t, a, b),
    ensures
        fresh_step(old, new),
{
    let n0 = old.gpu.next_id();
    let sa = old.node(a).shape;
    let sb = old.node(b).shape;
    let ka: nat = if sa.len() == 1 { 1 } else { 0 };
    let kb: nat = if sb.len() == 1 { 1 } else { 0 };
    let hb = nth_handle(n0, 2 * ka);
    let hm = nth_handle(n0, 2 * ka + 2 * kb);
    let m = crate::engine::pool_ops::row_shape(sa)[0];
    let k = crate::engine::pool_ops::row_shape(sa)[1];
    let n = crate::engine::pool_ops::col_shape(sb)[1];
    let a_data = if ka == 1 { BufferId(n0) } else { old.node(a).data };
    let b_data = if kb == 1 { BufferId(hb) } else { old.node(b).data };
    lemma_nth_handle_exact(n0, 2 * ka);
    lemma_nth_handle_exact(n0, 2 * ka + 2 * kb);
    lemma_node_cmds_from(n0);
    lemma_node_cmds_from(hb);
    lemma_node_cmds_from(hm);
    let ra = if ka == 1 {
        unary_cmds(old.node(a).data, BufferId(n0), old.node(a).len, 9)
            + seq![create_uninit(BufferId(next_handle(n0)), prod(crate::engine::pool_ops::row_shape(sa)))]
    } else {
        Seq::empty()
    };
    let rb = if kb == 1 {
        unary_cmds(old.node(b).data, BufferId(hb), old.node(b).len, 9)
            + seq![create_uninit(BufferId(next_handle(hb)), prod(crate::engine::pool_ops::col_shape(sb)))]
    } else {
        Seq::empty()
    };
    let kc = kernel_cmds(crate::gpu::gpu::Kernel::Matmul, seq![a_data, b_data], BufferId(hm), (m * n) as usize,
        crate::gpu::gpu::Params(m as u32, k as u32, n as u32, 0), crate::engine::pool_ops::tile_groups(m, n));
    let tl = seq![create_uninit(BufferId(next_handle(hm)), prod(seq![m, n]))];
    assert(writes_from(ra, n0)) by {
        if ka == 1 {
            let ua = unary_cmds(old.node(a).data, BufferId(n0), old.node(a).len, 9);
            let ta = seq![create_uninit(BufferId(next_handle(n0)), prod(crate::engine::pool_ops::row_shape(sa)))];
            assert(writes_from(ta, next_handle(n0)));
            lemma_writes_join(ua, ta, n0, next_handle(n0));
        } else {
            assert(writes_from(ra, n0));
        }
    }
    assert(writes_from(rb, n0)) by {
        if kb == 1 {
            let ub = unary_cmds(old.node(b).data, BufferId(hb), old.node(b).len, 9);
            let tb = seq![create_uninit(BufferId(next_handle(hb)), prod(crate::engine::pool_ops::col_shape(sb)))];
            assert(writes_from(tb, next_handle(hb)));
            lemma_writes_join(ub, tb, hb, next_handle(hb));
            lemma_writes_lower(rb, n0, hb);
        }
    }
    assert(writes_from(tl, next_handle(hm)));
    lemma_writes_join(kc, tl, hm, next_handle(hm));
    lemma_writes_lower(kc + tl, n0, hm);
    lemma_writes_join(rb, kc + tl, n0, n0);
    lemma_writes_join(ra, rb + (kc + tl), n0, n0);
    let cs = ra + (rb + (kc + tl));
    assert(new.gpu.pending() =~= old.gpu.pending() + cs);
}

/// Dropout is a fresh step.
pub proof fn lemma_dropout_fresh(old: &Pool, new: &Pool, t: Tensor, a: Tensor, rate_bits: u32, seed: u32)
    requires
        dropout_result(old, new, t, a, rate_bits, seed),
    ensures
        fresh_step(old, new),
{
    let n0 = old.gpu.next_id();
    let an = old.node(a);
    let out = BufferId(n0);
    let mask = BufferId(nth_handle(n0, 1));
    let grad = BufferId(nth_handle(n0, 2));
    lemma_nth_handle_exact(n0, 1);
    lemma_nth_handle_exact(n0, 2);
    lemma_nth_handle_exact(n0, 3);
    let cs = seq![
        Cmd::Create { buffer: out, len: an.len, fill: Fill::Uninit },
        Cmd::Create { buffer: mask, len: an.len, fill: Fill::Uninit },
        Cmd::Dispatch {
            kernel: crate::gpu::gpu::Kernel::Dropout,
            inputs: seq![an.data],
            outputs: seq![out, mask],
            params: crate::gpu::gpu::Params(an.len as u32, rate_bits, seed, 0),
            groups: crate::engine::pool::groups_of(an.len),
        },
        create_uninit(grad, prod(an.shape)),
    ];
    assert(writes_from(cs, n0)) by {
        assert forall|j: int, k: int| 0 <= j < cs.len() && 0 <= k < written(cs[j]).len()
            implies (#[trigger] written(cs[j])[k]).0 >= n0 by {
            if j == 0 {
                assert(written(cs[0]) == seq![out]);
            } else if j == 1 {
                assert(written(cs[1]) == seq![mask]);
            } else if j == 2 {
                assert(written(cs[2]) == seq![out, mask]);
            } else {
                assert(written(cs[3]) == seq![grad]);
            }
        }
    }
    assert(new.gpu.pending() =~= old.gpu.pending() + cs);
}

/// Every activation is a fresh step.
pub proof fn lemma_activation_fresh(act: Activation, old: &Pool, new: &Pool, t: Tensor, a: Tensor)
    requires
        activation_result(act, old, new, t, a),
    ensures
        fresh_step(old, new),
{
    match act {
        Activation::Tanh => {
            lemma_ops_fresh(old, new, t, a, a, Op::Tanh);
        },
        Activation::Relu => {
            let z = Tensor(old.nodes@.len() as usize);
            let mid = choose|mid: Pool|
                #[trigger] leaf_result(old, &mid, z, old.node(a).shape, Fill::Repeat(0))
                && binary_result(&mid, new, t, a, z, Op::Max);
            lemma_leaf_fresh(old, &mid, z, old.node(a).shape, Fill::Repeat(0));
            lemma_ops_fresh(&mid, new, t, a, z, Op::Max);
            lemma_fresh_trans(old, &mid, new);
        },
        Activation::Softmax => {
            let l = old.nodes@.len();
            let shifted = Tensor(l as usize);
            let exps = Tensor((l + 1) as usize);
            let sums = Tensor((l + 2) as usize);
            let (p1, p2, p3) = choose|p1: Pool, p2: Pool, p3: Pool|
                #[trigger] sub_row_max_result(old, &p1, shifted, a)
                && #[trigger] unary_result(&p1, &p2, exps, shifted, Op::Exp)
                && #[trigger] sum_result(&p2, &p3, sums, exps)
                && div_result(&p3, new, t, exps, sums);
            lemma_ops_fresh(old, &p1, shifted, a, a, Op::SubRowMax);
            lemma_ops_fresh(&p1, &p2, exps, shifted, shifted, Op::Exp);
            lemma_ops_fresh(&p2, &p3, sums, exps, exps, Op::Sum);
            lemma_ops_fresh(&p3, new, t, exps, sums, Op::Div);
            lemma_fresh_trans(old, &p1, &p2);
            lemma_fresh_trans(old, &p2, &p3);
            lemma_fresh_trans(old, &p3, new);
        },
        Activation::NoActivation => {
            lemma_fresh_refl(old);
        },
    }
}

/// Giving buffers back writes none.
pub proof fn lemma_releases_write_nothing(nodes: Seq<NodeView>, lo: usize)
    ensures
        writes_from(releases(nodes), lo),
    decreases nodes.len(),
{
    if nodes.len() > 0 {
        let n = nodes[0];
        let head = seq![Cmd::Release { buffer: n.data }, Cmd::Release { buffer: n.grad }];
        let saved = n.saved.map_values(|b: BufferId| Cmd::Release { buffer: b });
        lemma_releases_write_nothing(nodes.drop_first(), lo);
        assert(writes_from(head, lo)) by {
            assert forall|j: int, k: int| 0 <= j < head.len() && 0 <= k < written(head[j]).len()
                implies (#[trigger] written(head[j])[k]).0 >= lo by {
                assert(written(head[j]).len() == 0);
            }
        }
        assert(writes_from(saved, lo)) by {
            assert forall|j: int, k: int| 0 <= j < saved.len() && 0 <= k < written(saved[j]).len()
                implies (#[trigger] written(saved[j])[k]).0 >= lo by {
                assert(saved[j] == Cmd::Release { buffer: n.saved[j] });
                assert(written(saved[j]).len() == 0);
            }
        }
        lemma_writes_join(head, saved, lo, lo);
        lemma_writes_join(head + saved, releases(nodes.drop_first()), lo, lo);
    }
}

/// The commands `cs` write none of the data, gradient or saved buffers of
/// `nodes`, nor the constant buffer `one`.
pub open spec fn spares(cs: Seq<Cmd>, nodes: Seq<NodeView>, one: BufferId) -> bool {
    &&& forall|j: int, k: int, q: int|
        #![trigger written(cs[j])[k], nodes[q]]
        0 <= j < cs.len() && 0 <= k < written(cs[j]).len() && 0 <= q < nodes.len()
        ==> written(cs[j])[k] != nodes[q].data
            && written(cs[j])[k] != nodes[q].grad
            && !nodes[q].saved.contains(written(cs[j])[k])
    &&& forall|j: int, k: int| 0 <= j < cs.len() && 0 <= k < written(cs[j]).len()
        ==> #[trigger] written(cs[j])[k] != one
}

/// When the constant buffer and every buffer of `nodes` lie below `lo`,
/// commands that write from `lo` up write none of them.
pub proof fn lemma_fresh_misses(cs: Seq<Cmd>, lo: usize, nodes: Seq<NodeView>, one: BufferId)
    requires
        writes_from(cs, lo),
        lo < usize::MAX,
        handles_below(nodes, one, lo),
    ensures
        spares(cs, nodes, one),
{
    assert forall|j: int, k: int, q: int|
        #![trigger written(cs[j])[k], nodes[q]]
        0 <= j < cs.len() && 0 <= k < written(cs[j]).len() && 0 <= q < nodes.len()
        implies written(cs[j])[k] != nodes[q].data
            && written(cs[j])[k] != nodes[q].grad
            && !nodes[q].saved.contains(written(cs[j])[k]) by {
        let w = written(cs[j])[k];
        assert(w.0 >= lo);
        assert(node_below(nodes[q], lo));
        if nodes[q].saved.contains(w) {
            let s = choose|s: int| 0 <= s < nodes[q].saved.len() && nodes[q].saved[s] == w;
            assert(nodes[q].saved[s].0 < lo);
        }
    }
}

} // verus!
