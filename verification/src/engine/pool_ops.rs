use vstd::prelude::*;
use crate::gpu::gpu::{BufferId, Cmd, Fill, Groups, Kernel, Params, lemma_nth_handle_exact, next_handle, nth_handle};
use crate::engine::tensor::{
    NodeView, Op, TensorNode, arity, leaf_view, prod, product, segments_fit, strides_of,
};
use crate::engine::pool::{
    Pool, Tensor, div_ceil, groups_of, groups_ok, handles_below, node_below, node_wf, op_shapes_ok, op_view,
};
use crate::engine::tensor::{lemma_pair, lemma_single};
use crate::rng::random_u32;

verus! {

/// Creating an output buffer of `len` floats and running the elementwise
/// kernel `kind` on buffer `a` into it.
pub open spec fn unary_cmds(a: BufferId, out: BufferId, len: usize, kind: u32) -> Seq<Cmd> {
    seq![
        Cmd::Create { buffer: out, len, fill: Fill::Uninit },
        Cmd::Dispatch {
            kernel: Kernel::Unary,
            inputs: seq![a, a],
            outputs: seq![out],
            params: Params(len as u32, kind, 0, 0),
            groups: groups_of(len),
        },
    ]
}

/// Creating an output buffer of `len` floats and running the binary kernel
/// `kind` on buffers `a` and `b` into it.
pub open spec fn binary_cmds(a: BufferId, b: BufferId, out: BufferId, len: usize, kind: u32) -> Seq<Cmd> {
    seq![
        Cmd::Create { buffer: out, len, fill: Fill::Uninit },
        Cmd::Dispatch {
            kernel: Kernel::Binary,
            inputs: seq![a, b],
            outputs: seq![out],
            params: Params(len as u32, kind, 0, 0),
            groups: groups_of(len),
        },
    ]
}

/// Creating an output buffer of `len` floats and running `kernel` from `inputs` into it.
pub open spec fn kernel_cmds(
    kernel: Kernel,
    inputs: Seq<BufferId>,
    out: BufferId,
    len: usize,
    params: Params,
    groups: Groups,
) -> Seq<Cmd> {
    seq![
        Cmd::Create { buffer: out, len, fill: Fill::Uninit },
        Cmd::Dispatch { kernel, inputs, outputs: seq![out], params, groups },
    ]
}

/// The buffers a command writes: the one it creates, the outputs of a
/// dispatch, the destination of a copy, the one it clears.
pub open spec fn written(c: Cmd) -> Seq<BufferId> {
    match c {
        Cmd::Create { buffer, .. } => seq![buffer],
        Cmd::Dispatch { outputs, .. } => outputs,
        Cmd::Copy { destination, .. } => seq![destination],
        Cmd::Clear { buffer } => seq![buffer],
        Cmd::Release { .. } => Seq::empty(),
    }
}

/// The workgroups of the tiled matrix product: tiles of 16 by 16.
pub open spec fn tile_groups(m: usize, n: usize) -> Groups {
    Groups(div_ceil(m as nat, 16) as u32, div_ceil(n as nat, 16) as u32, 1)
}

/// Dropout may only be applied at a rate that is a finite float in `[0, 1)`:
/// `+0.0` up to the float just below `1.0`, or `-0.0`.
pub open spec fn dropout_rate_ok(bits: u32) -> bool {
    bits < 0x3F80_0000u32 || bits == 0x8000_0000u32
}

/// A vector operand of a matrix product on the left is a single row.
pub open spec fn row_shape(s: Seq<usize>) -> Seq<usize> {
    if s.len() == 1 { seq![1usize, s[0]] } else { s }
}

/// A vector operand of a matrix product on the right is a single column.
pub open spec fn col_shape(s: Seq<usize>) -> Seq<usize> {
    if s.len() == 1 { seq![s[0], 1usize] } else { s }
}

/// What `matmul(a, b)` does to the pool: reshape a vector `a` into a row and a
/// vector `b` into a column (each a node of its own), then add their product.
pub open spec fn matmul_result(old: &Pool, new: &Pool, t: Tensor, a: Tensor, b: Tensor) -> bool {
    let n0 = old.gpu.next_id();
    let sa = old.node(a).shape;
    let sb = old.node(b).shape;
    let ka: nat = if sa.len() == 1 { 1 } else { 0 };
    let kb: nat = if sb.len() == 1 { 1 } else { 0 };
    let len0 = old.nodes@.len();
    let ia: usize = if ka == 1 { len0 as usize } else { a.0 };
    let ib: usize = if kb == 1 { (len0 + ka) as usize } else { b.0 };
    let hb = nth_handle(n0, 2 * ka);
    let hm = nth_handle(n0, 2 * ka + 2 * kb);
    let m = row_shape(sa)[0];
    let k = row_shape(sa)[1];
    let n = col_shape(sb)[1];
    let a_data = if ka == 1 { BufferId(n0) } else { old.node(a).data };
    let b_data = if kb == 1 { BufferId(hb) } else { old.node(b).data };
    &&& new.wf()
    &&& new.extends(old, ka + kb + 1)
    &&& t.0 == len0 + ka + kb
    &&& ka == 1 ==> new.nodes@[len0 as int]@ == op_view(
        BufferId(n0), BufferId(next_handle(n0)), row_shape(sa), seq![a.0], Op::Reshape)
    &&& kb == 1 ==> new.nodes@[(len0 + ka) as int]@ == op_view(
        BufferId(hb), BufferId(next_handle(hb)), col_shape(sb), seq![b.0], Op::Reshape)
    &&& new.node(t) == op_view(BufferId(hm), BufferId(next_handle(hm)), seq![m, n], seq![ia, ib], Op::MatMul)
    &&& new.gpu.next_id() == next_handle(next_handle(hm))
    &&& new.gpu.pending() == old.gpu.pending()
        + (if ka == 1 {
            unary_cmds(old.node(a).data, BufferId(n0), old.node(a).len, 9)
                + seq![create_uninit(BufferId(next_handle(n0)), prod(row_shape(sa)))]
        } else {
            Seq::empty()
        })
        + (if kb == 1 {
            unary_cmds(old.node(b).data, BufferId(hb), old.node(b).len, 9)
                + seq![create_uninit(BufferId(next_handle(hb)), prod(col_shape(sb)))]
        } else {
            Seq::empty()
        })
        + kernel_cmds(Kernel::Matmul, seq![a_data, b_data], BufferId(hm), (m * n) as usize,
            Params(m as u32, k as u32, n as u32, 0), tile_groups(m, n))
        + seq![create_uninit(BufferId(next_handle(hm)), prod(seq![m, n]))]
}

/// What `mean(a)` does to the pool. A vector is summed into a scratch buffer
/// and divided by its length (both scratch buffers are given back); a matrix
/// is averaged row by row.
pub open spec fn mean_result(old: &Pool, new: &Pool, t: Tensor, a: Tensor) -> bool {
    let an = old.node(a);
    let n0 = old.gpu.next_id();
    if an.shape.len() == 1 {
        let sum = BufferId(n0);
        let divisor = BufferId(nth_handle(n0, 1));
        let data = BufferId(nth_handle(n0, 2));
        let grad = BufferId(nth_handle(n0, 3));
        &&& new.wf()
        &&& new.extends(old, 1)
        &&& t.0 == old.nodes@.len()
        &&& new.node(t) == op_view(data, grad, seq![1usize], seq![a.0], Op::Mean)
        &&& new.gpu.next_id() == nth_handle(n0, 4)
        &&& new.gpu.pending() == old.gpu.pending() + seq![
            Cmd::Create { buffer: sum, len: 1, fill: Fill::Uninit },
            Cmd::Dispatch {
                kernel: Kernel::Sum,
                inputs: seq![an.data, an.data],
                outputs: seq![sum],
                params: Params(1, an.len as u32, 0, 0),
                groups: Groups(1, 1, 1),
            },
            Cmd::Create { buffer: divisor, len: 1, fill: Fill::Count(an.len) },
            Cmd::Create { buffer: data, len: 1, fill: Fill::Uninit },
            Cmd::Dispatch {
                kernel: Kernel::Div,
                inputs: seq![sum, divisor],
                outputs: seq![data],
                params: Params(1, 1, 0, 0),
                groups: Groups(1, 1, 1),
            },
            Cmd::Create { buffer: grad, len: 1, fill: Fill::Uninit },
            Cmd::Release { buffer: divisor },
            Cmd::Release { buffer: sum },
        ]
    } else {
        let rows = an.shape[0];
        let cols = an.shape[1];
        adds_node(old, new, t, seq![rows], seq![a.0], Op::Mean,
            kernel_cmds(Kernel::RowMean, seq![an.data, an.data], BufferId(n0), rows,
                Params(rows as u32, cols as u32, 0, 0), groups_of(rows)))
    }
}

/// What dropout with the given rate and seed does to the pool: a new node
/// whose data is `a` with elements dropped, keeping the mask it drew.
pub open spec fn dropout_result(old: &Pool, new: &Pool, t: Tensor, a: Tensor, rate_bits: u32, seed: u32) -> bool {
    let an = old.node(a);
    let n0 = old.gpu.next_id();
    let out = BufferId(n0);
    let mask = BufferId(nth_handle(n0, 1));
    let grad = BufferId(nth_handle(n0, 2));
    &&& new.wf()
    &&& new.extends(old, 1)
    &&& t.0 == old.nodes@.len()
    &&& new.node(t) == (NodeView { saved: seq![mask], ..op_view(out, grad, an.shape, seq![a.0], Op::Dropout) })
    &&& new.gpu.next_id() == nth_handle(n0, 3)
    &&& new.gpu.pending() == old.gpu.pending() + seq![
        Cmd::Create { buffer: out, len: an.len, fill: Fill::Uninit },
        Cmd::Create { buffer: mask, len: an.len, fill: Fill::Uninit },
        Cmd::Dispatch {
            kernel: Kernel::Dropout,
            inputs: seq![an.data],
            outputs: seq![out, mask],
            params: Params(an.len as u32, rate_bits, seed, 0),
            groups: groups_of(an.len),
        },
        create_uninit(grad, prod(an.shape)),
    ]
}

/// The workgroup computations of the gradient step of node `i` do not overflow.
pub open spec fn backward_groups_ok(v: Seq<NodeView>, i: int) -> bool {
    let cur = v[i];
    let a = v[cur.parents[0] as int];
    match cur.op {
        Op::MatMul => true,
        Op::BiasAdd => groups_ok(cur.len) && groups_ok(cur.shape[1]),
        Op::Gather | Op::Log | Op::Sq | Op::Mean | Op::Sum => groups_ok(a.len),
        Op::Div | Op::SubRowMax => groups_ok(a.len) && groups_ok(a.shape[0]),
        _ => groups_ok(cur.len),
    }
}

/// The device work of the gradient step of node `i`, when the next free handle
/// is `n0`: the commands, the buffers holding the gradient contribution for
/// each parent (in the order of the parents), and the number of handles used.
pub open spec fn backward_plan(v: Seq<NodeView>, i: int, n0: usize) -> (Seq<Cmd>, Seq<BufferId>, nat) {
    let cur = v[i];
    let a = v[cur.parents[0] as int];
    let b = v[cur.parents[1] as int];
    let h0 = BufferId(n0);
    let h1 = BufferId(nth_handle(n0, 1));
    match cur.op {
        Op::MatMul => {
            let m = a.shape[0];
            let k = a.shape[1];
            let n = b.shape[1];
            (seq![
                Cmd::Create { buffer: h0, len: a.len, fill: Fill::Uninit },
                Cmd::Dispatch {
                    kernel: Kernel::Matmul,
                    inputs: seq![cur.grad, b.data],
                    outputs: seq![h0],
                    params: Params(m as u32, n as u32, k as u32, 2),
                    groups: tile_groups(m, k),
                },
                Cmd::Create { buffer: h1, len: b.len, fill: Fill::Uninit },
                Cmd::Dispatch {
                    kernel: Kernel::Matmul,
                    inputs: seq![a.data, cur.grad],
                    outputs: seq![h1],
                    params: Params(k as u32, m as u32, n as u32, 1),
                    groups: tile_groups(k, n),
                },
            ], seq![h0, h1], 2)
        },
        Op::BiasAdd => (
            unary_cmds(cur.grad, h0, cur.len, 9) + seq![
                Cmd::Create { buffer: h1, len: b.len, fill: Fill::Uninit },
                Cmd::Dispatch {
                    kernel: Kernel::BiasAddBackward,
                    inputs: seq![cur.grad, cur.grad],
                    outputs: seq![h1],
                    params: Params(cur.shape[0] as u32, cur.shape[1] as u32, 0, 0),
                    groups: groups_of(cur.shape[1]),
                },
            ],
            seq![h0, h1],
            2,
        ),
        Op::Gather => (
            kernel_cmds(Kernel::GatherBackward, seq![cur.grad, b.data], h0, a.len,
                Params(a.shape[0] as u32, a.shape[1] as u32, 0, 0), groups_of(a.len))
                + seq![Cmd::Create { buffer: h1, len: b.len, fill: Fill::Uninit }],
            seq![h0, h1],
            2,
        ),
        Op::Log => (
            kernel_cmds(Kernel::Unary, seq![a.data, cur.grad], h0, a.len,
                Params(a.len as u32, 6, 0, 0), groups_of(a.len)),
            seq![h0],
            1,
        ),
        Op::Mean => (
            if a.shape.len() == 1 {
                kernel_cmds(Kernel::MeanBackward, seq![cur.grad, cur.grad], h0, a.len,
                    Params(a.len as u32, 0, 0, 0), groups_of(a.len))
            } else {
                kernel_cmds(Kernel::RowMeanBackward, seq![cur.grad, cur.grad], h0, a.len,
                    Params(a.shape[0] as u32, a.shape[1] as u32, 0, 0), groups_of(a.len))
            },
            seq![h0],
            1,
        ),
        Op::Neg => (unary_cmds(cur.grad, h0, cur.len, 7), seq![h0], 1),
        Op::Sq => (
            kernel_cmds(Kernel::Unary, seq![a.data, cur.grad], h0, a.len,
                Params(a.len as u32, 13, 0, 0), groups_of(a.len)),
            seq![h0],
            1,
        ),
        Op::Exp | Op::Tanh => (
            kernel_cmds(Kernel::Unary, seq![cur.data, cur.grad], h0, cur.len,
                Params(cur.len as u32, if cur.op == Op::Exp { 5u32 } else { 8u32 }, 0, 0), groups_of(cur.len)),
            seq![h0],
            1,
        ),
        Op::Max | Op::Mul => {
            let k0: u32 = if cur.op == Op::Max { 5 } else { 3 };
            let k1: u32 = if cur.op == Op::Max { 6 } else { 4 };
            (seq![
                Cmd::Create { buffer: h0, len: cur.len, fill: Fill::Uninit },
                Cmd::Create { buffer: h1, len: cur.len, fill: Fill::Uninit },
                Cmd::Copy { source: cur.grad, destination: h0, len: cur.len },
                Cmd::Copy { source: cur.grad, destination: h1, len: cur.len },
                Cmd::Dispatch {
                    kernel: Kernel::Binary,
                    inputs: seq![a.data, b.data],
                    outputs: seq![h0],
                    params: Params(cur.len as u32, k0, 0, 0),
                    groups: groups_of(cur.len),
                },
                Cmd::Dispatch {
                    kernel: Kernel::Binary,
                    inputs: seq![a.data, b.data],
                    outputs: seq![h1],
                    params: Params(cur.len as u32, k1, 0, 0),
                    groups: groups_of(cur.len),
                },
            ], seq![h0, h1], 2)
        },
        Op::Sum => (
            kernel_cmds(Kernel::SumBackward, seq![cur.grad, cur.grad], h0, a.len,
                Params(a.shape[0] as u32, a.shape[1] as u32, 0, 0), groups_of(a.len)),
            seq![h0],
            1,
        ),
        Op::Div => (
            kernel_cmds(Kernel::DivBackwardA, seq![b.data, cur.grad], h0, a.len,
                Params(a.shape[0] as u32, a.shape[1] as u32, 0, 0), groups_of(a.len)) + seq![
                Cmd::Create { buffer: h1, len: a.len, fill: Fill::Uninit },
                Cmd::Copy { source: cur.grad, destination: h1, len: cur.len },
                Cmd::Dispatch {
                    kernel: Kernel::DivBackwardB,
                    inputs: seq![a.data, b.data],
                    outputs: seq![h1],
                    params: Params(a.shape[0] as u32, a.shape[1] as u32, 0, 0),
                    groups: groups_of(a.shape[0]),
                },
            ],
            seq![h0, h1],
            2,
        ),
        Op::SubRowMax => (
            kernel_cmds(Kernel::SubRowMaxBackward, seq![a.data, cur.grad], h0, a.len,
                Params(a.shape[0] as u32, a.shape[1] as u32, 0, 0), groups_of(a.shape[0])),
            seq![h0],
            1,
        ),
        Op::MatAdd => (
            unary_cmds(cur.grad, h0, cur.len, 9) + unary_cmds(cur.grad, h1, cur.len, 9),
            seq![h0, h1],
            2,
        ),
        Op::Sub => (
            unary_cmds(cur.grad, h0, cur.len, 9) + unary_cmds(cur.grad, h1, cur.len, 3),
            seq![h0, h1],
            2,
        ),
        Op::Reshape => (unary_cmds(cur.grad, h0, cur.len, 9), seq![h0], 1),
        Op::Dropout => (binary_cmds(cur.saved[0], cur.grad, h0, cur.len, 1), seq![h0], 1),
        Op::Leaf => (Seq::empty(), Seq::empty(), 0),
    }
}

/// The state of backpropagation: the nodes, the next free handle, and the
/// device work issued so far.
pub struct BackState {
    pub views: Seq<NodeView>,
    pub next: usize,
    pub cmds: Seq<Cmd>,
}

/// Adds the gradient contributions `contribs[slot..]` of node `i` into its
/// parents' gradient buffers: each sum goes into a fresh buffer that replaces
/// the parent's gradient buffer; the old gradient buffer and the contribution
/// are given back.
pub open spec fn accumulate(s: BackState, i: int, contribs: Seq<BufferId>, slot: int) -> BackState
    decreases contribs.len() - slot,
{
    if slot < 0 || slot >= contribs.len() {
        s
    } else {
        let p = s.views[i].parents[slot] as int;
        let pv = s.views[p];
        let acc = BufferId(s.next);
        let s1 = BackState {
            views: regrad(s.views, p, acc),
            next: next_handle(s.next),
            cmds: s.cmds + binary_cmds(pv.grad, contribs[slot], acc, pv.len, 0) + seq![
                Cmd::Release { buffer: pv.grad },
                Cmd::Release { buffer: contribs[slot] },
            ],
        };
        accumulate(s1, i, contribs, slot + 1)
    }
}

/// The gradient step of node `i`: nothing for a leaf; otherwise its gradient
/// contributions are computed and added into its parents.
pub open spec fn back_step(s: BackState, i: int) -> BackState {
    if s.views[i].parents.len() == 0 {
        s
    } else {
        let plan = backward_plan(s.views, i, s.next);
        let s1 = BackState { views: s.views, next: nth_handle(s.next, plan.2), cmds: s.cmds + plan.0 };
        accumulate(s1, i, plan.1, 0)
    }
}

/// The gradient steps of nodes `i`, `i - 1`, ..., `0`, in that order.
pub open spec fn back_from(s: BackState, i: int) -> BackState
    decreases i + 1,
{
    if i < 0 {
        s
    } else {
        back_from(back_step(s, i), i - 1)
    }
}

/// The gradient buffers of nodes `0..=root` are cleared, the root's gradient
/// is set to one, and the gradient steps run from the root down.
pub open spec fn backprop_result(v: Seq<NodeView>, root: int, one: BufferId, n0: usize) -> BackState {
    let clears = Seq::new((root + 1) as nat, |j: int| Cmd::Clear { buffer: v[j].grad });
    let seed = Cmd::Dispatch {
        kernel: Kernel::Unary,
        inputs: seq![one, one],
        outputs: seq![v[root].grad],
        params: Params(v[root].len as u32, 10, 0, 0),
        groups: groups_of(v[root].len),
    };
    back_from(BackState { views: v, next: n0, cmds: clears.push(seed) }, root)
}

/// Every node up to `root` can take part in backpropagation: the workgroup
/// computations over its length and of its gradient step do not overflow.
pub open spec fn backprop_ok(v: Seq<NodeView>, root: int) -> bool {
    forall|j: int| 0 <= j <= root ==> groups_ok(#[trigger] v[j].len) && (v[j].op != Op::Leaf ==> backward_groups_ok(v, j))
}

/// `a` and `b` hold the same nodes but for their gradient buffers.
pub open spec fn only_grads_differ(a: Seq<NodeView>, b: Seq<NodeView>) -> bool {
    &&& a.len() == b.len()
    &&& forall|j: int| 0 <= j < a.len() ==> {
        &&& (#[trigger] a[j]).data == b[j].data
        &&& a[j].shape == b[j].shape
        &&& a[j].strides == b[j].strides
        &&& a[j].len == b[j].len
        &&& a[j].parents == b[j].parents
        &&& a[j].op == b[j].op
        &&& a[j].saved == b[j].saved
    }
}

/// `v` with the gradient buffer of node `p` replaced by `g`.
pub open spec fn regrad(v: Seq<NodeView>, p: int, g: BufferId) -> Seq<NodeView> {
    v.update(p, NodeView { grad: g, ..v[p] })
}

/// Replacing the gradient buffer of a node leaves the graph well formed.
pub proof fn lemma_regrad(v: Seq<NodeView>, p: int, g: BufferId)
    requires
        0 <= p < v.len(),
    ensures
        forall|j: int| 0 <= j < v.len() && node_wf(v, j) ==> #[trigger] node_wf(regrad(v, p, g), j),
        forall|j: int| 0 <= j < v.len() && node_wf(v, j) && backward_groups_ok(v, j) ==> #[trigger] backward_groups_ok(regrad(v, p, g), j),
        forall|j: int| 0 <= j < v.len() ==> (#[trigger] regrad(v, p, g)[j]).len == v[j].len
            && regrad(v, p, g)[j].op == v[j].op
            && regrad(v, p, g)[j].parents == v[j].parents
            && regrad(v, p, g)[j].shape == v[j].shape
            && regrad(v, p, g)[j].data == v[j].data
            && regrad(v, p, g)[j].strides == v[j].strides
            && regrad(v, p, g)[j].saved == v[j].saved,
{
    let w = regrad(v, p, g);
    assert(w == v.update(p, NodeView { grad: g, ..v[p] }));
    assert forall|j: int| 0 <= j < v.len() && node_wf(v, j) implies #[trigger] node_wf(w, j) by {
        if v[j].parents.len() > 0 {
            assert(w[v[j].parents[0] as int].shape == v[v[j].parents[0] as int].shape);
        }
        if v[j].parents.len() > 1 {
            assert(w[v[j].parents[1] as int].shape == v[v[j].parents[1] as int].shape);
        }
    }
    assert forall|j: int| 0 <= j < v.len() && node_wf(v, j) && backward_groups_ok(v, j) implies #[trigger] backward_groups_ok(w, j) by {
        if v[j].parents.len() > 0 {
            assert(w[v[j].parents[0] as int].shape == v[v[j].parents[0] as int].shape);
            assert(w[v[j].parents[0] as int].len == v[v[j].parents[0] as int].len);
        }
    }
}

/// Creating an uninitialised buffer: the gradient buffer of a new node.
pub open spec fn create_uninit(b: BufferId, len: nat) -> Cmd {
    Cmd::Create { buffer: b, len: len as usize, fill: Fill::Uninit }
}

/// `new` is `old` with one more node, `t`, over `shape` computed by `op` from
/// `parents`: its data buffer is the first fresh handle, written by `work`, and
/// its gradient buffer the second.
pub open spec fn adds_node(
    old: &Pool,
    new: &Pool,
    t: Tensor,
    shape: Seq<usize>,
    parents: Seq<usize>,
    op: Op,
    work: Seq<Cmd>,
) -> bool {
    let d = old.gpu.next_id();
    let g = next_handle(d);
    &&& new.wf()
    &&& new.extends(old, 1)
    &&& t.0 == old.nodes@.len()
    &&& new.node(t) == op_view(BufferId(d), BufferId(g), shape, parents, op)
    &&& new.gpu.next_id() == next_handle(g)
    &&& new.gpu.pending() == old.gpu.pending() + work + seq![create_uninit(BufferId(g), prod(shape))]
}

/// The elementwise operations and the kernel code of each.
pub open spec fn unary_kind(op: Op) -> u32 {
    match op {
        Op::Tanh => 0,
        Op::Exp => 1,
        Op::Log => 2,
        Op::Neg => 3,
        Op::Sq => 12,
        _ => 9,
    }
}

/// The binary elementwise operations and the kernel code of each.
pub open spec fn binary_kind(op: Op) -> u32 {
    match op {
        Op::MatAdd => 0,
        Op::Mul => 1,
        Op::Max => 2,
        _ => 7,
    }
}

impl Pool {
    /// Runs the elementwise kernel `kind` over `len` floats of `a` into a new buffer.
    pub fn unary_buffer(&mut self, a: BufferId, len: usize, kind: u32) -> (out: BufferId)
        requires
            groups_ok(len),
        ensures
            old(self).wf() ==> final(self).wf(),
            out == BufferId(old(self).gpu.next_id()),
            final(self).nodes == old(self).nodes,
            final(self).param_end == old(self).param_end,
            final(self).gpu.one == old(self).gpu.one,
            final(self).gpu.next_id() == next_handle(old(self).gpu.next_id()),
            final(self).gpu.pending() == old(self).gpu.pending() + unary_cmds(a, out, len, kind),
    {
        let out = self.gpu.empty_buffer(len);
        let groups = Self::groups_1d(len);
        let mut inputs: Vec<BufferId> = Vec::new();
        inputs.push(a);
        inputs.push(a);
        let mut outputs: Vec<BufferId> = Vec::new();
        outputs.push(out);
        assert(inputs@ =~= seq![a, a]);
        assert(outputs@ =~= seq![out]);
        self.gpu.dispatch(Kernel::Unary, inputs, outputs, Params(len as u32, kind, 0, 0), groups);
        assert(self.gpu.pending() =~= old(self).gpu.pending() + unary_cmds(a, out, len, kind));
        proof {
            if old(self).wf() {
                self.lemma_wf_grows(old(self));
            }
        }
        out
    }

    /// Runs the binary kernel `kind` over `len` floats of `a` and `b` into a new buffer.
    pub fn binary_buffer(&mut self, a: BufferId, b: BufferId, len: usize, kind: u32) -> (out: BufferId)
        requires
            groups_ok(len),
        ensures
            old(self).wf() ==> final(self).wf(),
            out == BufferId(old(self).gpu.next_id()),
            final(self).nodes == old(self).nodes,
            final(self).param_end == old(self).param_end,
            final(self).gpu.one == old(self).gpu.one,
            final(self).gpu.next_id() == next_handle(old(self).gpu.next_id()),
            final(self).gpu.pending() == old(self).gpu.pending() + binary_cmds(a, b, out, len, kind),
    {
        let out = self.gpu.empty_buffer(len);
        let groups = Self::groups_1d(len);
        let mut inputs: Vec<BufferId> = Vec::new();
        inputs.push(a);
        inputs.push(b);
        let mut outputs: Vec<BufferId> = Vec::new();
        outputs.push(out);
        assert(inputs@ =~= seq![a, b]);
        assert(outputs@ =~= seq![out]);
        self.gpu.dispatch(Kernel::Binary, inputs, outputs, Params(len as u32, kind, 0, 0), groups);
        assert(self.gpu.pending() =~= old(self).gpu.pending() + binary_cmds(a, b, out, len, kind));
        proof {
            if old(self).wf() {
                self.lemma_wf_grows(old(self));
            }
        }
        out
    }

    /// Adds the node whose data buffer is `data`, with a fresh gradient buffer.
    fn finish_node(&mut self, data: BufferId, shape: Vec<usize>, parents: Vec<usize>, op: Op) -> (t: Tensor)
        requires
            old(self).wf(),
            next_handle(old(self).gpu.next_id()) < usize::MAX ==> data.0 < old(self).gpu.next_id(),
            segments_fit(shape@),
            node_wf(
                old(self).views().push(op_view(data, BufferId(old(self).gpu.next_id()), shape@, parents@, op)),
                old(self).nodes@.len() as int,
            ),
        ensures
            final(self).wf(),
            final(self).extends(old(self), 1),
            t.0 == old(self).nodes@.len(),
            final(self).node(t) == op_view(data, BufferId(old(self).gpu.next_id()), shape@, parents@, op),
            final(self).gpu.next_id() == next_handle(old(self).gpu.next_id()),
            final(self).gpu.pending() == old(self).gpu.pending().push(
                create_uninit(BufferId(old(self).gpu.next_id()), prod(shape@)),
            ),
    {
        let ghost s = shape@;
        let node = self.node_from_buffer(data, shape);
        assert(self.views() == old(self).views());
        assert(NodeView { parents: parents@, op, ..node@ } == op_view(data, BufferId(old(self).gpu.next_id()), s, parents@, op));
        self.push_node(node, parents, op)
    }

    /// A new node computing the elementwise `op` of `a`.
    fn unary_op(&mut self, a: Tensor, kind: u32, op: Op) -> (t: Tensor)
        requires
            old(self).wf(),
            old(self).has(a),
            groups_ok(old(self).node(a).len),
            op == Op::Log || op == Op::Neg || op == Op::Exp || op == Op::Tanh || op == Op::Sq,
            kind == unary_kind(op),
        ensures
            adds_node(
                old(self),
                final(self),
                t,
                old(self).node(a).shape,
                seq![a.0],
                op,
                unary_cmds(old(self).node(a).data, BufferId(old(self).gpu.next_id()), old(self).node(a).len, kind),
            ),
    {
        proof { assert(node_wf(self.views(), a.0 as int)); }
        let shape = self.nodes[a.0].shape.clone();
        assert(shape@ =~= self.node(a).shape);
        let a_data = self.nodes[a.0].data;
        let a_len = self.nodes[a.0].len;
        let data = self.unary_buffer(a_data, a_len, kind);
        assert(self.views() == old(self).views());
        let mut parents: Vec<usize> = Vec::new();
        parents.push(a.0);
        proof {
            let nv = op_view(data, BufferId(self.gpu.next_id()), shape@, parents@, op);
            assert(parents@ =~= seq![a.0]);
            assert(node_wf(self.views().push(nv), self.nodes@.len() as int));
        }
        let t = self.finish_node(data, shape, parents, op);
        proof {
            assert(parents@ =~= seq![a.0]);
            assert(self.gpu.pending() =~= old(self).gpu.pending()
                + unary_cmds(old(self).node(a).data, BufferId(old(self).gpu.next_id()), old(self).node(a).len, kind)
                + seq![create_uninit(BufferId(next_handle(old(self).gpu.next_id())), prod(old(self).node(a).shape))]);
        }
        t
    }

    /// A new node computing the elementwise `op` of `a` and `b`, which have the same shape.
    fn binary_op(&mut self, a: Tensor, b: Tensor, kind: u32, op: Op) -> (t: Tensor)
        requires
            old(self).wf(),
            old(self).has(a),
            old(self).has(b),
            old(self).node(a).shape == old(self).node(b).shape,
            groups_ok(old(self).node(a).len),
            op == Op::Mul || op == Op::Max || op == Op::MatAdd || op == Op::Sub,
            kind == binary_kind(op),
        ensures
            adds_node(
                old(self),
                final(self),
                t,
                old(self).node(a).shape,
                seq![a.0, b.0],
                op,
                binary_cmds(
                    old(self).node(a).data,
                    old(self).node(b).data,
                    BufferId(old(self).gpu.next_id()),
                    old(self).node(a).len,
                    kind,
                ),
            ),
    {
        proof { assert(node_wf(self.views(), a.0 as int)); }
        let shape = self.nodes[a.0].shape.clone();
        assert(shape@ =~= self.node(a).shape);
        let a_data = self.nodes[a.0].data;
        let b_data = self.nodes[b.0].data;
        let a_len = self.nodes[a.0].len;
        let data = self.binary_buffer(a_data, b_data, a_len, kind);
        assert(self.views() == old(self).views());
        let mut parents: Vec<usize> = Vec::new();
        parents.push(a.0);
        parents.push(b.0);
        proof {
            let nv = op_view(data, BufferId(self.gpu.next_id()), shape@, parents@, op);
            assert(parents@ =~= seq![a.0, b.0]);
            assert(node_wf(self.views().push(nv), self.nodes@.len() as int));
        }
        let t = self.finish_node(data, shape, parents, op);
        proof {
            assert(parents@ =~= seq![a.0, b.0]);
            assert(self.gpu.pending() =~= old(self).gpu.pending()
                + binary_cmds(old(self).node(a).data, old(self).node(b).data,
                    BufferId(old(self).gpu.next_id()), old(self).node(a).len, kind)
                + seq![create_uninit(BufferId(next_handle(old(self).gpu.next_id())), prod(old(self).node(a).shape))]);
        }
        t
    }

    /// The elementwise natural logarithm of `a`.
    pub fn log(&mut self, a: Tensor) -> (t: Tensor)
        requires old(self).wf(), old(self).has(a), groups_ok(old(self).node(a).len),
        ensures
            adds_node(old(self), final(self), t, old(self).node(a).shape, seq![a.0], Op::Log,
                unary_cmds(old(self).node(a).data, BufferId(old(self).gpu.next_id()), old(self).node(a).len, 2)),
    {
        self.unary_op(a, 2, Op::Log)
    }

    /// The elementwise negation of `a`.
    pub fn neg(&mut self, a: Tensor) -> (t: Tensor)
        requires old(self).wf(), old(self).has(a), groups_ok(old(self).node(a).len),
        ensures
            adds_node(old(self), final(self), t, old(self).node(a).shape, seq![a.0], Op::Neg,
                unary_cmds(old(self).node(a).data, BufferId(old(self).gpu.next_id()), old(self).node(a).len, 3)),
    {
        self.unary_op(a, 3, Op::Neg)
    }

    /// The elementwise exponential of `a`.
    pub fn exp(&mut self, a: Tensor) -> (t: Tensor)
        requires old(self).wf(), old(self).has(a), groups_ok(old(self).node(a).len),
        ensures
            adds_node(old(self), final(self), t, old(self).node(a).shape, seq![a.0], Op::Exp,
                unary_cmds(old(self).node(a).data, BufferId(old(self).gpu.next_id()), old(self).node(a).len, 1)),
    {
        self.unary_op(a, 1, Op::Exp)
    }

    /// The elementwise hyperbolic tangent of `a`.
    pub fn tanh(&mut self, a: Tensor) -> (t: Tensor)
        requires old(self).wf(), old(self).has(a), groups_ok(old(self).node(a).len),
        ensures
            adds_node(old(self), final(self), t, old(self).node(a).shape, seq![a.0], Op::Tanh,
                unary_cmds(old(self).node(a).data, BufferId(old(self).gpu.next_id()), old(self).node(a).len, 0)),
    {
        self.unary_op(a, 0, Op::Tanh)
    }

    /// The elementwise square of `a`.
    pub fn sq(&mut self, a: Tensor) -> (t: Tensor)
        requires old(self).wf(), old(self).has(a), groups_ok(old(self).node(a).len),
        ensures
            adds_node(old(self), final(self), t, old(self).node(a).shape, seq![a.0], Op::Sq,
                unary_cmds(old(self).node(a).data, BufferId(old(self).gpu.next_id()), old(self).node(a).len, 12)),
    {
        self.unary_op(a, 12, Op::Sq)
    }

    /// The elementwise product of `a` and `b`.
    pub fn mul(&mut self, a: Tensor, b: Tensor) -> (t: Tensor)
        requires
            old(self).wf(), old(self).has(a), old(self).has(b),
            old(self).node(a).shape == old(self).node(b).shape,
            groups_ok(old(self).node(a).len),
        ensures
            adds_node(old(self), final(self), t, old(self).node(a).shape, seq![a.0, b.0], Op::Mul,
                binary_cmds(old(self).node(a).data, old(self).node(b).data,
                    BufferId(old(self).gpu.next_id()), old(self).node(a).len, 1)),
    {
        self.binary_op(a, b, 1, Op::Mul)
    }

    /// The elementwise maximum of `a` and `b`.
    pub fn max(&mut self, a: Tensor, b: Tensor) -> (t: Tensor)
        requires
            old(self).wf(), old(self).has(a), old(self).has(b),
            old(self).node(a).shape == old(self).node(b).shape,
            groups_ok(old(self).node(a).len),
        ensures
            adds_node(old(self), final(self), t, old(self).node(a).shape, seq![a.0, b.0], Op::Max,
                binary_cmds(old(self).node(a).data, old(self).node(b).data,
                    BufferId(old(self).gpu.next_id()), old(self).node(a).len, 2)),
    {
        self.binary_op(a, b, 2, Op::Max)
    }

    /// The elementwise sum of `a` and `b`.
    pub fn matadd(&mut self, a: Tensor, b: Tensor) -> (t: Tensor)
        requires
            old(self).wf(), old(self).has(a), old(self).has(b),
            old(self).node(a).shape == old(self).node(b).shape,
            groups_ok(old(self).node(a).len),
        ensures
            adds_node(old(self), final(self), t, old(self).node(a).shape, seq![a.0, b.0], Op::MatAdd,
                binary_cmds(old(self).node(a).data, old(self).node(b).data,
                    BufferId(old(self).gpu.next_id()), old(self).node(a).len, 0)),
    {
        self.binary_op(a, b, 0, Op::MatAdd)
    }

    /// The elementwise difference `a - b`.
    pub fn sub(&mut self, a: Tensor, b: Tensor) -> (t: Tensor)
        requires
            old(self).wf(), old(self).has(a), old(self).has(b),
            old(self).node(a).shape == old(self).node(b).shape,
            groups_ok(old(self).node(a).len),
        ensures
            adds_node(old(self), final(self), t, old(self).node(a).shape, seq![a.0, b.0], Op::Sub,
                binary_cmds(old(self).node(a).data, old(self).node(b).data,
                    BufferId(old(self).gpu.next_id()), old(self).node(a).len, 7)),
    {
        self.binary_op(a, b, 7, Op::Sub)
    }

    /// The elements of `a` viewed with another shape holding as many elements.
    pub fn reshape(&mut self, a: Tensor, shape: Vec<usize>) -> (t: Tensor)
        requires
            old(self).wf(),
            old(self).has(a),
            segments_fit(shape@),
            prod(shape@) == old(self).node(a).len,
            groups_ok(old(self).node(a).len),
        ensures
            adds_node(old(self), final(self), t, shape@, seq![a.0], Op::Reshape,
                unary_cmds(old(self).node(a).data, BufferId(old(self).gpu.next_id()), old(self).node(a).len, 9)),
    {
        let a_data = self.nodes[a.0].data;
        let a_len = self.nodes[a.0].len;
        let data = self.unary_buffer(a_data, a_len, 9);
        assert(self.views() == old(self).views());
        let mut parents: Vec<usize> = Vec::new();
        parents.push(a.0);
        proof {
            let nv = op_view(data, BufferId(self.gpu.next_id()), shape@, parents@, Op::Reshape);
            assert(parents@ =~= seq![a.0]);
            assert(node_wf(self.views().push(nv), self.nodes@.len() as int));
        }
        let ghost s = shape@;
        let t = self.finish_node(data, shape, parents, Op::Reshape);
        proof {
            assert(parents@ =~= seq![a.0]);
            assert(self.gpu.pending() =~= old(self).gpu.pending()
                + unary_cmds(old(self).node(a).data, BufferId(old(self).gpu.next_id()), old(self).node(a).len, 9)
                + seq![create_uninit(BufferId(next_handle(old(self).gpu.next_id())), prod(s))]);
        }
        t
    }

    /// A new node whose data buffer `kernel` fills from `inputs`.
    fn kernel_node(
        &mut self,
        kernel: Kernel,
        inputs: Vec<BufferId>,
        params: Params,
        groups: Groups,
        out_len: usize,
        shape: Vec<usize>,
        parents: Vec<usize>,
        op: Op,
    ) -> (t: Tensor)
        requires
            old(self).wf(),
            segments_fit(shape@),
            node_wf(
                old(self).views().push(op_view(
                    BufferId(old(self).gpu.next_id()),
                    BufferId(next_handle(old(self).gpu.next_id())),
                    shape@,
                    parents@,
                    op,
                )),
                old(self).nodes@.len() as int,
            ),
        ensures
            adds_node(old(self), final(self), t, shape@, parents@, op,
                kernel_cmds(kernel, inputs@, BufferId(old(self).gpu.next_id()), out_len, params, groups)),
    {
        let ghost s = shape@;
        let ghost ins = inputs@;
        let data = self.gpu.empty_buffer(out_len);
        let mut outputs: Vec<BufferId> = Vec::new();
        outputs.push(data);
        assert(outputs@ =~= seq![data]);
        self.gpu.dispatch(kernel, inputs, outputs, params, groups);
        assert(self.views() == old(self).views());
        proof { self.lemma_wf_grows(old(self)); }
        let t = self.finish_node(data, shape, parents, op);
        assert(self.gpu.pending() =~= old(self).gpu.pending()
            + kernel_cmds(kernel, ins, BufferId(old(self).gpu.next_id()), out_len, params, groups)
            + seq![create_uninit(BufferId(next_handle(old(self).gpu.next_id())), prod(s))]);
        t
    }

    /// The matrix product of two matrices whose inner dimensions agree.
    fn matmul_2d(&mut self, a: Tensor, b: Tensor) -> (t: Tensor)
        requires
            old(self).wf(),
            old(self).has(a),
            old(self).has(b),
            old(self).node(a).shape.len() >= 2,
            old(self).node(b).shape.len() >= 2,
            old(self).node(a).shape[1] == old(self).node(b).shape[0],
            (old(self).node(a).shape[0] as nat) * (old(self).node(b).shape[1] as nat) <= usize::MAX,
        ensures
            ({
                let m = old(self).node(a).shape[0];
                let k = old(self).node(a).shape[1];
                let n = old(self).node(b).shape[1];
                adds_node(old(self), final(self), t, seq![m, n], seq![a.0, b.0], Op::MatMul,
                    kernel_cmds(Kernel::Matmul, seq![old(self).node(a).data, old(self).node(b).data],
                        BufferId(old(self).gpu.next_id()), (m * n) as usize,
                        Params(m as u32, k as u32, n as u32, 0), tile_groups(m, n)))
            }),
    {
        let m = self.nodes[a.0].shape[0];
        let k = self.nodes[a.0].shape[1];
        let n = self.nodes[b.0].shape[1];
        let mut inputs: Vec<BufferId> = Vec::new();
        inputs.push(self.nodes[a.0].data);
        inputs.push(self.nodes[b.0].data);
        let mut shape: Vec<usize> = Vec::new();
        shape.push(m);
        shape.push(n);
        let mut parents: Vec<usize> = Vec::new();
        parents.push(a.0);
        parents.push(b.0);
        let gm: u32 = (if m % 16 == 0 { m / 16 } else { m / 16 + 1 }) as u32;
        let gn: u32 = (if n % 16 == 0 { n / 16 } else { n / 16 + 1 }) as u32;
        proof {
            lemma_pair(m, n);
            assert(shape@ =~= seq![m, n]);
            assert(parents@ =~= seq![a.0, b.0]);
            assert(inputs@ =~= seq![old(self).node(a).data, old(self).node(b).data]);
            let nv = op_view(BufferId(self.gpu.next_id()), BufferId(next_handle(self.gpu.next_id())), shape@, parents@, Op::MatMul);
            assert(node_wf(self.views().push(nv), self.nodes@.len() as int));
        }
        self.kernel_node(Kernel::Matmul, inputs, Params(m as u32, k as u32, n as u32, 0), Groups(gm, gn, 1), m * n, shape, parents, Op::MatMul)
    }

    /// The matrix product of `a` and `b`; a vector on the left is taken as a
    /// row and a vector on the right as a column.
    pub fn matmul(&mut self, a: Tensor, b: Tensor) -> (t: Tensor)
        requires
            old(self).wf(),
            old(self).has(a),
            old(self).has(b),
            old(self).node(a).shape.len() >= 1,
            old(self).node(b).shape.len() >= 1,
            old(self).node(a).shape.len() == 1 ==> groups_ok(old(self).node(a).len),
            old(self).node(b).shape.len() == 1 ==> groups_ok(old(self).node(b).len),
            row_shape(old(self).node(a).shape)[1] == col_shape(old(self).node(b).shape)[0],
            (row_shape(old(self).node(a).shape)[0] as nat) * (col_shape(old(self).node(b).shape)[1] as nat)
                <= usize::MAX,
        ensures
            matmul_result(old(self), final(self), t, a, b),
    {
        let ghost p0 = *self;
        let ghost n0 = self.gpu.next_id();
        let ghost sa = self.node(a).shape;
        let ghost sb = self.node(b).shape;
        proof {
            assert(node_wf(self.views(), a.0 as int));
            assert(node_wf(self.views(), b.0 as int));
        }
        let a_squeezed = self.nodes[a.0].shape.len() == 1;
        let a2 = if a_squeezed {
            let n = self.nodes[a.0].shape[0];
            let mut shape: Vec<usize> = Vec::new();
            shape.push(1);
            shape.push(n);
            proof {
                lemma_pair(1, n);
                lemma_single(n);
                assert(shape@ =~= seq![1usize, n]);
                assert(sa =~= seq![n]);
            }
            self.reshape(a, shape)
        } else {
            a
        };
        let ghost p1 = *self;
        proof {
            assert(self.node(a2).shape == row_shape(sa));
            assert(self.node(b) == p0.node(b));
            assert(node_wf(self.views(), b.0 as int));
        }
        let b_squeezed = self.nodes[b.0].shape.len() == 1;
        let b2 = if b_squeezed {
            let n = self.nodes[b.0].shape[0];
            let mut shape: Vec<usize> = Vec::new();
            shape.push(n);
            shape.push(1);
            proof {
                lemma_pair(n, 1);
                lemma_single(n);
                assert(shape@ =~= seq![n, 1usize]);
                assert(sb =~= seq![n]);
            }
            self.reshape(b, shape)
        } else {
            b
        };
        let ghost p2 = *self;
        proof {
            assert(self.node(a2) == p1.node(a2));
            assert(self.node(a2).shape == row_shape(sa));
            assert(self.node(b2).shape == col_shape(sb));
        }
        let t = self.matmul_2d(a2, b2);
        proof {
            reveal_with_fuel(nth_handle, 5);
            let ka: nat = if sa.len() == 1 { 1 } else { 0 };
            let kb: nat = if sb.len() == 1 { 1 } else { 0 };
            assert(p1.gpu.next_id() == nth_handle(n0, 2 * ka));
            assert(p2.gpu.next_id() == nth_handle(n0, 2 * ka + 2 * kb));
            assert(self.extends(&p0, ka + kb + 1));
            if ka == 1 {
                assert(self.nodes@[p0.nodes@.len() as int]@ == p1.nodes@[p0.nodes@.len() as int]@);
            }
            if kb == 1 {
                assert(self.nodes@[(p0.nodes@.len() + ka) as int]@ == p2.nodes@[(p0.nodes@.len() + ka) as int]@);
            }
            assert(self.node(a2).data == p1.node(a2).data);
            let e1 = if ka == 1 {
                unary_cmds(p0.node(a).data, BufferId(n0), p0.node(a).len, 9)
                    + seq![create_uninit(BufferId(next_handle(n0)), prod(row_shape(sa)))]
            } else {
                Seq::empty()
            };
            assert(p1.gpu.pending() =~= p0.gpu.pending() + e1);
            let hb = nth_handle(n0, 2 * ka);
            let e2 = if kb == 1 {
                unary_cmds(p0.node(b).data, BufferId(hb), p0.node(b).len, 9)
                    + seq![create_uninit(BufferId(next_handle(hb)), prod(col_shape(sb)))]
            } else {
                Seq::empty()
            };
            assert(p1.node(b) == p0.node(b));
            assert(p2.gpu.pending() =~= p1.gpu.pending() + e2);
            let hm = nth_handle(n0, 2 * ka + 2 * kb);
            let m = row_shape(sa)[0];
            let k = row_shape(sa)[1];
            let n = col_shape(sb)[1];
            let e3 = kernel_cmds(Kernel::Matmul, seq![p2.node(a2).data, p2.node(b2).data], BufferId(hm), (m * n) as usize,
                    Params(m as u32, k as u32, n as u32, 0), tile_groups(m, n))
                + seq![create_uninit(BufferId(next_handle(hm)), prod(seq![m, n]))];
            assert(self.gpu.pending() =~= p2.gpu.pending() + e3);
            assert(self.gpu.pending() =~= p0.gpu.pending() + e1 + e2 + e3);
        }
        t
    }

    /// Adds the bias vector to every row of the matrix `a`.
    pub fn bias_add(&mut self, a: Tensor, bias: Tensor) -> (t: Tensor)
        requires
            old(self).wf(),
            old(self).has(a),
            old(self).has(bias),
            old(self).node(a).shape.len() >= 2,
            old(self).node(bias).shape == seq![old(self).node(a).shape[1]],
            (old(self).node(a).shape[0] as nat) * (old(self).node(a).shape[1] as nat) <= usize::MAX,
            groups_ok((old(self).node(a).shape[0] * old(self).node(a).shape[1]) as usize),
        ensures
            ({
                let rows = old(self).node(a).shape[0];
                let cols = old(self).node(a).shape[1];
                adds_node(old(self), final(self), t, seq![rows, cols], seq![a.0, bias.0], Op::BiasAdd,
                    kernel_cmds(Kernel::BiasAdd, seq![old(self).node(a).data, old(self).node(bias).data],
                        BufferId(old(self).gpu.next_id()), (rows * cols) as usize,
                        Params(rows as u32, cols as u32, 0, 0), groups_of((rows * cols) as usize)))
            }),
    {
        let rows = self.nodes[a.0].shape[0];
        let cols = self.nodes[a.0].shape[1];
        let mut inputs: Vec<BufferId> = Vec::new();
        inputs.push(self.nodes[a.0].data);
        inputs.push(self.nodes[bias.0].data);
        let mut shape: Vec<usize> = Vec::new();
        shape.push(rows);
        shape.push(cols);
        let mut parents: Vec<usize> = Vec::new();
        parents.push(a.0);
        parents.push(bias.0);
        let groups = Self::groups_1d(rows * cols);
        proof {
            lemma_pair(rows, cols);
            assert(shape@ =~= seq![rows, cols]);
            assert(parents@ =~= seq![a.0, bias.0]);
            assert(inputs@ =~= seq![old(self).node(a).data, old(self).node(bias).data]);
            let nv = op_view(BufferId(self.gpu.next_id()), BufferId(next_handle(self.gpu.next_id())), shape@, parents@, Op::BiasAdd);
            assert(node_wf(self.views().push(nv), self.nodes@.len() as int));
        }
        self.kernel_node(Kernel::BiasAdd, inputs, Params(rows as u32, cols as u32, 0, 0), groups, rows * cols, shape, parents, Op::BiasAdd)
    }

    /// For each row of `values`, the element in the column that `labels` names.
    pub fn gather(&mut self, values: Tensor, labels: Tensor) -> (t: Tensor)
        requires
            old(self).wf(),
            old(self).has(values),
            old(self).has(labels),
            old(self).node(values).shape.len() >= 2,
            groups_ok(old(self).node(labels).len),
        ensures
            ({
                let rows = old(self).node(labels).len;
                let cols = old(self).node(values).shape[1];
                adds_node(old(self), final(self), t, seq![rows], seq![values.0, labels.0], Op::Gather,
                    kernel_cmds(Kernel::Gather, seq![old(self).node(values).data, old(self).node(labels).data],
                        BufferId(old(self).gpu.next_id()), rows,
                        Params(rows as u32, cols as u32, 0, 0), groups_of(rows)))
            }),
    {
        let rows = self.nodes[labels.0].len;
        let cols = self.nodes[values.0].shape[1];
        let mut inputs: Vec<BufferId> = Vec::new();
        inputs.push(self.nodes[values.0].data);
        inputs.push(self.nodes[labels.0].data);
        let mut shape: Vec<usize> = Vec::new();
        shape.push(rows);
        let mut parents: Vec<usize> = Vec::new();
        parents.push(values.0);
        parents.push(labels.0);
        let groups = Self::groups_1d(rows);
        proof {
            lemma_single(rows);
            assert(shape@ =~= seq![rows]);
            assert(parents@ =~= seq![values.0, labels.0]);
            assert(inputs@ =~= seq![old(self).node(values).data, old(self).node(labels).data]);
            let nv = op_view(BufferId(self.gpu.next_id()), BufferId(next_handle(self.gpu.next_id())), shape@, parents@, Op::Gather);
            assert(node_wf(self.views().push(nv), self.nodes@.len() as int));
        }
        self.kernel_node(Kernel::Gather, inputs, Params(rows as u32, cols as u32, 0, 0), groups, rows, shape, parents, Op::Gather)
    }

    /// A per-row reduction of the matrix `a` by `kernel` into a vector with one element per row.
    fn row_reduce(&mut self, a: Tensor, kernel: Kernel, op: Op) -> (t: Tensor)
        requires
            old(self).wf(),
            old(self).has(a),
            old(self).node(a).shape.len() >= 2,
            groups_ok(old(self).node(a).shape[0]),
            op == Op::Mean || op == Op::Sum,
        ensures
            ({
                let rows = old(self).node(a).shape[0];
                let cols = old(self).node(a).shape[1];
                adds_node(old(self), final(self), t, seq![rows], seq![a.0], op,
                    kernel_cmds(kernel, seq![old(self).node(a).data, old(self).node(a).data],
                        BufferId(old(self).gpu.next_id()), rows,
                        Params(rows as u32, cols as u32, 0, 0), groups_of(rows)))
            }),
    {
        let rows = self.nodes[a.0].shape[0];
        let cols = self.nodes[a.0].shape[1];
        let mut inputs: Vec<BufferId> = Vec::new();
        inputs.push(self.nodes[a.0].data);
        inputs.push(self.nodes[a.0].data);
        let mut shape: Vec<usize> = Vec::new();
        shape.push(rows);
        let mut parents: Vec<usize> = Vec::new();
        parents.push(a.0);
        let groups = Self::groups_1d(rows);
        proof {
            lemma_single(rows);
            assert(shape@ =~= seq![rows]);
            assert(parents@ =~= seq![a.0]);
            assert(inputs@ =~= seq![old(self).node(a).data, old(self).node(a).data]);
            let nv = op_view(BufferId(self.gpu.next_id()), BufferId(next_handle(self.gpu.next_id())), shape@, parents@, op);
            assert(node_wf(self.views().push(nv), self.nodes@.len() as int));
        }
        self.kernel_node(kernel, inputs, Params(rows as u32, cols as u32, 0, 0), groups, rows, shape, parents, op)
    }

    /// The sum of each row of the matrix `a`.
    pub fn sum(&mut self, a: Tensor) -> (t: Tensor)
        requires
            old(self).wf(),
            old(self).has(a),
            old(self).node(a).shape.len() >= 2,
            groups_ok(old(self).node(a).shape[0]),
        ensures
            ({
                let rows = old(self).node(a).shape[0];
                let cols = old(self).node(a).shape[1];
                adds_node(old(self), final(self), t, seq![rows], seq![a.0], Op::Sum,
                    kernel_cmds(Kernel::Sum, seq![old(self).node(a).data, old(self).node(a).data],
                        BufferId(old(self).gpu.next_id()), rows,
                        Params(rows as u32, cols as u32, 0, 0), groups_of(rows)))
            }),
    {
        self.row_reduce(a, Kernel::Sum, Op::Sum)
    }

    /// Each element of the matrix `a` divided by the element of `b` for its row.
    pub fn div(&mut self, a: Tensor, b: Tensor) -> (t: Tensor)
        requires
            old(self).wf(),
            old(self).has(a),
            old(self).has(b),
            old(self).node(a).shape.len() >= 2,
            old(self).node(b).len == old(self).node(a).shape[0],
            (old(self).node(a).shape[0] as nat) * (old(self).node(a).shape[1] as nat) <= usize::MAX,
            groups_ok((old(self).node(a).shape[0] * old(self).node(a).shape[1]) as usize),
        ensures
            ({
                let rows = old(self).node(a).shape[0];
                let cols = old(self).node(a).shape[1];
                adds_node(old(self), final(self), t, old(self).node(a).shape, seq![a.0, b.0], Op::Div,
                    kernel_cmds(Kernel::Div, seq![old(self).node(a).data, old(self).node(b).data],
                        BufferId(old(self).gpu.next_id()), (rows * cols) as usize,
                        Params(rows as u32, cols as u32, 0, 0), groups_of((rows * cols) as usize)))
            }),
    {
        proof { assert(node_wf(self.views(), a.0 as int)); }
        let rows = self.nodes[a.0].shape[0];
        let cols = self.nodes[a.0].shape[1];
        let mut inputs: Vec<BufferId> = Vec::new();
        inputs.push(self.nodes[a.0].data);
        inputs.push(self.nodes[b.0].data);
        let shape = self.nodes[a.0].shape.clone();
        let mut parents: Vec<usize> = Vec::new();
        parents.push(a.0);
        parents.push(b.0);
        let groups = Self::groups_1d(rows * cols);
        proof {
            assert(shape@ =~= old(self).node(a).shape);
            assert(parents@ =~= seq![a.0, b.0]);
            assert(inputs@ =~= seq![old(self).node(a).data, old(self).node(b).data]);
            let nv = op_view(BufferId(self.gpu.next_id()), BufferId(next_handle(self.gpu.next_id())), shape@, parents@, Op::Div);
            assert(node_wf(self.views().push(nv), self.nodes@.len() as int));
        }
        self.kernel_node(Kernel::Div, inputs, Params(rows as u32, cols as u32, 0, 0), groups, rows * cols, shape, parents, Op::Div)
    }

    /// Each row of the matrix `a` minus the row's maximum.
    pub fn sub_row_max(&mut self, a: Tensor) -> (t: Tensor)
        requires
            old(self).wf(),
            old(self).has(a),
            old(self).node(a).shape.len() >= 2,
            (old(self).node(a).shape[0] as nat) * (old(self).node(a).shape[1] as nat) <= usize::MAX,
            groups_ok(old(self).node(a).shape[0]),
        ensures
            ({
                let rows = old(self).node(a).shape[0];
                let cols = old(self).node(a).shape[1];
                adds_node(old(self), final(self), t, old(self).node(a).shape, seq![a.0], Op::SubRowMax,
                    kernel_cmds(Kernel::SubRowMax, seq![old(self).node(a).data, old(self).node(a).data],
                        BufferId(old(self).gpu.next_id()), (rows * cols) as usize,
                        Params(rows as u32, cols as u32, 0, 0), groups_of(rows)))
            }),
    {
        proof { assert(node_wf(self.views(), a.0 as int)); }
        let rows = self.nodes[a.0].shape[0];
        let cols = self.nodes[a.0].shape[1];
        let mut inputs: Vec<BufferId> = Vec::new();
        inputs.push(self.nodes[a.0].data);
        inputs.push(self.nodes[a.0].data);
        let shape = self.nodes[a.0].shape.clone();
        let mut parents: Vec<usize> = Vec::new();
        parents.push(a.0);
        let groups = Self::groups_1d(rows);
        proof {
            assert(shape@ =~= old(self).node(a).shape);
            assert(parents@ =~= seq![a.0]);
            assert(inputs@ =~= seq![old(self).node(a).data, old(self).node(a).data]);
            let nv = op_view(BufferId(self.gpu.next_id()), BufferId(next_handle(self.gpu.next_id())), shape@, parents@, Op::SubRowMax);
            assert(node_wf(self.views().push(nv), self.nodes@.len() as int));
        }
        self.kernel_node(Kernel::SubRowMax, inputs, Params(rows as u32, cols as u32, 0, 0), groups, rows * cols, shape, parents, Op::SubRowMax)
    }

    /// The mean of a vector (a vector of one element), or the mean of each row of a matrix.
    pub fn mean(&mut self, a: Tensor) -> (t: Tensor)
        requires
            old(self).wf(),
            old(self).has(a),
            old(self).node(a).shape.len() >= 1,
            old(self).node(a).shape.len() != 1 ==> groups_ok(old(self).node(a).shape[0]),
        ensures
            mean_result(old(self), final(self), t, a),
    {
        if self.nodes[a.0].shape.len() == 1 {
            let ghost n0 = self.gpu.next_id();
            let ghost p0 = *self;
            let len = self.nodes[a.0].len;
            let a_data = self.nodes[a.0].data;
            let sum = self.gpu.empty_buffer(1);
            let mut inputs: Vec<BufferId> = Vec::new();
            inputs.push(a_data);
            inputs.push(a_data);
            let mut outputs: Vec<BufferId> = Vec::new();
            outputs.push(sum);
            assert(inputs@ =~= seq![a_data, a_data]);
            assert(outputs@ =~= seq![sum]);
            self.gpu.dispatch(Kernel::Sum, inputs, outputs, Params(1, len as u32, 0, 0), Groups(1, 1, 1));
            let divisor = self.gpu.upload_buffer(1, Fill::Count(len));
            let data = self.gpu.empty_buffer(1);
            let mut inputs2: Vec<BufferId> = Vec::new();
            inputs2.push(sum);
            inputs2.push(divisor);
            let mut outputs2: Vec<BufferId> = Vec::new();
            outputs2.push(data);
            assert(inputs2@ =~= seq![sum, divisor]);
            assert(outputs2@ =~= seq![data]);
            self.gpu.dispatch(Kernel::Div, inputs2, outputs2, Params(1, 1, 0, 0), Groups(1, 1, 1));
            let mut shape: Vec<usize> = Vec::new();
            shape.push(1);
            let mut parents: Vec<usize> = Vec::new();
            parents.push(a.0);
            assert(self.views() == old(self).views());
            proof {
                lemma_single(1);
                assert(shape@ =~= seq![1usize]);
                assert(parents@ =~= seq![a.0]);
                let nv = op_view(data, BufferId(self.gpu.next_id()), shape@, parents@, Op::Mean);
                assert(node_wf(self.views().push(nv), self.nodes@.len() as int));
            }
            let ghost p1 = self.gpu.pending();
            proof { self.lemma_wf_grows(old(self)); }
            let t = self.finish_node(data, shape, parents, Op::Mean);
            let ghost p2 = *self;
            self.gpu.release(divisor);
            self.gpu.release(sum);
            proof {
                assert(self.views() == p2.views());
                assert(self.extends(&p2, 0));
                reveal_with_fuel(nth_handle, 5);
                assert(self.gpu.pending() =~= p0.gpu.pending() + seq![
                    Cmd::Create { buffer: sum, len: 1, fill: Fill::Uninit },
                    Cmd::Dispatch {
                        kernel: Kernel::Sum,
                        inputs: seq![a_data, a_data],
                        outputs: seq![sum],
                        params: Params(1, len as u32, 0, 0),
                        groups: Groups(1, 1, 1),
                    },
                    Cmd::Create { buffer: divisor, len: 1, fill: Fill::Count(len) },
                    Cmd::Create { buffer: data, len: 1, fill: Fill::Uninit },
                    Cmd::Dispatch {
                        kernel: Kernel::Div,
                        inputs: seq![sum, divisor],
                        outputs: seq![data],
                        params: Params(1, 1, 0, 0),
                        groups: Groups(1, 1, 1),
                    },
                    Cmd::Create { buffer: BufferId(nth_handle(n0, 3)), len: 1, fill: Fill::Uninit },
                    Cmd::Release { buffer: divisor },
                    Cmd::Release { buffer: sum },
                ]);
            }
            t
        } else {
            self.row_reduce(a, Kernel::RowMean, Op::Mean)
        }
    }

    /// Dropout of `a` at the rate whose float bit pattern is `rate_bits`,
    /// drawing its mask from `seed`.
    pub fn dropout_seeded(&mut self, a: Tensor, rate_bits: u32, seed: u32) -> (t: Tensor)
        requires
            old(self).wf(),
            old(self).has(a),
            dropout_rate_ok(rate_bits),
            groups_ok(old(self).node(a).len),
        ensures
            dropout_result(old(self), final(self), t, a, rate_bits, seed),
    {
        proof { assert(node_wf(self.views(), a.0 as int)); }
        let ghost p0 = *self;
        let shape = self.nodes[a.0].shape.clone();
        assert(shape@ =~= self.node(a).shape);
        let len = self.nodes[a.0].len;
        let a_data = self.nodes[a.0].data;
        let out = self.gpu.empty_buffer(len);
        let mask = self.gpu.empty_buffer(len);
        let groups = Self::groups_1d(len);
        let mut inputs: Vec<BufferId> = Vec::new();
        inputs.push(a_data);
        let mut outputs: Vec<BufferId> = Vec::new();
        outputs.push(out);
        outputs.push(mask);
        assert(inputs@ =~= seq![a_data]);
        assert(outputs@ =~= seq![out, mask]);
        self.gpu.dispatch(Kernel::Dropout, inputs, outputs, Params(len as u32, rate_bits, seed, 0), groups);
        assert(self.views() == old(self).views());
        proof { self.lemma_wf_grows(old(self)); }
        let ghost before_grad = self.gpu.next_id();
        let mut node = self.node_from_buffer(out, shape);
        node.saved.push(mask);
        let mut parents: Vec<usize> = Vec::new();
        parents.push(a.0);
        proof {
            assert(parents@ =~= seq![a.0]);
            assert(node@.saved =~= seq![mask]);
            assert(self.views() == old(self).views());
            assert(node_wf(self.views().push(NodeView { parents: parents@, op: Op::Dropout, ..node@ }), self.nodes@.len() as int));
            if self.gpu.next_id() < usize::MAX {
                assert(before_grad < usize::MAX);
                assert(node@.saved[0] == mask);
                assert(node_below(node@, self.gpu.next_id()));
            }
        }
        let t = self.push_node(node, parents, Op::Dropout);
        proof {
            reveal_with_fuel(nth_handle, 4);
            assert(parents@ =~= seq![a.0]);
            assert(self.node(t) =~= (NodeView { saved: seq![mask], ..op_view(out, BufferId(nth_handle(p0.gpu.next_id(), 2)), p0.node(a).shape, seq![a.0], Op::Dropout) }));
            assert(self.gpu.pending() =~= p0.gpu.pending() + seq![
                Cmd::Create { buffer: out, len, fill: Fill::Uninit },
                Cmd::Create { buffer: mask, len, fill: Fill::Uninit },
                Cmd::Dispatch {
                    kernel: Kernel::Dropout,
                    inputs: seq![a_data],
                    outputs: seq![out, mask],
                    params: Params(len as u32, rate_bits, seed, 0),
                    groups: groups_of(len),
                },
                create_uninit(BufferId(nth_handle(p0.gpu.next_id(), 2)), prod(p0.node(a).shape)),
            ]);
        }
        t
    }

    /// Dropout of `a` at the rate whose float bit pattern is `rate_bits`, with
    /// a mask seed drawn at random.
    pub fn dropout(&mut self, a: Tensor, rate_bits: u32) -> (t: Tensor)
        requires
            old(self).wf(),
            old(self).has(a),
            dropout_rate_ok(rate_bits),
            groups_ok(old(self).node(a).len),
        ensures
            exists|seed: u32| dropout_result(old(self), final(self), t, a, rate_bits, seed),
    {
        let seed = random_u32();
        self.dropout_seeded(a, rate_bits, seed)
    }

    /// Runs `kernel` reading `in0` and `in1` and writing `out`.
    fn run(&mut self, kernel: Kernel, in0: BufferId, in1: BufferId, out: BufferId, params: Params, groups: Groups)
        ensures
            final(self).nodes == old(self).nodes,
            final(self).param_end == old(self).param_end,
            final(self).gpu.one == old(self).gpu.one,
            final(self).gpu.next_id() == old(self).gpu.next_id(),
            final(self).gpu.pending() == old(self).gpu.pending().push(
                Cmd::Dispatch { kernel, inputs: seq![in0, in1], outputs: seq![out], params, groups },
            ),
    {
        let mut inputs: Vec<BufferId> = Vec::new();
        inputs.push(in0);
        inputs.push(in1);
        let mut outputs: Vec<BufferId> = Vec::new();
        outputs.push(out);
        assert(inputs@ =~= seq![in0, in1]);
        assert(outputs@ =~= seq![out]);
        self.gpu.dispatch(kernel, inputs, outputs, params, groups);
    }

    /// The gradient contribution of node `i` to each of its parents: one
    /// buffer per parent, in the order of the parents.
    pub fn backward_for(&mut self, i: usize) -> (r: Vec<BufferId>)
        requires
            old(self).wf(),
            i < old(self).nodes@.len(),
            old(self).views()[i as int].op != Op::Leaf,
            backward_groups_ok(old(self).views(), i as int),
        ensures
            final(self).nodes == old(self).nodes,
            final(self).param_end == old(self).param_end,
            final(self).gpu.one == old(self).gpu.one,
            ({
                let plan = backward_plan(old(self).views(), i as int, old(self).gpu.next_id());
                &&& final(self).gpu.pending() == old(self).gpu.pending() + plan.0
                &&& r@ == plan.1
                &&& final(self).gpu.next_id() == nth_handle(old(self).gpu.next_id(), plan.2)
                &&& r@.len() == old(self).views()[i as int].parents.len()
                &&& forall|j: int, k: int| #![trigger written(plan.0[j])[k]] 0 <= j < plan.0.len() && 0 <= k < written(plan.0[j]).len()
                    ==> written(plan.0[j])[k] == BufferId(old(self).gpu.next_id())
                        || (plan.2 == 2 && written(plan.0[j])[k] == BufferId(nth_handle(old(self).gpu.next_id(), 1)))
                &&& final(self).gpu.next_id() < usize::MAX ==> forall|j: int, k: int, q: int|
                    #![trigger written(plan.0[j])[k], old(self).views()[q]]
                    0 <= j < plan.0.len() && 0 <= k < written(plan.0[j]).len() && 0 <= q < old(self).views().len()
                    ==> written(plan.0[j])[k] != old(self).views()[q].data
                        && written(plan.0[j])[k] != old(self).views()[q].grad
                        && !old(self).views()[q].saved.contains(written(plan.0[j])[k])
                        && written(plan.0[j])[k] != old(self).gpu.one
            }),
    {
        proof {
            assert(node_wf(self.views(), i as int));
            lemma_backward_writes_fresh(self.views(), i as int, self.gpu.next_id());
            let plan = backward_plan(self.views(), i as int, self.gpu.next_id());
            lemma_nth_handle_exact(self.gpu.next_id(), plan.2);
            if nth_handle(self.gpu.next_id(), plan.2) < usize::MAX {
                assert forall|q: int| 0 <= q < self.views().len() implies (#[trigger] self.views()[q]).data.0 < self.gpu.next_id()
                    && self.views()[q].grad.0 < self.gpu.next_id()
                    && forall|s: int| 0 <= s < self.views()[q].saved.len() ==> (#[trigger] self.views()[q].saved[s]).0 < self.gpu.next_id() by {
                    assert(node_below(self.views()[q], self.gpu.next_id()));
                }
                lemma_backward_keeps_node_buffers(self.views(), i as int, self.gpu.next_id(), self.gpu.one);
            }
            reveal_with_fuel(nth_handle, 3);
        }
        let ghost v = self.views();
        let ghost n0 = self.gpu.next_id();
        let ghost p0 = self.gpu.pending();
        let op = self.nodes[i].op;
        let pa = self.nodes[i].parents[0];
        let cur_grad = self.nodes[i].grad;
        let cur_data = self.nodes[i].data;
        let cur_len = self.nodes[i].len;
        let a_data = self.nodes[pa].data;
        let a_len = self.nodes[pa].len;
        let mut r: Vec<BufferId> = Vec::new();
        match op {
            Op::MatMul => {
                let pb = self.nodes[i].parents[1];
                let m = self.nodes[pa].shape[0];
                let k = self.nodes[pa].shape[1];
                let n = self.nodes[pb].shape[1];
                let b_data = self.nodes[pb].data;
                let b_len = self.nodes[pb].len;
                let da = self.gpu.empty_buffer(a_len);
                let gm: u32 = (if m % 16 == 0 { m / 16 } else { m / 16 + 1 }) as u32;
                let gk: u32 = (if k % 16 == 0 { k / 16 } else { k / 16 + 1 }) as u32;
                let gn: u32 = (if n % 16 == 0 { n / 16 } else { n / 16 + 1 }) as u32;
                self.run(Kernel::Matmul, cur_grad, b_data, da, Params(m as u32, n as u32, k as u32, 2), Groups(gm, gk, 1));
                let db = self.gpu.empty_buffer(b_len);
                self.run(Kernel::Matmul, a_data, cur_grad, db, Params(k as u32, m as u32, n as u32, 1), Groups(gk, gn, 1));
                r.push(da);
                r.push(db);
            },
            Op::BiasAdd => {
                let pb = self.nodes[i].parents[1];
                let b_len = self.nodes[pb].len;
                let rows = self.nodes[i].shape[0];
                let cols = self.nodes[i].shape[1];
                let da = self.unary_buffer(cur_grad, cur_len, 9);
                let db = self.gpu.empty_buffer(b_len);
                let g = Self::groups_1d(cols);
                self.run(Kernel::BiasAddBackward, cur_grad, cur_grad, db, Params(rows as u32, cols as u32, 0, 0), g);
                r.push(da);
                r.push(db);
            },
            Op::Gather => {
                let pb = self.nodes[i].parents[1];
                let b_data = self.nodes[pb].data;
                let b_len = self.nodes[pb].len;
                let rows = self.nodes[pa].shape[0];
                let cols = self.nodes[pa].shape[1];
                let da = self.gpu.empty_buffer(a_len);
                let g = Self::groups_1d(a_len);
                self.run(Kernel::GatherBackward, cur_grad, b_data, da, Params(rows as u32, cols as u32, 0, 0), g);
                let db = self.gpu.empty_buffer(b_len);
                r.push(da);
                r.push(db);
            },
            Op::Log | Op::Sq => {
                let kind: u32 = if op == Op::Log { 6 } else { 13 };
                let out = self.gpu.empty_buffer(a_len);
                let g = Self::groups_1d(a_len);
                self.run(Kernel::Unary, a_data, cur_grad, out, Params(a_len as u32, kind, 0, 0), g);
                r.push(out);
            },
            Op::Mean => {
                let out = self.gpu.empty_buffer(a_len);
                let g = Self::groups_1d(a_len);
                if self.nodes[pa].shape.len() == 1 {
                    self.run(Kernel::MeanBackward, cur_grad, cur_grad, out, Params(a_len as u32, 0, 0, 0), g);
                } else {
                    let rows = self.nodes[pa].shape[0];
                    let cols = self.nodes[pa].shape[1];
                    self.run(Kernel::RowMeanBackward, cur_grad, cur_grad, out, Params(rows as u32, cols as u32, 0, 0), g);
                }
                r.push(out);
            },
            Op::Neg => {
                let out = self.unary_buffer(cur_grad, cur_len, 7);
                r.push(out);
            },
            Op::Exp | Op::Tanh => {
                let kind: u32 = if op == Op::Exp { 5 } else { 8 };
                let out = self.gpu.empty_buffer(cur_len);
                let g = Self::groups_1d(cur_len);
                self.run(Kernel::Unary, cur_data, cur_grad, out, Params(cur_len as u32, kind, 0, 0), g);
                r.push(out);
            },
            Op::Max | Op::Mul => {
                let pb = self.nodes[i].parents[1];
                let b_data = self.nodes[pb].data;
                let k0: u32 = if op == Op::Max { 5 } else { 3 };
                let k1: u32 = if op == Op::Max { 6 } else { 4 };
                let da = self.gpu.empty_buffer(cur_len);
                let db = self.gpu.empty_buffer(cur_len);
                self.gpu.copy_buffer(cur_grad, da, cur_len);
                self.gpu.copy_buffer(cur_grad, db, cur_len);
                let g = Self::groups_1d(cur_len);
                self.run(Kernel::Binary, a_data, b_data, da, Params(cur_len as u32, k0, 0, 0), g);
                self.run(Kernel::Binary, a_data, b_data, db, Params(cur_len as u32, k1, 0, 0), g);
                r.push(da);
                r.push(db);
            },
            Op::Sum => {
                let rows = self.nodes[pa].shape[0];
                let cols = self.nodes[pa].shape[1];
                let out = self.gpu.empty_buffer(a_len);
                let g = Self::groups_1d(a_len);
                self.run(Kernel::SumBackward, cur_grad, cur_grad, out, Params(rows as u32, cols as u32, 0, 0), g);
                r.push(out);
            },
            Op::Div => {
                let pb = self.nodes[i].parents[1];
                let b_data = self.nodes[pb].data;
                let rows = self.nodes[pa].shape[0];
                let cols = self.nodes[pa].shape[1];
                let da = self.gpu.empty_buffer(a_len);
                let g = Self::groups_1d(a_len);
                self.run(Kernel::DivBackwardA, b_data, cur_grad, da, Params(rows as u32, cols as u32, 0, 0), g);
                let db = self.gpu.empty_buffer(a_len);
                self.gpu.copy_buffer(cur_grad, db, cur_len);
                let g2 = Self::groups_1d(rows);
                self.run(Kernel::DivBackwardB, a_data, b_data, db, Params(rows as u32, cols as u32, 0, 0), g2);
                r.push(da);
                r.push(db);
            },
            Op::SubRowMax => {
                let rows = self.nodes[pa].shape[0];
                let cols = self.nodes[pa].shape[1];
                let out = self.gpu.empty_buffer(a_len);
                let g = Self::groups_1d(rows);
                self.run(Kernel::SubRowMaxBackward, a_data, cur_grad, out, Params(rows as u32, cols as u32, 0, 0), g);
                r.push(out);
            },
            Op::MatAdd | Op::Sub => {
                let k1: u32 = if op == Op::MatAdd { 9 } else { 3 };
                let da = self.unary_buffer(cur_grad, cur_len, 9);
                let db = self.unary_buffer(cur_grad, cur_len, k1);
                r.push(da);
                r.push(db);
            },
            Op::Reshape => {
                let out = self.unary_buffer(cur_grad, cur_len, 9);
                r.push(out);
            },
            Op::Dropout => {
                let mask = self.nodes[i].saved[0];
                let out = self.binary_buffer(mask, cur_grad, cur_len, 1);
                r.push(out);
            },
            Op::Leaf => {},
        }
        proof {
            let plan = backward_plan(v, i as int, n0);
            assert(r@ =~= plan.1);
            assert(self.gpu.pending() =~= p0 + plan.0);
        }
        r
    }

    /// Computes the gradient of `root` with respect to every node before it:
    /// the gradients of nodes `0..=root` are cleared, the root's is set to one,
    /// and each node from the root down adds its contribution into its parents.
    pub fn backpropogate(&mut self, root: Tensor)
        requires
            old(self).wf(),
            old(self).has(root),
            backprop_ok(old(self).views(), root.0 as int),
        ensures
            final(self).wf(),
            final(self).param_end == old(self).param_end,
            final(self).gpu.one == old(self).gpu.one,
            ({
                let s = backprop_result(old(self).views(), root.0 as int, old(self).gpu.one, old(self).gpu.next_id());
                &&& final(self).views() == s.views
                &&& final(self).gpu.next_id() == s.next
                &&& final(self).gpu.pending() == old(self).gpu.pending() + s.cmds
            }),
            only_grads_differ(final(self).views(), old(self).views()),
    {
        let ghost v = self.views();
        let ghost p0 = self.gpu.pending();
        let ghost n0 = self.gpu.next_id();
        let total = self.nodes.len();
        assert(root.0 < total);
        let n = root.0 + 1;
        for j in 0..n
            invariant
                n == root.0 + 1,
                root.0 < self.nodes@.len(),
                self.nodes == old(self).nodes,
                self.param_end == old(self).param_end,
                self.gpu.one == old(self).gpu.one,
                self.gpu.next_id() == n0,
                v == old(self).views(),
                self.gpu.pending() == p0 + Seq::new(j as nat, |x: int| Cmd::Clear { buffer: v[x].grad }),
        {
            let g = self.nodes[j].grad;
            self.gpu.clear_buffer(g);
            assert(Seq::new((j + 1) as nat, |x: int| Cmd::Clear { buffer: v[x].grad })
                =~= Seq::new(j as nat, |x: int| Cmd::Clear { buffer: v[x].grad }).push(Cmd::Clear { buffer: v[j as int].grad }));
        }
        let one = self.gpu.one;
        let rg = self.nodes[root.0].grad;
        let rlen = self.nodes[root.0].len;
        let g = Self::groups_1d(rlen);
        self.run(Kernel::Unary, one, one, rg, Params(rlen as u32, 10, 0, 0), g);
        assert(self.views() == v);
        let ghost clears = Seq::new((root.0 + 1) as nat, |x: int| Cmd::Clear { buffer: v[x].grad });
        let ghost seed = Cmd::Dispatch {
            kernel: Kernel::Unary,
            inputs: seq![one, one],
            outputs: seq![v[root.0 as int].grad],
            params: Params(v[root.0 as int].len as u32, 10, 0, 0),
            groups: groups_of(v[root.0 as int].len),
        };
        let ghost init = BackState { views: v, next: n0, cmds: clears.push(seed) };
        let ghost mut cs: Seq<Cmd> = clears.push(seed);
        assert(self.gpu.pending() =~= p0 + cs);
        let mut k = n;
        while k > 0
            invariant
                k <= n,
                n == root.0 + 1,
                root.0 < self.nodes@.len(),
                self.wf(),
                self.nodes@.len() == old(self).nodes@.len(),
                self.param_end == old(self).param_end,
                self.gpu.one == old(self).gpu.one,
                backprop_ok(self.views(), root.0 as int),
                only_grads_differ(self.views(), v),
                self.gpu.pending() == p0 + cs,
                back_from(BackState { views: self.views(), next: self.gpu.next_id(), cmds: cs }, k - 1)
                    == back_from(init, root.0 as int),
            decreases k,
        {
            k = k - 1;
            let i = k;
            let ghost st = BackState { views: self.views(), next: self.gpu.next_id(), cmds: cs };
            proof {
                assert(node_wf(self.views(), i as int));
                assert(back_from(st, i as int) == back_from(back_step(st, i as int), i - 1));
            }
            if self.nodes[i].parents.len() > 0 {
                proof {
                    assert(groups_ok(self.views()[i as int].len));
                }
                let ghost pb = *self;
                let grads = self.backward_for(i);
                let ghost plan = backward_plan(st.views, i as int, st.next);
                proof {
                    lemma_nth_handle_exact(st.next, plan.2);
                    self.lemma_wf_grows(&pb);
                    cs = cs + plan.0;
                    assert(self.gpu.pending() =~= p0 + cs);
                    assert(self.views() == st.views);
                }
                let ghost s1 = BackState { views: st.views, next: nth_handle(st.next, plan.2), cmds: cs };
                let m = grads.len();
                assert(m == self.nodes@[i as int].parents@.len());
                for slot in 0..m
                    invariant
                        m == grads@.len(),
                        m == self.nodes@[i as int].parents@.len(),
                        i < self.nodes@.len(),
                        i <= root.0,
                        root.0 < self.nodes@.len(),
                        self.wf(),
                        self.nodes@.len() == old(self).nodes@.len(),
                        self.param_end == old(self).param_end,
                        self.gpu.one == old(self).gpu.one,
                        backprop_ok(self.views(), root.0 as int),
                        only_grads_differ(self.views(), v),
                        self.views()[i as int].parents == st.views[i as int].parents,
                        self.gpu.pending() == p0 + cs,
                        accumulate(BackState { views: self.views(), next: self.gpu.next_id(), cmds: cs }, i as int, grads@, slot as int)
                            == accumulate(s1, i as int, grads@, 0),
                {
                    let ghost sa = BackState { views: self.views(), next: self.gpu.next_id(), cmds: cs };
                    let parent = self.nodes[i].parents[slot];
                    proof {
                        assert(node_wf(self.views(), i as int));
                        assert(self.nodes@[i as int].parents@[slot as int] < i);
                        assert(groups_ok(self.views()[parent as int].len));
                    }
                    let contribution = grads[slot];
                    let pg = self.nodes[parent].grad;
                    let plen = self.nodes[parent].len;
                    let acc = self.binary_buffer(pg, contribution, plen, 0);
                    let ghost vb = self.views();
                    assert(vb == sa.views);
                    self.nodes[parent].grad = acc;
                    proof {
                        assert(self.views() =~= regrad(vb, parent as int, acc));
                        lemma_regrad(vb, parent as int, acc);
                        assert forall|x: int| 0 <= x < self.nodes@.len() implies #[trigger] node_wf(self.views(), x) by {
                            assert(node_wf(vb, x));
                        }
                        assert forall|x: int| 0 <= x <= root.0 implies groups_ok(#[trigger] self.views()[x].len)
                            && (self.views()[x].op != Op::Leaf ==> backward_groups_ok(self.views(), x)) by {
                            assert(node_wf(vb, x));
                            assert(groups_ok(vb[x].len));
                        }
                        if self.gpu.next_id() < usize::MAX {
                            assert forall|x: int| 0 <= x < self.nodes@.len() implies #[trigger] node_below(self.views()[x], self.gpu.next_id()) by {
                                assert(node_below(vb[x], self.gpu.next_id()));
                            }
                        }
                    }
                    self.gpu.release(pg);
                    self.gpu.release(contribution);
                    proof {
                        cs = cs + binary_cmds(pg, contribution, acc, plen, 0) + seq![
                            Cmd::Release { buffer: pg },
                            Cmd::Release { buffer: contribution },
                        ];
                        assert(self.gpu.pending() =~= p0 + cs);
                        assert(self.views() == regrad(sa.views, parent as int, acc));
                    }
                }
                proof {
                    assert(back_step(st, i as int) == accumulate(s1, i as int, grads@, 0));
                }
            }
        }
        proof {
            assert(back_from(BackState { views: self.views(), next: self.gpu.next_id(), cmds: cs }, -1)
                == BackState { views: self.views(), next: self.gpu.next_id(), cmds: cs });
        }
    }
}


/// Whether dropout may be applied at the rate with bit pattern `bits`.
pub fn dropout_rate_fits(bits: u32) -> (b: bool)
    ensures
        b == dropout_rate_ok(bits),
{
    bits < 0x3F80_0000u32 || bits == 0x8000_0000u32
}

impl Pool {
    /// Whether `groups_1d(n)` can compute its workgroup counts.
    pub fn groups_fit(n: usize) -> (b: bool)
        ensures
            b == groups_ok(n),
    {
        let total_wide: usize = if n % 256 == 0 { n / 256 } else { n / 256 + 1 };
        (total_wide as u32) <= 0xFFFF_0001u32
    }

    /// Whether every node up to `root` can take part in backpropagation.
    pub fn fits_backprop(&self, root: Tensor) -> (b: bool)
        requires
            self.wf(),
            self.has(root),
        ensures
            b == backprop_ok(self.views(), root.0 as int),
    {
        let total = self.nodes.len();
        assert(root.0 < total);
        let n = root.0 + 1;
        let mut j: usize = 0;
        while j < n
            invariant
                n == root.0 + 1,
                root.0 < self.nodes@.len(),
                self.wf(),
                j <= n,
                forall|x: int| 0 <= x < j ==> groups_ok(#[trigger] self.views()[x].len)
                    && (self.views()[x].op != Op::Leaf ==> backward_groups_ok(self.views(), x)),
            decreases n - j,
        {
            proof { assert(node_wf(self.views(), j as int)); }
            let cur = &self.nodes[j];
            if !Self::groups_fit(cur.len) {
                return false;
            }
            let ok = match cur.op {
                Op::Leaf | Op::MatMul => true,
                Op::BiasAdd => Self::groups_fit(cur.shape[1]),
                Op::Gather | Op::Log | Op::Sq | Op::Mean | Op::Sum => {
                    let a = cur.parents[0];
                    Self::groups_fit(self.nodes[a].len)
                },
                Op::Div | Op::SubRowMax => {
                    let a = cur.parents[0];
                    Self::groups_fit(self.nodes[a].len) && Self::groups_fit(self.nodes[a].shape[0])
                },
                _ => true,
            };
            if !ok {
                return false;
            }
            j = j + 1;
        }
        true
    }

    /// Whether the update kernel over every parameter can compute its
    /// workgroup counts.
    pub fn params_fit(&self) -> (b: bool)
        requires
            self.wf(),
        ensures
            b == forall|i: int| 0 <= i < self.param_end ==> groups_ok(#[trigger] self.views()[i].len),
    {
        let n = self.param_end;
        let mut j: usize = 0;
        while j < n
            invariant
                n == self.param_end,
                n <= self.nodes@.len(),
                j <= n,
                forall|x: int| 0 <= x < j ==> groups_ok(#[trigger] self.views()[x].len),
            decreases n - j,
        {
            assert(self.views()[j as int].len == self.nodes@[j as int].len);
            if !Self::groups_fit(self.nodes[j].len) {
                return false;
            }
            j = j + 1;
        }
        true
    }
}

/// The gradient step of node `i` gives one buffer per input, in input order,
/// and writes only the buffers it creates: the next one or two handles.
pub proof fn lemma_backward_writes_fresh(v: Seq<NodeView>, i: int, n0: usize)
    requires
        0 <= i < v.len(),
        node_wf(v, i),
        v[i].op != Op::Leaf,
    ensures
        ({
            let plan = backward_plan(v, i, n0);
            &&& plan.1.len() == v[i].parents.len()
            &&& plan.2 == v[i].parents.len()
            &&& forall|j: int, k: int| #![trigger written(plan.0[j])[k]] 0 <= j < plan.0.len() && 0 <= k < written(plan.0[j]).len()
                ==> written(plan.0[j])[k] == BufferId(n0)
                    || (plan.2 == 2 && written(plan.0[j])[k] == BufferId(nth_handle(n0, 1)))
        }),
{
    let plan = backward_plan(v, i, n0);
    assert forall|j: int, k: int| #![trigger written(plan.0[j])[k]] 0 <= j < plan.0.len() && 0 <= k < written(plan.0[j]).len()
        implies written(plan.0[j])[k] == BufferId(n0)
            || (plan.2 == 2 && written(plan.0[j])[k] == BufferId(nth_handle(n0, 1))) by {
        reveal_with_fuel(nth_handle, 2);
    }
}

/// The gradient step of an elementwise node `i`, with first fresh handle `n0`:
/// each gradient contribution gets a fresh buffer, filled by the elementwise
/// kernel with the code of that operation's derivative:
/// - `tanh`: unary code 8 on the node's output and gradient (`(1 - y^2) g`);
/// - `exp`: unary code 5 on the node's output and gradient (`y g`);
/// - `log`: unary code 6 on the input and the gradient (`g / x`);
/// - `sq`: unary code 13 on the input and the gradient (`2 x g`);
/// - `neg`: unary code 7 on the gradient (`-g`);
/// - reshape: unary code 9, a copy of the gradient;
/// - dropout: binary code 1, the mask times the gradient.
pub proof fn lemma_unary_gradient_kernels(v: Seq<NodeView>, i: int, n0: usize)
    requires
        0 <= i < v.len(),
        v[i].parents.len() >= 1,
    ensures
        ({
            let cur = v[i];
            let a = v[cur.parents[0] as int];
            let h0 = BufferId(n0);
            let plan = backward_plan(v, i, n0);
            let one_kernel = |inputs: Seq<BufferId>, len: usize, code: u32| (seq![
                Cmd::Create { buffer: h0, len, fill: Fill::Uninit },
                Cmd::Dispatch {
                    kernel: Kernel::Unary,
                    inputs,
                    outputs: seq![h0],
                    params: Params(len as u32, code, 0, 0),
                    groups: groups_of(len),
                },
            ], seq![h0], 1nat);
            &&& cur.op == Op::Tanh ==> plan == one_kernel(seq![cur.data, cur.grad], cur.len, 8)
            &&& cur.op == Op::Exp ==> plan == one_kernel(seq![cur.data, cur.grad], cur.len, 5)
            &&& cur.op == Op::Log ==> plan == one_kernel(seq![a.data, cur.grad], a.len, 6)
            &&& cur.op == Op::Sq ==> plan == one_kernel(seq![a.data, cur.grad], a.len, 13)
            &&& cur.op == Op::Neg ==> plan == one_kernel(seq![cur.grad, cur.grad], cur.len, 7)
            &&& cur.op == Op::Reshape ==> plan == one_kernel(seq![cur.grad, cur.grad], cur.len, 9)
            &&& cur.op == Op::Dropout ==> plan == (seq![
                Cmd::Create { buffer: h0, len: cur.len, fill: Fill::Uninit },
                Cmd::Dispatch {
                    kernel: Kernel::Binary,
                    inputs: seq![cur.saved[0], cur.grad],
                    outputs: seq![h0],
                    params: Params(cur.len as u32, 1, 0, 0),
                    groups: groups_of(cur.len),
                },
            ], seq![h0], 1nat)
        }),
{
}

/// The gradient step of a binary elementwise node `i`, with first fresh
/// handle `n0`: one fresh buffer per parent, in the order of the parents:
/// - `mul`: each starts as the node's gradient and is multiplied by the
///   other input (binary codes 3 and 4 on the two inputs);
/// - `max`: each starts as the node's gradient and is kept where its input
///   is the larger (binary codes 5 and 6 on the two inputs);
/// - addition: two copies of the gradient (unary code 9 each);
/// - subtraction: a copy of the gradient for the first input and its
///   negation (unary code 3) for the second.
pub proof fn lemma_binary_gradient_kernels(v: Seq<NodeView>, i: int, n0: usize)
    requires
        0 <= i < v.len(),
        v[i].parents.len() >= 2,
    ensures
        ({
            let cur = v[i];
            let a = v[cur.parents[0] as int];
            let b = v[cur.parents[1] as int];
            let h0 = BufferId(n0);
            let h1 = BufferId(nth_handle(n0, 1));
            let plan = backward_plan(v, i, n0);
            let pair = |c0: u32, c1: u32| (seq![
                Cmd::Create { buffer: h0, len: cur.len, fill: Fill::Uninit },
                Cmd::Create { buffer: h1, len: cur.len, fill: Fill::Uninit },
                Cmd::Copy { source: cur.grad, destination: h0, len: cur.len },
                Cmd::Copy { source: cur.grad, destination: h1, len: cur.len },
                Cmd::Dispatch {
                    kernel: Kernel::Binary,
                    inputs: seq![a.data, b.data],
                    outputs: seq![h0],
                    params: Params(cur.len as u32, c0, 0, 0),
                    groups: groups_of(cur.len),
                },
                Cmd::Dispatch {
                    kernel: Kernel::Binary,
                    inputs: seq![a.data, b.data],
                    outputs: seq![h1],
                    params: Params(cur.len as u32, c1, 0, 0),
                    groups: groups_of(cur.len),
                },
            ], seq![h0, h1], 2nat);
            let copy = |h: BufferId, code: u32| seq![
                Cmd::Create { buffer: h, len: cur.len, fill: Fill::Uninit },
                Cmd::Dispatch {
                    kernel: Kernel::Unary,
                    inputs: seq![cur.grad, cur.grad],
                    outputs: seq![h],
                    params: Params(cur.len as u32, code, 0, 0),
                    groups: groups_of(cur.len),
                },
            ];
            &&& cur.op == Op::Mul ==> plan == pair(3, 4)
            &&& cur.op == Op::Max ==> plan == pair(5, 6)
            &&& cur.op == Op::MatAdd ==> plan == (copy(h0, 9) + copy(h1, 9), seq![h0, h1], 2nat)
            &&& cur.op == Op::Sub ==> plan == (copy(h0, 9) + copy(h1, 3), seq![h0, h1], 2nat)
        }),
{
}

/// The product of two matrices `a` (`m` by `k`) and `b` (`k` by `n`) adds
/// one node, the product of `a` and `b` in that order, an `m` by `n` matrix,
/// whose data buffer is created and filled by the matrix-product kernel
/// reading `a`'s data then `b`'s, with the sizes `m`, `k`, `n` and no
/// transposition; then its gradient buffer is created.
pub proof fn lemma_matmul_matrices(old: &Pool, new: &Pool, t: Tensor, a: Tensor, b: Tensor)
    requires
        matmul_result(old, new, t, a, b),
        old.node(a).shape.len() == 2,
        old.node(b).shape.len() == 2,
    ensures
        ({
            let m = old.node(a).shape[0];
            let k = old.node(a).shape[1];
            let n = old.node(b).shape[1];
            let d = BufferId(old.gpu.next_id());
            &&& new.nodes@.len() == old.nodes@.len() + 1
            &&& t.0 == old.nodes@.len()
            &&& new.node(t).op == Op::MatMul
            &&& new.node(t).parents == seq![a.0, b.0]
            &&& new.node(t).shape == seq![m, n]
            &&& new.node(t).data == d
            &&& new.gpu.pending() == old.gpu.pending() + seq![
                Cmd::Create { buffer: d, len: (m * n) as usize, fill: Fill::Uninit },
                Cmd::Dispatch {
                    kernel: Kernel::Matmul,
                    inputs: seq![old.node(a).data, old.node(b).data],
                    outputs: seq![d],
                    params: Params(m as u32, k as u32, n as u32, 0),
                    groups: tile_groups(m, n),
                },
                Cmd::Create { buffer: BufferId(next_handle(old.gpu.next_id())), len: prod(seq![m, n]) as usize, fill: Fill::Uninit },
            ]
        }),
{
    let n0 = old.gpu.next_id();
    assert(nth_handle(n0, 0) == n0);
    let m = old.node(a).shape[0];
    let k = old.node(a).shape[1];
    let n = old.node(b).shape[1];
    assert(new.gpu.pending() =~= old.gpu.pending() + Seq::<Cmd>::empty() + Seq::<Cmd>::empty()
        + kernel_cmds(Kernel::Matmul, seq![old.node(a).data, old.node(b).data], BufferId(n0), (m * n) as usize,
            Params(m as u32, k as u32, n as u32, 0), tile_groups(m, n))
        + seq![create_uninit(BufferId(next_handle(n0)), prod(seq![m, n]))]);
}

/// The gradient step of a matrix product `a b` (`a` is `m` by `k`, `b` is
/// `k` by `n`) with first fresh handle `n0`: the contribution to `a` is the
/// node's gradient times `b` transposed (the product kernel on the gradient
/// and `b`'s data, flag 2: second operand transposed), an `m` by `k` matrix;
/// the contribution to `b` is `a` transposed times the gradient (on `a`'s
/// data and the gradient, flag 1: first operand transposed), `k` by `n`.
pub proof fn lemma_matmul_gradient(v: Seq<NodeView>, i: int, n0: usize)
    requires
        0 <= i < v.len(),
        v[i].op == Op::MatMul,
        v[i].parents.len() == 2,
    ensures
        ({
            let cur = v[i];
            let a = v[cur.parents[0] as int];
            let b = v[cur.parents[1] as int];
            let m = a.shape[0];
            let k = a.shape[1];
            let n = b.shape[1];
            let h0 = BufferId(n0);
            let h1 = BufferId(nth_handle(n0, 1));
            backward_plan(v, i, n0) == (seq![
                Cmd::Create { buffer: h0, len: a.len, fill: Fill::Uninit },
                Cmd::Dispatch {
                    kernel: Kernel::Matmul,
                    inputs: seq![cur.grad, b.data],
                    outputs: seq![h0],
                    params: Params(m as u32, n as u32, k as u32, 2),
                    groups: tile_groups(m, k),
                },
                Cmd::Create { buffer: h1, len: b.len, fill: Fill::Uninit },
                Cmd::Dispatch {
                    kernel: Kernel::Matmul,
                    inputs: seq![a.data, cur.grad],
                    outputs: seq![h1],
                    params: Params(k as u32, m as u32, n as u32, 1),
                    groups: tile_groups(k, n),
                },
            ], seq![h0, h1], 2nat)
        }),
{
}

/// The gradient steps only append work: what was planned before stays, in
/// order, at the front.
pub proof fn lemma_back_from_appends(s: BackState, i: int)
    ensures
        back_from(s, i).cmds.len() >= s.cmds.len(),
        back_from(s, i).cmds.subrange(0, s.cmds.len() as int) == s.cmds,
    decreases i + 1,
{
    if i >= 0 {
        lemma_back_step_appends(s, i);
        let s1 = back_step(s, i);
        lemma_back_from_appends(s1, i - 1);
        assert(back_from(s, i) == back_from(s1, i - 1));
        assert(back_from(s, i).cmds.subrange(0, s.cmds.len() as int)
            =~= back_from(s1, i - 1).cmds.subrange(0, s1.cmds.len() as int).subrange(0, s.cmds.len() as int));
    } else {
        assert(s.cmds.subrange(0, s.cmds.len() as int) =~= s.cmds);
    }
}

proof fn lemma_back_step_appends(s: BackState, i: int)
    ensures
        back_step(s, i).cmds.len() >= s.cmds.len(),
        back_step(s, i).cmds.subrange(0, s.cmds.len() as int) == s.cmds,
{
    if s.views[i].parents.len() == 0 {
        assert(s.cmds.subrange(0, s.cmds.len() as int) =~= s.cmds);
    } else {
        let plan = backward_plan(s.views, i, s.next);
        let s1 = BackState { views: s.views, next: nth_handle(s.next, plan.2), cmds: s.cmds + plan.0 };
        lemma_accumulate_appends(s1, i, plan.1, 0);
        assert(back_step(s, i).cmds.subrange(0, s.cmds.len() as int)
            =~= back_step(s, i).cmds.subrange(0, s1.cmds.len() as int).subrange(0, s.cmds.len() as int));
        assert(s1.cmds.subrange(0, s.cmds.len() as int) =~= s.cmds);
    }
}

proof fn lemma_accumulate_appends(s: BackState, i: int, contribs: Seq<BufferId>, slot: int)
    ensures
        accumulate(s, i, contribs, slot).cmds.len() >= s.cmds.len(),
        accumulate(s, i, contribs, slot).cmds.subrange(0, s.cmds.len() as int) == s.cmds,
    decreases contribs.len() - slot,
{
    if slot < 0 || slot >= contribs.len() {
        assert(s.cmds.subrange(0, s.cmds.len() as int) =~= s.cmds);
    } else {
        let p = s.views[i].parents[slot] as int;
        let pv = s.views[p];
        let acc = BufferId(s.next);
        let s1 = BackState {
            views: regrad(s.views, p, acc),
            next: next_handle(s.next),
            cmds: s.cmds + binary_cmds(pv.grad, contribs[slot], acc, pv.len, 0) + seq![
                Cmd::Release { buffer: pv.grad },
                Cmd::Release { buffer: contribs[slot] },
            ],
        };
        lemma_accumulate_appends(s1, i, contribs, slot + 1);
        let r = accumulate(s, i, contribs, slot);
        assert(r == accumulate(s1, i, contribs, slot + 1));
        assert(r.cmds.subrange(0, s.cmds.len() as int)
            =~= r.cmds.subrange(0, s1.cmds.len() as int).subrange(0, s.cmds.len() as int));
        assert(s1.cmds.subrange(0, s.cmds.len() as int) =~= s.cmds);
    }
}

/// Backpropagation from `root` first clears the gradient buffers of nodes
/// `0..=root`, in order, then sets the root's gradient to ones (the
/// elementwise kernel with code 10 reading the constant-one buffer), before
/// any gradient step.
pub proof fn lemma_backprop_begins(v: Seq<NodeView>, root: int, one: BufferId, n0: usize)
    requires
        0 <= root < v.len(),
    ensures
        backprop_result(v, root, one, n0).cmds.len() >= root + 2,
        forall|j: int| 0 <= j <= root ==> #[trigger] backprop_result(v, root, one, n0).cmds[j]
            == (Cmd::Clear { buffer: v[j].grad }),
        backprop_result(v, root, one, n0).cmds[root + 1] == (Cmd::Dispatch {
            kernel: Kernel::Unary,
            inputs: seq![one, one],
            outputs: seq![v[root].grad],
            params: Params(v[root].len as u32, 10, 0, 0),
            groups: groups_of(v[root].len),
        }),
{
    let clears = Seq::new((root + 1) as nat, |j: int| Cmd::Clear { buffer: v[j].grad });
    let seed = Cmd::Dispatch {
        kernel: Kernel::Unary,
        inputs: seq![one, one],
        outputs: seq![v[root].grad],
        params: Params(v[root].len as u32, 10, 0, 0),
        groups: groups_of(v[root].len),
    };
    let s0 = BackState { views: v, next: n0, cmds: clears.push(seed) };
    lemma_back_from_appends(s0, root);
    let r = backprop_result(v, root, one, n0);
    assert(r == back_from(s0, root));
    assert forall|j: int| 0 <= j <= root implies #[trigger] r.cmds[j] == (Cmd::Clear { buffer: v[j].grad }) by {
        assert(r.cmds.subrange(0, s0.cmds.len() as int)[j] == s0.cmds[j]);
    }
    assert(r.cmds.subrange(0, s0.cmds.len() as int)[root + 1] == s0.cmds[root + 1]);
}

/// When every node's buffers lie below the next handle and the next two
/// handles still lie below the top of `usize`, the gradient step of node `i`
/// writes none of the nodes' data, gradient or saved buffers, nor the
/// constant-one buffer.
pub proof fn lemma_backward_keeps_node_buffers(v: Seq<NodeView>, i: int, n0: usize, one: BufferId)
    requires
        0 <= i < v.len(),
        node_wf(v, i),
        v[i].op != Op::Leaf,
        n0 + 2 <= usize::MAX,
        one.0 < n0,
        forall|q: int| 0 <= q < v.len() ==> (#[trigger] v[q]).data.0 < n0 && v[q].grad.0 < n0
            && forall|s: int| 0 <= s < v[q].saved.len() ==> (#[trigger] v[q].saved[s]).0 < n0,
    ensures
        forall|j: int, k: int, q: int|
            #![trigger written(backward_plan(v, i, n0).0[j])[k], v[q]]
            0 <= j < backward_plan(v, i, n0).0.len() && 0 <= k < written(backward_plan(v, i, n0).0[j]).len()
                && 0 <= q < v.len()
            ==> written(backward_plan(v, i, n0).0[j])[k] != v[q].data
                && written(backward_plan(v, i, n0).0[j])[k] != v[q].grad
                && !v[q].saved.contains(written(backward_plan(v, i, n0).0[j])[k])
                && written(backward_plan(v, i, n0).0[j])[k] != one,
{
    lemma_backward_writes_fresh(v, i, n0);
    reveal_with_fuel(nth_handle, 2);
    assert(nth_handle(n0, 1) == n0 + 1);
    let plan = backward_plan(v, i, n0);
    assert forall|j: int, k: int, q: int|
        #![trigger written(backward_plan(v, i, n0).0[j])[k], v[q]]
        0 <= j < plan.0.len() && 0 <= k < written(plan.0[j]).len() && 0 <= q < v.len()
        implies written(plan.0[j])[k] != v[q].data
            && written(plan.0[j])[k] != v[q].grad
            && !v[q].saved.contains(written(plan.0[j])[k])
            && written(plan.0[j])[k] != one by {
        let w = written(plan.0[j])[k];
        assert(w.0 >= n0);
        if v[q].saved.contains(w) {
            let s = choose|s: int| 0 <= s < v[q].saved.len() && v[q].saved[s] == w;
            assert(v[q].saved[s].0 < n0);
        }
    }
}

} // verus!
