use vstd::prelude::*;
use crate::gpu::gpu::{BufferId, Cmd, Fill, Kernel, Params, next_handle};
use crate::engine::tensor::{Op, leaf_view, prod};
use crate::engine::pool::{Pool, Tensor, groups_of};
use crate::engine::pool_ops::{adds_node, binary_cmds, binary_kind, create_uninit, kernel_cmds, unary_cmds, unary_kind};

verus! {

/// What adding a leaf over `shape` whose data buffer is created with `fill`
/// does to the pool (`upload`, `fill`, `new_rand`).
pub open spec fn leaf_result(old: &Pool, new: &Pool, t: Tensor, shape: Seq<usize>, fill: Fill) -> bool {
    let d = old.gpu.next_id();
    &&& new.wf()
    &&& new.extends(old, 1)
    &&& t.0 == old.nodes@.len()
    &&& new.node(t) == leaf_view(BufferId(d), BufferId(next_handle(d)), shape)
    &&& new.gpu.next_id() == next_handle(next_handle(d))
    &&& new.gpu.pending() == old.gpu.pending() + seq![
        Cmd::Create { buffer: BufferId(d), len: prod(shape) as usize, fill },
        Cmd::Create { buffer: BufferId(next_handle(d)), len: prod(shape) as usize, fill: Fill::Uninit },
    ]
}

/// What an elementwise operation `op` of one tensor does to the pool.
pub open spec fn unary_result(old: &Pool, new: &Pool, t: Tensor, a: Tensor, op: Op) -> bool {
    adds_node(old, new, t, old.node(a).shape, seq![a.0], op,
        unary_cmds(old.node(a).data, BufferId(old.gpu.next_id()), old.node(a).len, unary_kind(op)))
}

/// What an elementwise operation `op` of two tensors does to the pool.
pub open spec fn binary_result(old: &Pool, new: &Pool, t: Tensor, a: Tensor, b: Tensor, op: Op) -> bool {
    adds_node(old, new, t, old.node(a).shape, seq![a.0, b.0], op,
        binary_cmds(old.node(a).data, old.node(b).data, BufferId(old.gpu.next_id()), old.node(a).len, binary_kind(op)))
}

/// What `bias_add(a, bias)` does to the pool.
pub open spec fn bias_add_result(old: &Pool, new: &Pool, t: Tensor, a: Tensor, bias: Tensor) -> bool {
    let rows = old.node(a).shape[0];
    let cols = old.node(a).shape[1];
    adds_node(old, new, t, seq![rows, cols], seq![a.0, bias.0], Op::BiasAdd,
        kernel_cmds(Kernel::BiasAdd, seq![old.node(a).data, old.node(bias).data],
            BufferId(old.gpu.next_id()), (rows * cols) as usize,
            Params(rows as u32, cols as u32, 0, 0), groups_of((rows * cols) as usize)))
}

/// What `gather(values, labels)` does to the pool.
pub open spec fn gather_result(old: &Pool, new: &Pool, t: Tensor, values: Tensor, labels: Tensor) -> bool {
    let rows = old.node(labels).len;
    let cols = old.node(values).shape[1];
    adds_node(old, new, t, seq![rows], seq![values.0, labels.0], Op::Gather,
        kernel_cmds(Kernel::Gather, seq![old.node(values).data, old.node(labels).data],
            BufferId(old.gpu.next_id()), rows,
            Params(rows as u32, cols as u32, 0, 0), groups_of(rows)))
}

/// What `sum(a)` does to the pool.
pub open spec fn sum_result(old: &Pool, new: &Pool, t: Tensor, a: Tensor) -> bool {
    let rows = old.node(a).shape[0];
    let cols = old.node(a).shape[1];
    adds_node(old, new, t, seq![rows], seq![a.0], Op::Sum,
        kernel_cmds(Kernel::Sum, seq![old.node(a).data, old.node(a).data],
            BufferId(old.gpu.next_id()), rows,
            Params(rows as u32, cols as u32, 0, 0), groups_of(rows)))
}

/// What `div(a, b)` does to the pool.
pub open spec fn div_result(old: &Pool, new: &Pool, t: Tensor, a: Tensor, b: Tensor) -> bool {
    let rows = old.node(a).shape[0];
    let cols = old.node(a).shape[1];
    adds_node(old, new, t, old.node(a).shape, seq![a.0, b.0], Op::Div,
        kernel_cmds(Kernel::Div, seq![old.node(a).data, old.node(b).data],
            BufferId(old.gpu.next_id()), (rows * cols) as usize,
            Params(rows as u32, cols as u32, 0, 0), groups_of((rows * cols) as usize)))
}

/// What `sub_row_max(a)` does to the pool.
pub open spec fn sub_row_max_result(old: &Pool, new: &Pool, t: Tensor, a: Tensor) -> bool {
    let rows = old.node(a).shape[0];
    let cols = old.node(a).shape[1];
    adds_node(old, new, t, old.node(a).shape, seq![a.0], Op::SubRowMax,
        kernel_cmds(Kernel::SubRowMax, seq![old.node(a).data, old.node(a).data],
            BufferId(old.gpu.next_id()), (rows * cols) as usize,
            Params(rows as u32, cols as u32, 0, 0), groups_of(rows)))
}

/// The elementwise operations of one or two tensors add one node, the
/// operation of its inputs, whose data buffer is the first fresh handle,
/// created and filled by one dispatch of the elementwise kernel with the code
/// of that operation:
/// unary `tanh` 0, `exp` 1, `log` 2, `neg` 3, `sq` 12;
/// binary addition 0, `mul` 1, `max` 2, subtraction 7;
/// then the new node's gradient buffer is created.
pub proof fn lemma_elementwise_forward(old: &Pool, new: &Pool, t: Tensor, a: Tensor, b: Tensor, op: Op)
    ensures
        ({
            let d = BufferId(old.gpu.next_id());
            let g = BufferId(next_handle(old.gpu.next_id()));
            let an = old.node(a);
            let work = |inputs: Seq<BufferId>, kernel: Kernel, code: u32| seq![
                Cmd::Create { buffer: d, len: an.len, fill: Fill::Uninit },
                Cmd::Dispatch {
                    kernel,
                    inputs,
                    outputs: seq![d],
                    params: Params(an.len as u32, code, 0, 0),
                    groups: groups_of(an.len),
                },
                Cmd::Create { buffer: g, len: prod(an.shape) as usize, fill: Fill::Uninit },
            ];
            let code = |o: Op| if o == Op::Tanh { 0u32 } else if o == Op::Exp { 1u32 } else if o == Op::Log { 2u32 }
                else if o == Op::Neg { 3u32 } else { 12u32 };
            let bcode = |o: Op| if o == Op::MatAdd { 0u32 } else if o == Op::Mul { 1u32 } else if o == Op::Max { 2u32 }
                else { 7u32 };
            &&& unary_result(old, new, t, a, op)
                && (op == Op::Tanh || op == Op::Exp || op == Op::Log || op == Op::Neg || op == Op::Sq) ==> {
                &&& new.node(t).op == op
                &&& new.node(t).parents == seq![a.0]
                &&& new.node(t).data == d
                &&& new.gpu.pending() == old.gpu.pending() + work(seq![an.data, an.data], Kernel::Unary, code(op))
            }
            &&& binary_result(old, new, t, a, b, op)
                && (op == Op::MatAdd || op == Op::Mul || op == Op::Max || op == Op::Sub) ==> {
                &&& new.node(t).op == op
                &&& new.node(t).parents == seq![a.0, b.0]
                &&& new.node(t).data == d
                &&& new.gpu.pending() == old.gpu.pending()
                    + work(seq![an.data, old.node(b).data], Kernel::Binary, bcode(op))
            }
        }),
{
    let d = BufferId(old.gpu.next_id());
    let g = BufferId(next_handle(old.gpu.next_id()));
    let an = old.node(a);
    if unary_result(old, new, t, a, op) {
        assert(new.gpu.pending() =~= old.gpu.pending() + unary_cmds(an.data, d, an.len, unary_kind(op))
            + seq![create_uninit(g, prod(an.shape))]);
    }
    if binary_result(old, new, t, a, b, op) {
        assert(new.gpu.pending() =~= old.gpu.pending() + binary_cmds(an.data, old.node(b).data, d, an.len, binary_kind(op))
            + seq![create_uninit(g, prod(an.shape))]);
    }
}

} // verus!
