use vstd::prelude::*;
use crate::gpu::gpu::{Cmd, Fill};
use crate::engine::tensor::{Op, lemma_single, prod};
use crate::engine::pool::{Pool, Tensor, groups_ok, node_wf};
use crate::engine::results::{
    binary_result, div_result, leaf_result, sub_row_max_result, sum_result, unary_result,
};

verus! {

/// The activation a layer applies to its outputs.
#[derive(Clone, Copy, PartialEq, Eq, Structural, Debug)]
pub enum Activation {
    Tanh,
    Relu,
    Softmax,
    NoActivation,
}

/// The sizes that applying `act` to `a` dispatches fit the device's workgroup
/// counts; softmax works on the rows of a matrix.
pub open spec fn activation_ok(act: Activation, p: &Pool, a: Tensor) -> bool {
    let n = p.node(a);
    match act {
        Activation::Tanh | Activation::Relu => groups_ok(n.len),
        Activation::Softmax => {
            &&& n.shape.len() >= 2
            &&& (n.shape[0] as nat) * (n.shape[1] as nat) <= usize::MAX
            &&& groups_ok(n.shape[0])
            &&& groups_ok((n.shape[0] * n.shape[1]) as usize)
            &&& groups_ok(n.len)
        },
        Activation::NoActivation => true,
    }
}

/// What `relu(a)` does to the pool: a tensor of zeros shaped like `a`, then the
/// elementwise maximum of `a` and those zeros.
pub open spec fn relu_result(old: &Pool, new: &Pool, t: Tensor, a: Tensor) -> bool {
    let z = Tensor(old.nodes@.len() as usize);
    exists|mid: Pool|
        #[trigger] leaf_result(old, &mid, z, old.node(a).shape, Fill::Repeat(0))
        && binary_result(&mid, new, t, a, z, Op::Max)
}

/// What `softmax(a)` does to the pool: each row minus its maximum, the
/// exponential of that, the row sums of the exponentials, and each
/// exponential divided by its row's sum.
pub open spec fn softmax_result(old: &Pool, new: &Pool, t: Tensor, a: Tensor) -> bool {
    let l = old.nodes@.len();
    let shifted = Tensor(l as usize);
    let exps = Tensor((l + 1) as usize);
    let sums = Tensor((l + 2) as usize);
    exists|p1: Pool, p2: Pool, p3: Pool|
        #[trigger] sub_row_max_result(old, &p1, shifted, a)
        && #[trigger] unary_result(&p1, &p2, exps, shifted, Op::Exp)
        && #[trigger] sum_result(&p2, &p3, sums, exps)
        && div_result(&p3, new, t, exps, sums)
}

/// What applying `act` to `a` does to the pool.
pub open spec fn activation_result(act: Activation, old: &Pool, new: &Pool, t: Tensor, a: Tensor) -> bool {
    match act {
        Activation::Tanh => unary_result(old, new, t, a, Op::Tanh),
        Activation::Relu => relu_result(old, new, t, a),
        Activation::Softmax => softmax_result(old, new, t, a),
        Activation::NoActivation => *new == *old && t == a,
    }
}

impl Activation {
    /// Applies the activation to `logits`.
    pub fn apply(&self, pool: &mut Pool, logits: Tensor) -> (t: Tensor)
        requires
            old(pool).wf(),
            old(pool).has(logits),
            activation_ok(*self, old(pool), logits),
        ensures
            final(pool).wf(),
            activation_result(*self, old(pool), final(pool), t, logits),
            final(pool).has(t),
            final(pool).node(t).shape == old(pool).node(logits).shape,
            final(pool).nodes@.len() >= old(pool).nodes@.len(),
            forall|j: int| 0 <= j < old(pool).nodes@.len() ==> #[trigger] final(pool).nodes@[j]@ == old(pool).nodes@[j]@,
            final(pool).param_end == old(pool).param_end,
            final(pool).gpu.one == old(pool).gpu.one,
    {
        match self {
            Activation::Tanh => pool.tanh(logits),
            Activation::Relu => relu(pool, logits),
            Activation::Softmax => softmax(pool, logits),
            Activation::NoActivation => logits,
        }
    }
}

/// `max(logits, 0)`, elementwise.
pub fn relu(pool: &mut Pool, logits: Tensor) -> (t: Tensor)
    requires
        old(pool).wf(),
        old(pool).has(logits),
        groups_ok(old(pool).node(logits).len),
    ensures
        final(pool).wf(),
        relu_result(old(pool), final(pool), t, logits),
        final(pool).extends(old(pool), 2),
        final(pool).node(t).shape == old(pool).node(logits).shape,
        t.0 == old(pool).nodes@.len() + 1,
{
    proof { assert(node_wf(pool.views(), logits.0 as int)); }
    let shape = pool.nodes[logits.0].shape.clone();
    assert(shape@ =~= old(pool).node(logits).shape);
    let zeros = pool.fill(shape, 0);
    let ghost mid = *pool;
    proof {
        assert(mid.node(logits) == old(pool).node(logits));
        assert(node_wf(mid.views(), zeros.0 as int));
    }
    let t = pool.max(logits, zeros);
    assert(leaf_result(old(pool), &mid, zeros, old(pool).node(logits).shape, Fill::Repeat(0)));
    assert(binary_result(&mid, pool, t, logits, zeros, Op::Max));
    assert(zeros == Tensor(old(pool).nodes@.len() as usize));
    assert(relu_result(old(pool), pool, t, logits));
    t
}

/// The softmax of each row of the matrix `logits`, computed from the row
/// minus its maximum so that the exponentials stay finite.
pub fn softmax(pool: &mut Pool, logits: Tensor) -> (t: Tensor)
    requires
        old(pool).wf(),
        old(pool).has(logits),
        activation_ok(Activation::Softmax, old(pool), logits),
    ensures
        final(pool).wf(),
        softmax_result(old(pool), final(pool), t, logits),
        final(pool).extends(old(pool), 4),
        final(pool).node(t).shape == old(pool).node(logits).shape,
        t.0 == old(pool).nodes@.len() + 3,
{
    let ghost p0 = *pool;
    proof { assert(node_wf(pool.views(), logits.0 as int)); }
    let safe_logits = pool.sub_row_max(logits);
    let ghost p1 = *pool;
    proof { assert(node_wf(p1.views(), safe_logits.0 as int)); }
    let exps = pool.exp(safe_logits);
    let ghost p2 = *pool;
    proof { assert(node_wf(p2.views(), exps.0 as int)); }
    let sum = pool.sum(exps);
    let ghost p3 = *pool;
    proof {
        assert(node_wf(p3.views(), sum.0 as int));
        lemma_single(p2.node(exps).shape[0]);
        assert(p3.node(exps) == p2.node(exps));
    }
    let t = pool.div(exps, sum);
    assert(sub_row_max_result(&p0, &p1, safe_logits, logits));
    assert(unary_result(&p1, &p2, exps, safe_logits, Op::Exp));
    assert(sum_result(&p2, &p3, sum, exps));
    assert(div_result(&p3, pool, t, exps, sum));
    assert(safe_logits == Tensor(p0.nodes@.len() as usize));
    assert(exps == Tensor((p0.nodes@.len() + 1) as usize));
    assert(sum == Tensor((p0.nodes@.len() + 2) as usize));
    assert(softmax_result(&p0, pool, t, logits));
    t
}

/// What ReLU builds on top of the pool `old`: a leaf shaped like `a` whose
/// buffer is created holding the float `+0.0` (bit pattern `0`), then the
/// elementwise maximum of `a` and that leaf, which is the result `t`; so
/// `relu(x)` is `x` where `x >= 0` and `0` elsewhere.
pub proof fn lemma_relu_graph(old: &Pool, new: &Pool, t: Tensor, a: Tensor)
    requires
        relu_result(old, new, t, a),
    ensures
        new.nodes@.len() == old.nodes@.len() + 2,
        t.0 == old.nodes@.len() + 1,
        forall|j: int| 0 <= j < old.nodes@.len() ==> #[trigger] new.views()[j] == old.views()[j],
        new.views()[old.nodes@.len() as int].op == Op::Leaf,
        new.views()[old.nodes@.len() as int].shape == old.node(a).shape,
        new.views()[old.nodes@.len() as int + 1].op == Op::Max,
        new.views()[old.nodes@.len() as int + 1].parents == seq![a.0, old.nodes@.len() as usize],
        old.gpu.pending().len() < new.gpu.pending().len(),
        new.gpu.pending()[old.gpu.pending().len() as int] == (Cmd::Create {
            buffer: new.views()[old.nodes@.len() as int].data,
            len: new.views()[old.nodes@.len() as int].len,
            fill: Fill::Repeat(0u32),
        }),
{
    let l = old.nodes@.len() as int;
    let z = Tensor(l as usize);
    let mid = choose|mid: Pool|
        #[trigger] leaf_result(old, &mid, z, old.node(a).shape, Fill::Repeat(0))
        && binary_result(&mid, new, t, a, z, Op::Max);
    assert forall|j: int| 0 <= j < l implies #[trigger] new.views()[j] == old.views()[j] by {
        assert(new.nodes@[j]@ == mid.nodes@[j]@);
        assert(mid.nodes@[j]@ == old.nodes@[j]@);
    }
    assert(new.nodes@[l]@ == mid.nodes@[l]@);
    let k = old.gpu.pending().len() as int;
    assert(mid.gpu.pending()[k] == new.gpu.pending()[k]);
}

/// What softmax builds on top of the pool `old`: four nodes, in order each
/// row of `a` minus its maximum, the exponential of that, the row sums of the
/// exponentials, and the exponentials divided by their row sums, which is the
/// result `t`.
pub proof fn lemma_softmax_graph(old: &Pool, new: &Pool, t: Tensor, a: Tensor)
    requires
        softmax_result(old, new, t, a),
    ensures
        new.nodes@.len() == old.nodes@.len() + 4,
        t.0 == old.nodes@.len() + 3,
        forall|j: int| 0 <= j < old.nodes@.len() ==> #[trigger] new.views()[j] == old.views()[j],
        new.views()[old.nodes@.len() as int].op == Op::SubRowMax,
        new.views()[old.nodes@.len() as int].parents == seq![a.0],
        new.views()[old.nodes@.len() as int + 1].op == Op::Exp,
        new.views()[old.nodes@.len() as int + 1].parents == seq![old.nodes@.len() as usize],
        new.views()[old.nodes@.len() as int + 2].op == Op::Sum,
        new.views()[old.nodes@.len() as int + 2].parents == seq![(old.nodes@.len() + 1) as usize],
        new.views()[old.nodes@.len() as int + 3].op == Op::Div,
        new.views()[old.nodes@.len() as int + 3].parents == seq![(old.nodes@.len() + 1) as usize, (old.nodes@.len() + 2) as usize],
{
    let l = old.nodes@.len() as int;
    let shifted = Tensor(l as usize);
    let exps = Tensor((l + 1) as usize);
    let sums = Tensor((l + 2) as usize);
    let (p1, p2, p3) = choose|p1: Pool, p2: Pool, p3: Pool|
        #[trigger] sub_row_max_result(old, &p1, shifted, a)
        && #[trigger] unary_result(&p1, &p2, exps, shifted, Op::Exp)
        && #[trigger] sum_result(&p2, &p3, sums, exps)
        && div_result(&p3, new, t, exps, sums);
    assert forall|j: int| 0 <= j < l implies #[trigger] new.views()[j] == old.views()[j] by {
        assert(new.nodes@[j]@ == p3.nodes@[j]@);
        assert(p3.nodes@[j]@ == p2.nodes@[j]@);
        assert(p2.nodes@[j]@ == p1.nodes@[j]@);
        assert(p1.nodes@[j]@ == old.nodes@[j]@);
    }
    assert(new.nodes@[l]@ == p3.nodes@[l]@);
    assert(p3.nodes@[l]@ == p2.nodes@[l]@);
    assert(p2.nodes@[l]@ == p1.nodes@[l]@);
    assert(new.nodes@[l + 1]@ == p3.nodes@[l + 1]@);
    assert(p3.nodes@[l + 1]@ == p2.nodes@[l + 1]@);
    assert(new.nodes@[l + 2]@ == p3.nodes@[l + 2]@);
}

/// Applying `tanh` adds one node, the `tanh` of `a`, which is the result `t`.
pub proof fn lemma_tanh_graph(old: &Pool, new: &Pool, t: Tensor, a: Tensor)
    requires
        activation_result(Activation::Tanh, old, new, t, a),
    ensures
        new.nodes@.len() == old.nodes@.len() + 1,
        t.0 == old.nodes@.len(),
        new.views()[t.0 as int].op == Op::Tanh,
        new.views()[t.0 as int].parents == seq![a.0],
{
}

} // verus!
