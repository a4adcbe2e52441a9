use vstd::prelude::*;
use crate::gpu::gpu::{BufferId, Cmd, Fill};
use crate::engine::tensor::{Op, lemma_single, prod};
use crate::engine::pool::{Pool, Tensor, div_ceil, groups_ok, node_wf};
use crate::engine::pool_ops::mean_result;
use crate::engine::results::{binary_result, gather_result, leaf_result, unary_result};

verus! {

/// The losses a model can be trained against.
#[derive(Clone, Copy, PartialEq, Eq, Structural, Debug)]
pub enum LossFunction {
    MSE,
    CrossEntropyLoss,
}

/// The bit pattern of the 32-bit float `1e-7`, the floor under predicted
/// probabilities before their logarithm is taken.
pub const PROB_FLOOR_BITS: u32 = 0x33D6_BF95u32;

/// The shapes and sizes that `mse(y_pred, labels)` needs: the two agree, and
/// the dispatches fit the device's workgroup counts.
pub open spec fn mse_ok(p: &Pool, y_pred: Tensor, labels: Tensor) -> bool {
    let n = p.node(y_pred);
    &&& n.shape == p.node(labels).shape
    &&& n.shape.len() >= 1
    &&& groups_ok(n.len)
    &&& n.shape.len() != 1 ==> groups_ok(n.shape[0])
}

/// The shapes and sizes that `cross_entropy_loss(y_pred, labels)` needs:
/// predictions are rows of class scores, and one label per row.
pub open spec fn cross_entropy_ok(p: &Pool, y_pred: Tensor, labels: Tensor) -> bool {
    &&& p.node(y_pred).shape.len() >= 2
    &&& groups_ok(p.node(labels).len)
}

/// What `mse(y_pred, labels)` does to the pool: the difference, its square,
/// the mean of that (per row for a matrix), and the mean of the means.
pub open spec fn mse_result(old: &Pool, new: &Pool, t: Tensor, y_pred: Tensor, labels: Tensor) -> bool {
    let l = old.nodes@.len();
    let diff = Tensor(l as usize);
    let sq = Tensor((l + 1) as usize);
    let row_mean = Tensor((l + 2) as usize);
    exists|p1: Pool, p2: Pool, p3: Pool|
        #[trigger] binary_result(old, &p1, diff, y_pred, labels, Op::Sub)
        && #[trigger] unary_result(&p1, &p2, sq, diff, Op::Sq)
        && #[trigger] mean_result(&p2, &p3, row_mean, sq)
        && mean_result(&p3, new, t, row_mean)
}

/// What `cross_entropy_loss(y_pred, labels)` does to the pool: the predicted
/// probability of each label, floored at `1e-7`, its logarithm, the mean of
/// those, negated.
pub open spec fn cross_entropy_result(old: &Pool, new: &Pool, t: Tensor, y_pred: Tensor, labels: Tensor) -> bool {
    let l = old.nodes@.len();
    let prob = Tensor(l as usize);
    let floor = Tensor((l + 1) as usize);
    let safe = Tensor((l + 2) as usize);
    let log = Tensor((l + 3) as usize);
    let mean = Tensor((l + 4) as usize);
    exists|p1: Pool, p2: Pool, p3: Pool, p4: Pool, p5: Pool|
        #[trigger] gather_result(old, &p1, prob, y_pred, labels)
        && #[trigger] leaf_result(&p1, &p2, floor, p1.node(prob).shape, Fill::Repeat(PROB_FLOOR_BITS))
        && #[trigger] binary_result(&p2, &p3, safe, prob, floor, Op::Max)
        && #[trigger] unary_result(&p3, &p4, log, safe, Op::Log)
        && #[trigger] mean_result(&p4, &p5, mean, log)
        && unary_result(&p5, new, t, mean, Op::Neg)
}

/// What the loss `f` of `y_pred` against `labels` does to the pool.
pub open spec fn loss_result(f: LossFunction, old: &Pool, new: &Pool, t: Tensor, y_pred: Tensor, labels: Tensor) -> bool {
    match f {
        LossFunction::MSE => mse_result(old, new, t, y_pred, labels),
        LossFunction::CrossEntropyLoss => cross_entropy_result(old, new, t, y_pred, labels),
    }
}

/// What the loss `f` needs of its arguments.
pub open spec fn loss_ok(f: LossFunction, p: &Pool, y_pred: Tensor, labels: Tensor) -> bool {
    match f {
        LossFunction::MSE => mse_ok(p, y_pred, labels),
        LossFunction::CrossEntropyLoss => cross_entropy_ok(p, y_pred, labels),
    }
}

impl LossFunction {
    /// The loss of `y_pred` against `labels`, as a one-element tensor.
    pub fn apply(&self, pool: &mut Pool, y_pred: Tensor, labels: Tensor) -> (t: Tensor)
        requires
            old(pool).wf(),
            old(pool).has(y_pred),
            old(pool).has(labels),
            loss_ok(*self, old(pool), y_pred, labels),
        ensures
            final(pool).wf(),
            loss_result(*self, old(pool), final(pool), t, y_pred, labels),
            final(pool).has(t),
            final(pool).nodes@.len() >= old(pool).nodes@.len(),
            forall|j: int| 0 <= j < old(pool).nodes@.len() ==> #[trigger] final(pool).nodes@[j]@ == old(pool).nodes@[j]@,
            final(pool).param_end == old(pool).param_end,
            final(pool).gpu.one == old(pool).gpu.one,
    {
        match self {
            LossFunction::MSE => mse(pool, y_pred, labels),
            LossFunction::CrossEntropyLoss => cross_entropy_loss(pool, y_pred, labels),
        }
    }
}

/// The mean squared error of `y_pred` against `labels`, averaged over each
/// row and then over the rows.
pub fn mse(pool: &mut Pool, y_pred: Tensor, labels: Tensor) -> (t: Tensor)
    requires
        old(pool).wf(),
        old(pool).has(y_pred),
        old(pool).has(labels),
        mse_ok(old(pool), y_pred, labels),
    ensures
        final(pool).wf(),
        mse_result(old(pool), final(pool), t, y_pred, labels),
        final(pool).extends(old(pool), 4),
        t.0 == old(pool).nodes@.len() + 3,
{
    let ghost p0 = *pool;
    proof { assert(node_wf(p0.views(), y_pred.0 as int)); }
    let sub = pool.sub(y_pred, labels);
    let ghost p1 = *pool;
    proof { assert(node_wf(p1.views(), sub.0 as int)); }
    let sq = pool.sq(sub);
    let ghost p2 = *pool;
    let mean_row = pool.mean(sq);
    let ghost p3 = *pool;
    proof { assert(node_wf(p3.views(), mean_row.0 as int)); }
    let loss = pool.mean(mean_row);
    assert(binary_result(&p0, &p1, sub, y_pred, labels, Op::Sub));
    assert(unary_result(&p1, &p2, sq, sub, Op::Sq));
    assert(sub == Tensor(p0.nodes@.len() as usize));
    assert(sq == Tensor((p0.nodes@.len() + 1) as usize));
    assert(mean_row == Tensor((p0.nodes@.len() + 2) as usize));
    assert(mse_result(&p0, pool, loss, y_pred, labels));
    loss
}

/// The cross-entropy of `y_pred` (rows of class probabilities) against the
/// class labels: the negated mean log probability of each row's label.
pub fn cross_entropy_loss(pool: &mut Pool, y_pred: Tensor, labels: Tensor) -> (t: Tensor)
    requires
        old(pool).wf(),
        old(pool).has(y_pred),
        old(pool).has(labels),
        cross_entropy_ok(old(pool), y_pred, labels),
    ensures
        final(pool).wf(),
        cross_entropy_result(old(pool), final(pool), t, y_pred, labels),
        final(pool).extends(old(pool), 6),
        t.0 == old(pool).nodes@.len() + 5,
{
    let ghost p0 = *pool;
    let y_prob = pool.gather(y_pred, labels);
    let ghost p1 = *pool;
    proof {
        assert(node_wf(p1.views(), y_prob.0 as int));
        lemma_single(p0.node(labels).len);
    }
    let shape = pool.nodes[y_prob.0].shape.clone();
    assert(shape@ =~= p1.node(y_prob).shape);
    let eps = pool.fill(shape, PROB_FLOOR_BITS);
    let ghost p2 = *pool;
    proof { assert(p2.node(y_prob) == p1.node(y_prob)); }
    let y_prob_safe = pool.max(y_prob, eps);
    let ghost p3 = *pool;
    proof { assert(node_wf(p3.views(), y_prob_safe.0 as int)); }
    let log = pool.log(y_prob_safe);
    let ghost p4 = *pool;
    proof { assert(node_wf(p4.views(), log.0 as int)); }
    let mean = pool.mean(log);
    let ghost p5 = *pool;
    proof {
        assert(node_wf(p5.views(), mean.0 as int));
        lemma_single(1);
        assert(div_ceil(1, 256) == 1);
    }
    let neg = pool.neg(mean);
    assert(gather_result(&p0, &p1, y_prob, y_pred, labels));
    assert(leaf_result(&p1, &p2, eps, p1.node(y_prob).shape, Fill::Repeat(PROB_FLOOR_BITS)));
    assert(binary_result(&p2, &p3, y_prob_safe, y_prob, eps, Op::Max));
    assert(unary_result(&p3, &p4, log, y_prob_safe, Op::Log));
    assert(unary_result(&p5, pool, neg, mean, Op::Neg));
    assert(y_prob == Tensor(p0.nodes@.len() as usize));
    assert(eps == Tensor((p0.nodes@.len() + 1) as usize));
    assert(y_prob_safe == Tensor((p0.nodes@.len() + 2) as usize));
    assert(log == Tensor((p0.nodes@.len() + 3) as usize));
    assert(mean == Tensor((p0.nodes@.len() + 4) as usize));
    assert(cross_entropy_result(&p0, pool, neg, y_pred, labels));
    neg
}

/// What the mean squared error builds on top of the pool `old`: four nodes,
/// in order the difference `y_pred - labels` (a subtraction, so the loss
/// vanishes when the predictions equal the labels), its square, the mean of
/// that, and the mean of the means, which is the loss `t`.
pub proof fn lemma_mse_graph(old: &Pool, new: &Pool, t: Tensor, y_pred: Tensor, labels: Tensor)
    requires
        mse_result(old, new, t, y_pred, labels),
    ensures
        new.nodes@.len() == old.nodes@.len() + 4,
        t.0 == old.nodes@.len() + 3,
        forall|j: int| 0 <= j < old.nodes@.len() ==> #[trigger] new.views()[j] == old.views()[j],
        new.views()[old.nodes@.len() as int].op == Op::Sub,
        new.views()[old.nodes@.len() as int].parents == seq![y_pred.0, labels.0],
        new.views()[old.nodes@.len() as int + 1].op == Op::Sq,
        new.views()[old.nodes@.len() as int + 1].parents == seq![old.nodes@.len() as usize],
        new.views()[old.nodes@.len() as int + 2].op == Op::Mean,
        new.views()[old.nodes@.len() as int + 2].parents == seq![(old.nodes@.len() + 1) as usize],
        new.views()[old.nodes@.len() as int + 3].op == Op::Mean,
        new.views()[old.nodes@.len() as int + 3].parents == seq![(old.nodes@.len() + 2) as usize],
{
    let l = old.nodes@.len() as int;
    let diff = Tensor(l as usize);
    let sq = Tensor((l + 1) as usize);
    let row_mean = Tensor((l + 2) as usize);
    let (p1, p2, p3) = choose|p1: Pool, p2: Pool, p3: Pool|
        #[trigger] binary_result(old, &p1, diff, y_pred, labels, Op::Sub)
        && #[trigger] unary_result(&p1, &p2, sq, diff, Op::Sq)
        && #[trigger] mean_result(&p2, &p3, row_mean, sq)
        && mean_result(&p3, new, t, row_mean);
    assert(new.nodes@[l as int]@ == p3.nodes@[l as int]@);
    assert(p3.nodes@[l as int]@ == p2.nodes@[l as int]@);
    assert(p2.nodes@[l as int]@ == p1.nodes@[l as int]@);
    assert(new.nodes@[l + 1]@ == p3.nodes@[l + 1]@);
    assert(p3.nodes@[l + 1]@ == p2.nodes@[l + 1]@);
    assert(new.nodes@[l + 2]@ == p3.nodes@[l + 2]@);
    assert forall|j: int| 0 <= j < l implies #[trigger] new.views()[j] == old.views()[j] by {
        assert(new.nodes@[j]@ == p3.nodes@[j]@);
        assert(p3.nodes@[j]@ == p2.nodes@[j]@);
        assert(p2.nodes@[j]@ == p1.nodes@[j]@);
        assert(p1.nodes@[j]@ == old.nodes@[j]@);
    }
}

/// What the cross-entropy loss builds on top of the pool `old`: six nodes, in
/// order the predicted probability of each row's label (a gather of
/// `y_pred` by `labels`), a leaf holding the floor `1e-7`, the larger of the
/// two, its logarithm, the mean of the logarithms, and its negation, which is
/// the loss `t`. The floor's buffer is created holding the float `1e-7`
/// (bit pattern `0x33D6_BF95`).
pub proof fn lemma_cross_entropy_graph(old: &Pool, new: &Pool, t: Tensor, y_pred: Tensor, labels: Tensor)
    requires
        cross_entropy_result(old, new, t, y_pred, labels),
    ensures
        new.nodes@.len() == old.nodes@.len() + 6,
        t.0 == old.nodes@.len() + 5,
        forall|j: int| 0 <= j < old.nodes@.len() ==> #[trigger] new.views()[j] == old.views()[j],
        new.views()[old.nodes@.len() as int].op == Op::Gather,
        new.views()[old.nodes@.len() as int].parents == seq![y_pred.0, labels.0],
        new.views()[old.nodes@.len() as int + 1].op == Op::Leaf,
        new.views()[old.nodes@.len() as int + 2].op == Op::Max,
        new.views()[old.nodes@.len() as int + 2].parents == seq![old.nodes@.len() as usize, (old.nodes@.len() + 1) as usize],
        new.views()[old.nodes@.len() as int + 3].op == Op::Log,
        new.views()[old.nodes@.len() as int + 3].parents == seq![(old.nodes@.len() + 2) as usize],
        new.views()[old.nodes@.len() as int + 4].op == Op::Mean,
        new.views()[old.nodes@.len() as int + 4].parents == seq![(old.nodes@.len() + 3) as usize],
        new.views()[old.nodes@.len() as int + 5].op == Op::Neg,
        new.views()[old.nodes@.len() as int + 5].parents == seq![(old.nodes@.len() + 4) as usize],
        (exists|k: int| 0 <= k < new.gpu.pending().len() && #[trigger] new.gpu.pending()[k] == (Cmd::Create {
            buffer: new.views()[old.nodes@.len() as int + 1].data,
            len: new.views()[old.nodes@.len() as int + 1].len,
            fill: Fill::Repeat(0x33D6_BF95u32),
        })),
{
    let l = old.nodes@.len() as int;
    let prob = Tensor(l as usize);
    let floor = Tensor((l + 1) as usize);
    let safe = Tensor((l + 2) as usize);
    let log = Tensor((l + 3) as usize);
    let mean = Tensor((l + 4) as usize);
    let (p1, p2, p3, p4, p5) = choose|p1: Pool, p2: Pool, p3: Pool, p4: Pool, p5: Pool|
        #[trigger] gather_result(old, &p1, prob, y_pred, labels)
        && #[trigger] leaf_result(&p1, &p2, floor, p1.node(prob).shape, Fill::Repeat(PROB_FLOOR_BITS))
        && #[trigger] binary_result(&p2, &p3, safe, prob, floor, Op::Max)
        && #[trigger] unary_result(&p3, &p4, log, safe, Op::Log)
        && #[trigger] mean_result(&p4, &p5, mean, log)
        && unary_result(&p5, new, t, mean, Op::Neg);
    assert forall|j: int| 0 <= j < l + 5 implies #[trigger] new.nodes@[j]@ == p5.nodes@[j]@ by {}
    assert forall|j: int| 0 <= j < l + 4 implies #[trigger] p5.nodes@[j]@ == p4.nodes@[j]@ by {}
    assert forall|j: int| 0 <= j < l + 3 implies #[trigger] p4.nodes@[j]@ == p3.nodes@[j]@ by {}
    assert forall|j: int| 0 <= j < l + 2 implies #[trigger] p3.nodes@[j]@ == p2.nodes@[j]@ by {}
    assert forall|j: int| 0 <= j < l + 1 implies #[trigger] p2.nodes@[j]@ == p1.nodes@[j]@ by {}
    assert forall|j: int| 0 <= j < l implies #[trigger] p1.nodes@[j]@ == old.nodes@[j]@ by {}
    assert forall|j: int| 0 <= j < l implies #[trigger] new.views()[j] == old.views()[j] by {
        assert(new.nodes@[j]@ == p5.nodes@[j]@);
        assert(p5.nodes@[j]@ == p4.nodes@[j]@);
        assert(p4.nodes@[j]@ == p3.nodes@[j]@);
        assert(p3.nodes@[j]@ == p2.nodes@[j]@);
        assert(p2.nodes@[j]@ == p1.nodes@[j]@);
    }
    assert(new.nodes@[l + 1]@ == p2.nodes@[l + 1]@) by {
        assert(new.nodes@[l + 1]@ == p5.nodes@[l + 1]@);
        assert(p5.nodes@[l + 1]@ == p4.nodes@[l + 1]@);
        assert(p4.nodes@[l + 1]@ == p3.nodes@[l + 1]@);
        assert(p3.nodes@[l + 1]@ == p2.nodes@[l + 1]@);
    }
    assert(new.nodes@[l as int]@ == p1.nodes@[l as int]@) by {
        assert(new.nodes@[l as int]@ == p5.nodes@[l as int]@);
        assert(p5.nodes@[l as int]@ == p4.nodes@[l as int]@);
        assert(p4.nodes@[l as int]@ == p3.nodes@[l as int]@);
        assert(p3.nodes@[l as int]@ == p2.nodes@[l as int]@);
        assert(p2.nodes@[l as int]@ == p1.nodes@[l as int]@);
    }
    assert(new.nodes@[l + 2]@ == p3.nodes@[l + 2]@) by {
        assert(new.nodes@[l + 2]@ == p5.nodes@[l + 2]@);
        assert(p5.nodes@[l + 2]@ == p4.nodes@[l + 2]@);
        assert(p4.nodes@[l + 2]@ == p3.nodes@[l + 2]@);
    }
    assert(new.nodes@[l + 3]@ == p4.nodes@[l + 3]@) by {
        assert(new.nodes@[l + 3]@ == p5.nodes@[l + 3]@);
        assert(p5.nodes@[l + 3]@ == p4.nodes@[l + 3]@);
    }
    assert(new.nodes@[l + 4]@ == p5.nodes@[l + 4]@);
    // The floor's creation stays in the planned work.
    let k = p1.gpu.pending().len() as int;
    assert(p2.gpu.pending()[k] == Cmd::Create {
        buffer: BufferId(p1.gpu.next_id()),
        len: prod(p1.node(prob).shape) as usize,
        fill: Fill::Repeat(PROB_FLOOR_BITS),
    });
    let c = p2.gpu.pending()[k];
    assert(p3.gpu.pending()[k] == c);
    assert(p4.gpu.pending()[k] == c);
    assert(p5.gpu.pending()[k] == c);
    assert(new.gpu.pending()[k] == c);
    assert(new.views()[l + 1] == p2.node(floor));
}

} // verus!
