use vstd::prelude::*;
use crate::model::value::{Init, NodeSpec, Pool, ScalarOp, Value, kid, leaf};
use crate::model::neuron::pairs;

verus! {

/// The running sum after `k` squared differences of a loss whose nodes start at `base`.
pub open spec fn loss_acc(base: int, k: int) -> usize {
    if k == 0 { base as usize } else { (base + 3 * k) as usize }
}

/// The nodes `mse_loss(ys, y_pred)` adds from index `base`: the zero the sum
/// starts at, then for each pair the difference, its square and the running
/// sum plus that square.
pub open spec fn mse_nodes(ys: Seq<Value>, y_pred: Seq<Value>, base: int) -> Seq<NodeSpec> {
    let n = pairs(ys, y_pred) as int;
    Seq::new((3 * n + 1) as nat, |j: int|
        if j == 0 {
            leaf(Init::Bits(0))
        } else if (j - 1) % 3 == 0 {
            kid(ScalarOp::Sub, seq![ys[(j - 1) / 3].0, y_pred[(j - 1) / 3].0])
        } else if (j - 1) % 3 == 1 {
            kid(ScalarOp::Pow2, seq![(base + j - 1) as usize])
        } else {
            kid(ScalarOp::Add, seq![loss_acc(base, (j - 1) / 3), (base + j - 1) as usize])
        })
}

/// The sum of the squared differences of `ys` and `y_pred`, built as new
/// nodes; pairs up to the shorter of the two.
pub fn mse_loss(pool: &mut Pool, ys: &[Value], y_pred: &[Value]) -> (r: Value)
    requires
        old(pool).wf(),
        forall|k: int| 0 <= k < ys@.len() ==> #[trigger] old(pool).has(ys@[k]),
        forall|k: int| 0 <= k < y_pred@.len() ==> #[trigger] old(pool).has(y_pred@[k]),
    ensures
        final(pool).wf(),
        final(pool).param_end == old(pool).param_end,
        final(pool).views() == old(pool).views() + mse_nodes(ys@, y_pred@, old(pool).nodes@.len() as int),
        r.0 == loss_acc(old(pool).nodes@.len() as int, pairs(ys@, y_pred@) as int),
{
    let ghost base = old(pool).nodes@.len() as int;
    assert forall|q: int| 0 <= q < ys@.len() implies #[trigger] ys@[q].0 < base by {
        assert(old(pool).has(ys@[q]));
    }
    assert forall|q: int| 0 <= q < y_pred@.len() implies #[trigger] y_pred@[q].0 < base by {
        assert(old(pool).has(y_pred@[q]));
    }
    let n = if ys.len() < y_pred.len() { ys.len() } else { y_pred.len() };
    let mut acc = pool.new_value(0);
    proof {
        let nn = mse_nodes(ys@, y_pred@, base);
        assert(pool.views() =~= old(pool).views() + nn.take(1));
    }
    for k in 0..n
        invariant
            n == pairs(ys@, y_pred@),
            base == old(pool).nodes@.len(),
            pool.wf(),
            pool.param_end == old(pool).param_end,
            pool.nodes@.len() == base + 3 * k + 1,
            pool.views() == old(pool).views() + mse_nodes(ys@, y_pred@, base).take(3 * k + 1),
            acc.0 == loss_acc(base, k as int),
            acc.0 < pool.nodes@.len(),
            forall|q: int| 0 <= q < ys@.len() ==> #[trigger] ys@[q].0 < base,
            forall|q: int| 0 <= q < y_pred@.len() ==> #[trigger] y_pred@[q].0 < base,
    {
        let diff = pool.sub(ys[k], y_pred[k]);
        let sq = pool.pow2(diff);
        let s = pool.add(acc, sq);
        proof {
            let nn = mse_nodes(ys@, y_pred@, base);
            assert((3 * k + 1 - 1) / 3 == k && (3 * k + 1 - 1) % 3 == 0);
            assert((3 * k + 2 - 1) / 3 == k && (3 * k + 2 - 1) % 3 == 1);
            assert((3 * k + 3 - 1) / 3 == k && (3 * k + 3 - 1) % 3 == 2);
            assert(nn.take(3 * k + 4) =~= nn.take(3 * k + 1).push(nn[3 * k + 1]).push(nn[3 * k + 2]).push(nn[3 * k + 3]));
            assert(pool.views() =~= old(pool).views() + nn.take(3 * (k + 1) + 1));
        }
        acc = s;
    }
    proof {
        let nn = mse_nodes(ys@, y_pred@, base);
        assert(nn.take(3 * n + 1) =~= nn);
    }
    acc
}

/// What `mse_loss` builds, read off the nodes it adds to the pool `old`
/// (giving `new`): first a zero leaf the sum starts at; then for each pair
/// `k`, the difference `ys[k] - y_pred[k]`, its square, and the running sum
/// plus that square.
pub proof fn lemma_mse_loss_graph(old: Seq<NodeSpec>, new: Seq<NodeSpec>, ys: Seq<Value>, y_pred: Seq<Value>)
    requires
        new == old + mse_nodes(ys, y_pred, old.len() as int),
    ensures
        new.len() == old.len() + 3 * pairs(ys, y_pred) + 1,
        new[old.len() as int] == leaf(Init::Bits(0)),
        forall|k: int| 0 <= k < pairs(ys, y_pred) ==> {
            &&& (#[trigger] new[old.len() + 3 * k + 1]).op == ScalarOp::Sub
            &&& new[old.len() + 3 * k + 1].parents == seq![ys[k].0, y_pred[k].0]
            &&& new[old.len() + 3 * k + 2].op == ScalarOp::Pow2
            &&& new[old.len() + 3 * k + 2].parents == seq![(old.len() + 3 * k + 1) as usize]
            &&& new[old.len() + 3 * k + 3].op == ScalarOp::Add
            &&& new[old.len() + 3 * k + 3].parents == seq![
                if k == 0 { old.len() as usize } else { (old.len() + 3 * k) as usize },
                (old.len() + 3 * k + 2) as usize,
            ]
        },
{
    let base = old.len() as int;
    let nn = mse_nodes(ys, y_pred, base);
    assert(new[base] == nn[0]);
    assert forall|k: int| 0 <= k < pairs(ys, y_pred) implies {
        &&& (#[trigger] new[old.len() + 3 * k + 1]).op == ScalarOp::Sub
        &&& new[old.len() + 3 * k + 1].parents == seq![ys[k].0, y_pred[k].0]
        &&& new[old.len() + 3 * k + 2].op == ScalarOp::Pow2
        &&& new[old.len() + 3 * k + 2].parents == seq![(old.len() + 3 * k + 1) as usize]
        &&& new[old.len() + 3 * k + 3].op == ScalarOp::Add
        &&& new[old.len() + 3 * k + 3].parents == seq![
            if k == 0 { old.len() as usize } else { (old.len() + 3 * k) as usize },
            (old.len() + 3 * k + 2) as usize,
        ]
    } by {
        assert(new[base + 3 * k + 1] == nn[3 * k + 1]);
        assert(new[base + 3 * k + 2] == nn[3 * k + 2]);
        assert(new[base + 3 * k + 3] == nn[3 * k + 3]);
        assert((3 * k + 1 - 1) % 3 == 0 && (3 * k + 1 - 1) / 3 == k);
        assert((3 * k + 2 - 1) % 3 == 1 && (3 * k + 2 - 1) / 3 == k);
        assert((3 * k + 3 - 1) % 3 == 2 && (3 * k + 3 - 1) / 3 == k);
    }
}

} // verus!
