use vstd::prelude::*;
use crate::model::value::{Init, NodeSpec, Pool, ScalarOp, Value, kid, leaf, scalar_node_wf};

verus! {

/// A neuron: one weight per input and a bias, each a leaf of the graph.
pub struct Neuron {
    pub w: Vec<Value>,
    pub b: Value,
}

/// The number of input–weight products a neuron forms: inputs and weights
/// are paired up to the shorter of the two.
pub open spec fn pairs(x: Seq<Value>, w: Seq<Value>) -> nat {
    if x.len() < w.len() { x.len() } else { w.len() }
}

/// The running sum after `k` products, for a neuron whose nodes start at `base`.
pub open spec fn acc_at(b: Value, base: int, k: int) -> usize {
    if k == 0 { b.0 } else { (base + 2 * k - 1) as usize }
}

/// The nodes a neuron adds when called on `x`, starting at index `base`:
/// for each pair, the product `x[k] * w[k]` and then the running sum plus that
/// product (the sum starts at the bias); last, the `tanh` of the sum.
pub open spec fn neuron_nodes(x: Seq<Value>, w: Seq<Value>, b: Value, base: int) -> Seq<NodeSpec> {
    let n = pairs(x, w) as int;
    Seq::new((2 * n + 1) as nat, |j: int|
        if j == 2 * n {
            kid(ScalarOp::Tanh, seq![acc_at(b, base, n)])
        } else if j % 2 == 0 {
            kid(ScalarOp::Mul, seq![x[j / 2].0, w[j / 2].0])
        } else {
            kid(ScalarOp::Add, seq![acc_at(b, base, j / 2), (base + j - 1) as usize])
        })
}

impl Neuron {
    /// A neuron over `n_inputs` inputs; the host draws each weight and the
    /// bias uniformly from `[-1, 1)`.
    pub fn new(pool: &mut Pool, n_inputs: usize) -> (r: Neuron)
        requires
            old(pool).wf(),
        ensures
            final(pool).wf(),
            final(pool).param_end == old(pool).param_end,
            final(pool).views() == old(pool).views() + Seq::new((n_inputs + 1) as nat, |j: int| leaf(Init::Uniform)),
            final(pool).nodes@.len() == old(pool).nodes@.len() + n_inputs + 1,
            r.w@ == Seq::new(n_inputs as nat, |j: int| Value((old(pool).nodes@.len() + j) as usize)),
            r.b == Value((old(pool).nodes@.len() + n_inputs) as usize),
    {
        let ghost base = old(pool).nodes@.len();
        let mut w: Vec<Value> = Vec::new();
        for j in 0..n_inputs
            invariant
                pool.wf(),
                pool.param_end == old(pool).param_end,
                base == old(pool).nodes@.len(),
                pool.nodes@.len() == base + j,
                pool.views() == old(pool).views() + Seq::new(j as nat, |q: int| leaf(Init::Uniform)),
                w@ == Seq::new(j as nat, |q: int| Value((base + q) as usize)),
        {
            let v = pool.new_random();
            assert(pool.views() =~= old(pool).views() + Seq::new((j + 1) as nat, |q: int| leaf(Init::Uniform)));
            w.push(v);
            assert(w@ =~= Seq::new((j + 1) as nat, |q: int| Value((base + q) as usize)));
        }
        let b = pool.new_random();
        assert(pool.views() =~= old(pool).views() + Seq::new((n_inputs + 1) as nat, |q: int| leaf(Init::Uniform)));
        Neuron { w, b }
    }

    /// `tanh(b + x[0] * w[0] + x[1] * w[1] + ...)`, built as new nodes.
    pub fn call(&self, pool: &mut Pool, x: &[Value]) -> (r: Value)
        requires
            old(pool).wf(),
            old(pool).has(self.b),
            forall|k: int| 0 <= k < x@.len() ==> #[trigger] old(pool).has(x@[k]),
            forall|k: int| 0 <= k < self.w@.len() ==> #[trigger] old(pool).has(self.w@[k]),
        ensures
            final(pool).wf(),
            final(pool).param_end == old(pool).param_end,
            final(pool).views() == old(pool).views()
                + neuron_nodes(x@, self.w@, self.b, old(pool).nodes@.len() as int),
            r.0 == old(pool).nodes@.len() + 2 * pairs(x@, self.w@),
            final(pool).nodes@.len() == old(pool).nodes@.len() + 2 * pairs(x@, self.w@) + 1,
    {
        let ghost base = old(pool).nodes@.len() as int;
        let n = if x.len() < self.w.len() { x.len() } else { self.w.len() };
        let mut acc = self.b;
        assert forall|q: int| 0 <= q < x@.len() implies #[trigger] x@[q].0 < base by {
            assert(old(pool).has(x@[q]));
        }
        assert forall|q: int| 0 <= q < self.w@.len() implies #[trigger] self.w@[q].0 < base by {
            assert(old(pool).has(self.w@[q]));
        }
        for k in 0..n
            invariant
                n == pairs(x@, self.w@),
                base == old(pool).nodes@.len(),
                pool.wf(),
                pool.param_end == old(pool).param_end,
                pool.views() == old(pool).views() + neuron_nodes(x@, self.w@, self.b, base).take(2 * k),
                acc.0 == acc_at(self.b, base, k as int),
                pool.nodes@.len() == base + 2 * k,
                acc.0 < pool.nodes@.len(),
                forall|q: int| 0 <= q < x@.len() ==> #[trigger] x@[q].0 < base,
                forall|q: int| 0 <= q < self.w@.len() ==> #[trigger] self.w@[q].0 < base,
        {
            let m = pool.mul(x[k], self.w[k]);
            let s = pool.add(acc, m);
            proof {
                let nn = neuron_nodes(x@, self.w@, self.b, base);
                assert(nn[2 * k] == kid(ScalarOp::Mul, seq![x@[k as int].0, self.w@[k as int].0]));
                assert((2 * k + 1) / 2 == k);
                assert(nn[2 * k + 1] == kid(ScalarOp::Add, seq![acc_at(self.b, base, k as int), (base + 2 * k) as usize]));
                assert(nn.take(2 * k + 2) =~= nn.take(2 * k).push(nn[2 * k]).push(nn[2 * k + 1]));
                assert(pool.views() =~= old(pool).views() + nn.take(2 * (k + 1)));
            }
            acc = s;
        }
        let r = pool.tanh(acc);
        proof {
            let nn = neuron_nodes(x@, self.w@, self.b, base);
            assert(nn =~= nn.take(2 * n).push(nn[2 * n]));
            assert(pool.views() =~= old(pool).views() + nn);
        }
        r
    }
}

/// What a neuron call builds, read off the nodes it adds to the pool `old`
/// (giving `new`): for each pair `k`, a product of input `k` with weight `k`
/// (each input meets its own weight), then the sum of the running total
/// (starting at the bias) and that product; last, the `tanh` of the total.
pub proof fn lemma_neuron_call_graph(old: Seq<NodeSpec>, new: Seq<NodeSpec>, x: Seq<Value>, w: Seq<Value>, b: Value)
    requires
        new == old + neuron_nodes(x, w, b, old.len() as int),
    ensures
        new.len() == old.len() + 2 * pairs(x, w) + 1,
        forall|k: int| 0 <= k < pairs(x, w) ==> {
            &&& (#[trigger] new[old.len() + 2 * k]).op == ScalarOp::Mul
            &&& new[old.len() + 2 * k].parents == seq![x[k].0, w[k].0]
            &&& new[old.len() + 2 * k + 1].op == ScalarOp::Add
            &&& new[old.len() + 2 * k + 1].parents == seq![
                if k == 0 { b.0 } else { (old.len() + 2 * k - 1) as usize },
                (old.len() + 2 * k) as usize,
            ]
        },
        new[(old.len() + 2 * pairs(x, w)) as int].op == ScalarOp::Tanh,
        new[(old.len() + 2 * pairs(x, w)) as int].parents == seq![
            if pairs(x, w) == 0 { b.0 } else { (old.len() + 2 * pairs(x, w) - 1) as usize }
        ],
{
    let base = old.len() as int;
    let nn = neuron_nodes(x, w, b, base);
    assert forall|k: int| 0 <= k < pairs(x, w) implies {
        &&& (#[trigger] new[old.len() + 2 * k]).op == ScalarOp::Mul
        &&& new[old.len() + 2 * k].parents == seq![x[k].0, w[k].0]
        &&& new[old.len() + 2 * k + 1].op == ScalarOp::Add
        &&& new[old.len() + 2 * k + 1].parents == seq![
            if k == 0 { b.0 } else { (old.len() + 2 * k - 1) as usize },
            (old.len() + 2 * k) as usize,
        ]
    } by {
        assert(new[base + 2 * k] == nn[2 * k]);
        assert(new[base + 2 * k + 1] == nn[2 * k + 1]);
        assert((2 * k) / 2 == k);
        assert((2 * k + 1) / 2 == k);
        assert((2 * k) % 2 == 0);
        assert((2 * k + 1) % 2 == 1);
    }
    assert(new[base + 2 * pairs(x, w)] == nn[2 * pairs(x, w) as int]);
}

} // verus!
