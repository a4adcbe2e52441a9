use vstd::prelude::*;
use crate::gpu::gpu::Fill;
use crate::engine::tensor::{Op, lemma_pair, lemma_single, prod};
use crate::engine::fresh::{
    fresh_step, lemma_activation_fresh, lemma_dropout_fresh, lemma_fresh_refl, lemma_fresh_trans, lemma_matmul_fresh,
    lemma_ops_fresh,
};
use crate::engine::pool::{Pool, Tensor, groups_ok, node_wf};
use crate::engine::pool_ops::{col_shape, dropout_rate_ok, dropout_result, matmul_result, row_shape};
use crate::engine::results::{bias_add_result, leaf_result};
use crate::primitives::activation::{Activation, activation_ok, activation_result};
use crate::gpu::gpu::{BufferId, Cmd, lemma_nth_handle_exact, nth_handle};
use crate::engine::optimizer::{AdamOptimizer, B1_BITS, B2_BITS, OptView, Optimizer, OptimizerData, SGD};
use crate::engine::tensor::NodeView;
use crate::hyperparameters::MlpHyperparameters;

verus! {

/// A dense layer: an `n_inputs` by `n_outputs` weight matrix and a bias vector.
#[derive(Clone, Copy, PartialEq, Eq, Structural, Debug)]
pub struct Layer {
    pub w: Tensor,
    pub b: Tensor,
}

/// The shape of an `r` by `c` matrix.
pub open spec fn matrix_shape(r: usize, c: usize) -> Seq<usize> {
    seq![r, c]
}

/// `l` is a layer of `p` from `n_in` inputs to `n_out` outputs.
pub open spec fn layer_fits(p: &Pool, l: Layer, n_in: usize, n_out: usize) -> bool {
    &&& p.has(l.w)
    &&& p.has(l.b)
    &&& p.node(l.w).shape == seq![n_in, n_out]
    &&& p.node(l.b).shape == seq![n_out]
}

/// The sizes that calling a layer with `n_out` outputs on `x` needs: the
/// product of `x` (a vector taken as a row) with the weights, and every
/// kernel over that product, fit the device's workgroup counts.
pub open spec fn layer_call_ok(p: &Pool, x: Tensor, n_in: usize, n_out: usize, act: Activation, rate_bits: u32) -> bool {
    let s = p.node(x).shape;
    let m = row_shape(s)[0];
    &&& s.len() >= 1
    &&& s.len() == 1 ==> groups_ok(p.node(x).len)
    &&& row_shape(s)[1] == n_in
    &&& (m as nat) * (n_out as nat) <= usize::MAX
    &&& groups_ok((m * n_out) as usize)
    &&& act == Activation::Softmax ==> groups_ok(m)
    &&& dropout_rate_ok(rate_bits)
}

/// What calling layer `l` on `x` does to the pool: the product with the
/// weights, the bias added, the activation, and dropout at the given rate with
/// some mask seed.
pub open spec fn layer_call_result(l: Layer, act: Activation, rate_bits: u32, old: &Pool, new: &Pool, x: Tensor, t: Tensor) -> bool {
    exists|p1: Pool, p2: Pool, p3: Pool, c: Tensor, z: Tensor, y: Tensor, seed: u32|
        #[trigger] matmul_result(old, &p1, c, x, l.w)
        && #[trigger] bias_add_result(&p1, &p2, z, c, l.b)
        && #[trigger] activation_result(act, &p2, &p3, y, z)
        && #[trigger] dropout_result(&p3, new, t, y, rate_bits, seed)
}

/// What making a layer from `n_in` to `n_out` does to the pool: random
/// weights, then a zero bias.
pub open spec fn layer_new_result(old: &Pool, new: &Pool, l: Layer, n_in: usize, n_out: usize) -> bool {
    exists|mid: Pool|
        #[trigger] leaf_result(old, &mid, l.w, matrix_shape(n_in, n_out), Fill::Random)
        && leaf_result(&mid, new, l.b, seq![n_out], Fill::Repeat(0))
}

impl Layer {
    /// A layer from `n_inputs` to `n_layers` outputs: random weights, then a
    /// zero bias.
    pub fn new(pool: &mut Pool, n_inputs: usize, n_layers: usize) -> (r: Layer)
        requires
            old(pool).wf(),
            (n_inputs as nat) * (n_layers as nat) <= usize::MAX,
        ensures
            final(pool).wf(),
            final(pool).extends(old(pool), 2),
            r.w.0 == old(pool).nodes@.len(),
            r.b.0 == old(pool).nodes@.len() + 1,
            layer_fits(final(pool), r, n_inputs, n_layers),
            layer_new_result(old(pool), final(pool), r, n_inputs, n_layers),
    {
        proof {
            lemma_pair(n_inputs, n_layers);
            lemma_single(n_layers);
        }
        let mut ws: Vec<usize> = Vec::new();
        ws.push(n_inputs);
        ws.push(n_layers);
        assert(ws@ =~= seq![n_inputs, n_layers]);
        let w = pool.new_rand(ws);
        let ghost mid = *pool;
        let mut bs: Vec<usize> = Vec::new();
        bs.push(n_layers);
        assert(bs@ =~= seq![n_layers]);
        let b = pool.fill(bs, 0);
        assert(leaf_result(old(pool), &mid, w, matrix_shape(n_inputs, n_layers), Fill::Random));
        assert(leaf_result(&mid, pool, b, seq![n_layers], Fill::Repeat(0)));
        Layer { w, b }
    }

    /// `dropout(activation(x @ w + b))`.
    pub fn call(&self, pool: &mut Pool, x: Tensor, activation: &Activation, dropout_rate_bits: u32) -> (t: Tensor)
        requires
            old(pool).wf(),
            old(pool).has(x),
            layer_fits(old(pool), *self, old(pool).node(self.w).shape[0], old(pool).node(self.w).shape[1]),
            layer_call_ok(old(pool), x, old(pool).node(self.w).shape[0], old(pool).node(self.w).shape[1],
                *activation, dropout_rate_bits),
        ensures
            final(pool).wf(),
            layer_call_result(*self, *activation, dropout_rate_bits, old(pool), final(pool), x, t),
            final(pool).has(t),
            final(pool).node(t).shape
                == seq![row_shape(old(pool).node(x).shape)[0], old(pool).node(self.w).shape[1]],
            final(pool).nodes@.len() > old(pool).nodes@.len(),
            forall|j: int| 0 <= j < old(pool).nodes@.len() ==> #[trigger] final(pool).nodes@[j]@ == old(pool).nodes@[j]@,
            final(pool).param_end == old(pool).param_end,
            final(pool).gpu.one == old(pool).gpu.one,
    {
        let ghost p0 = *pool;
        let ghost m = row_shape(p0.node(x).shape)[0];
        let ghost o = p0.node(self.w).shape[1];
        let c = pool.matmul(x, self.w);
        let ghost p1 = *pool;
        proof {
            assert(p1.node(self.b) == p0.node(self.b));
            assert(p1.node(c).shape == seq![m, o]);
        }
        let z = pool.bias_add(c, self.b);
        let ghost p2 = *pool;
        proof {
            lemma_pair(m, o);
            assert(node_wf(p2.views(), z.0 as int));
            assert(p2.node(z).shape == seq![m, o]);
            assert(p2.node(z).len == m * o);
        }
        let y = activation.apply(pool, z);
        let ghost p3 = *pool;
        proof {
            assert(node_wf(p3.views(), y.0 as int));
            assert(p3.node(y).len == m * o);
        }
        let t = pool.dropout(y, dropout_rate_bits);
        proof {
            let seed = choose|seed: u32| dropout_result(&p3, pool, t, y, dropout_rate_bits, seed);
            assert(matmul_result(&p0, &p1, c, x, self.w));
            assert(bias_add_result(&p1, &p2, z, c, self.b));
            assert(activation_result(*activation, &p2, &p3, y, z));
            assert(dropout_result(&p3, pool, t, y, dropout_rate_bits, seed));
        }
        t
    }

    /// The layer's parameters: the weights, then the bias.
    pub fn parameters(&self) -> (r: Vec<Tensor>)
        ensures
            r@ == seq![self.w, self.b],
    {
        let mut r: Vec<Tensor> = Vec::new();
        r.push(self.w);
        r.push(self.b);
        assert(r@ =~= seq![self.w, self.b]);
        r
    }
}


/// The widths of a model's layers, inputs first.
pub open spec fn dims(hp: &MlpHyperparameters) -> Seq<usize> {
    seq![hp.n_inputs] + hp.n_layers@
}

/// Every layer's weight matrix fits a `usize`, and the update kernel over
/// each parameter fits the device's workgroup counts.
pub open spec fn dims_ok(d: Seq<usize>) -> bool {
    forall|i: int| 0 <= i < d.len() - 1 ==> {
        &&& (#[trigger] d[i] as nat) * (d[i + 1] as nat) <= usize::MAX
        &&& groups_ok((d[i] * d[i + 1]) as usize)
        &&& groups_ok(d[i + 1])
    }
}

/// The creation of the Adam moment buffers for the parameters `0..k`: two
/// zeroed buffers per parameter, the first fresh handle being `n0`.
pub open spec fn adam_init_cmds(v: Seq<NodeView>, n0: usize, k: nat) -> Seq<Cmd>
    decreases k,
{
    if k == 0 {
        Seq::empty()
    } else {
        let j = (k - 1) as nat;
        adam_init_cmds(v, n0, j) + seq![
            Cmd::Create { buffer: BufferId(nth_handle(n0, 2 * j)), len: v[j as int].len, fill: Fill::Zeroed },
            Cmd::Create { buffer: BufferId(nth_handle(n0, 2 * j + 1)), len: v[j as int].len, fill: Fill::Zeroed },
        ]
    }
}

/// The fresh Adam state of parameter `j`, whose moment buffers were made from
/// handle `n0` on.
pub open spec fn adam_init(lr_bits: u32, n0: usize, j: int) -> AdamOptimizer {
    AdamOptimizer {
        lr_bits,
        b1_bits: B1_BITS,
        b2_bits: B2_BITS,
        t: 0,
        m: BufferId(nth_handle(n0, (2 * j) as nat)),
        v: BufferId(nth_handle(n0, (2 * j + 1) as nat)),
    }
}

/// A multilayer perceptron: its layers, the pool that holds their parameters
/// (and, during a step, the graph of that step), its settings and the state
/// of its optimizer.
pub struct MLP {
    pub pool: Pool,
    pub layers: Vec<Layer>,
    pub hyperparameters: MlpHyperparameters,
    pub optimizer_data: OptimizerData,
}

impl MLP {
    /// The parameters are the first nodes of the pool, the weights and bias of
    /// layer `i` at `2 i` and `2 i + 1`, shaped by the layer widths; the
    /// optimizer state is the one the settings name.
    pub open spec fn wf(&self) -> bool {
        let d = dims(&self.hyperparameters);
        let n = self.layers@.len();
        &&& self.pool.wf()
        &&& n == self.hyperparameters.n_layers@.len()
        &&& dims_ok(d)
        &&& self.pool.param_end == 2 * n
        &&& forall|i: int| 0 <= i < n ==> {
            &&& (#[trigger] self.layers@[i]).w.0 == 2 * i
            &&& self.layers@[i].b.0 == 2 * i + 1
            &&& layer_fits(&self.pool, self.layers@[i], d[i], d[i + 1])
        }
        &&& match self.optimizer_data@ {
            OptView::Sgd(lr) => self.hyperparameters.optimizer == Optimizer::SGD && lr == self.hyperparameters.lr_bits,
            OptView::Adam(os) => self.hyperparameters.optimizer == Optimizer::AdamOptimizer && os.len() == 2 * n,
        }
    }

    /// A model with the given settings: each layer's random weights and zero
    /// bias, in order, become the parameters; then the optimizer state (for
    /// Adam, zeroed moment buffers for each parameter in order).
    pub fn new(hyperparameters: MlpHyperparameters) -> (r: MLP)
        requires
            dims_ok(dims(&hyperparameters)),
        ensures
            r.wf(),
            r.hyperparameters == hyperparameters,
            exists|pools: Seq<Pool>| {
                &&& pools.len() == r.layers@.len() + 1
                &&& pools[0].nodes@.len() == 0
                &&& pools[0].gpu.one == BufferId(0)
                &&& pools[0].gpu.next_id() == 1
                &&& pools[0].gpu.pending() == seq![Cmd::Create { buffer: BufferId(0), len: 1, fill: Fill::Count(1) }]
                &&& forall|i: int| 0 <= i < r.layers@.len() ==> #[trigger] layer_new_result(
                    &pools[i], &pools[i + 1], r.layers@[i], dims(&hyperparameters)[i], dims(&hyperparameters)[i + 1])
                &&& r.pool.views() == pools.last().views()
                &&& r.pool.gpu.one == BufferId(0)
                &&& match hyperparameters.optimizer {
                    Optimizer::SGD => {
                        &&& r.optimizer_data@ == OptView::Sgd(hyperparameters.lr_bits)
                        &&& r.pool.gpu.pending() == pools.last().gpu.pending()
                        &&& r.pool.gpu.next_id() == pools.last().gpu.next_id()
                    },
                    Optimizer::AdamOptimizer => {
                        let n0 = pools.last().gpu.next_id();
                        let k = 2 * r.layers@.len();
                        &&& r.optimizer_data@ == OptView::Adam(Seq::new(k, |j: int| adam_init(hyperparameters.lr_bits, n0, j)))
                        &&& r.pool.gpu.pending() == pools.last().gpu.pending() + adam_init_cmds(r.pool.views(), n0, k)
                        &&& r.pool.gpu.next_id() == nth_handle(n0, 2 * k)
                    },
                }
            },
    {
        let mut pool = Pool::new();
        let ghost d = dims(&hyperparameters);
        let n = hyperparameters.n_layers.len();
        let ghost mut pools: Seq<Pool> = seq![pool];
        let mut layers: Vec<Layer> = Vec::new();
        for i in 0..n
            invariant
                n == hyperparameters.n_layers@.len(),
                d == dims(&hyperparameters),
                d.len() == n + 1,
                dims_ok(d),
                pool.wf(),
                pool.param_end == 0,
                pool.gpu.one == BufferId(0),
                pool.nodes@.len() == 2 * i,
                layers@.len() == i,
                pools.len() == i + 1,
                pools[0].nodes@.len() == 0,
                pools[0].gpu.one == BufferId(0),
                pools[0].gpu.next_id() == 1,
                pools[0].gpu.pending() == seq![Cmd::Create { buffer: BufferId(0), len: 1, fill: Fill::Count(1) }],
                pools.last() == pool,
                forall|q: int| 0 <= q < i ==> #[trigger] layer_new_result(&pools[q], &pools[q + 1], layers@[q], d[q], d[q + 1]),
                forall|q: int| 0 <= q < i ==> {
                    &&& (#[trigger] layers@[q]).w.0 == 2 * q
                    &&& layers@[q].b.0 == 2 * q + 1
                    &&& layer_fits(&pool, layers@[q], d[q], d[q + 1])
                },
        {
            let n_in = if i == 0 { hyperparameters.n_inputs } else { hyperparameters.n_layers[i - 1] };
            let n_out = hyperparameters.n_layers[i];
            assert(n_in == d[i as int] && n_out == d[i + 1]);
            assert((d[i as int] as nat) * (d[i + 1] as nat) <= usize::MAX);
            let ghost before = pool;
            let l = Layer::new(&mut pool, n_in, n_out);
            proof {
                pools = pools.push(pool);
                assert forall|q: int| 0 <= q < i implies layer_fits(&pool, #[trigger] layers@[q], d[q], d[q + 1]) by {
                    assert(layer_fits(&before, layers@[q], d[q], d[q + 1]));
                }
            }
            layers.push(l);
        }
        pool.set_param_end();
        let ghost built = pool;
        let optimizer_data = match hyperparameters.optimizer {
            Optimizer::SGD => OptimizerData::SGD(SGD::new(hyperparameters.lr_bits)),
            Optimizer::AdamOptimizer => {
                let ghost n0 = pool.gpu.next_id();
                let k = pool.nodes.len();
                let mut opts: Vec<AdamOptimizer> = Vec::new();
                for j in 0..k
                    invariant
                        k == pool.nodes@.len(),
                        pool.nodes == built.nodes,
                        pool.param_end == built.param_end,
                        pool.gpu.one == built.gpu.one,
                        n0 == built.gpu.next_id(),
                        pool.gpu.next_id() == nth_handle(n0, 2 * j as nat),
                        n0 <= pool.gpu.next_id(),
                        pool.gpu.pending() == built.gpu.pending() + adam_init_cmds(built.views(), n0, j as nat),
                        opts@ == Seq::new(j as nat, |q: int| adam_init(hyperparameters.lr_bits, n0, q)),
                {
                    let len = pool.nodes[j].len;
                    let o = AdamOptimizer::new(hyperparameters.lr_bits, &mut pool.gpu, len);
                    proof {
                        reveal_with_fuel(nth_handle, 3);
                        assert(nth_handle(n0, (2 * j + 1) as nat) == crate::gpu::gpu::next_handle(nth_handle(n0, (2 * j) as nat)));
                        assert(nth_handle(n0, (2 * j + 2) as nat) == crate::gpu::gpu::next_handle(nth_handle(n0, (2 * j + 1) as nat)));
                        assert(built.views()[j as int].len == len);
                        assert(pool.gpu.pending() =~= built.gpu.pending() + adam_init_cmds(built.views(), n0, (j + 1) as nat));
                        lemma_nth_handle_exact(n0, (2 * j + 2) as nat);
                    }
                    opts.push(o);
                    assert(opts@ =~= Seq::new((j + 1) as nat, |q: int| adam_init(hyperparameters.lr_bits, n0, q)));
                }
                OptimizerData::Adam(opts)
            },
        };
        let r = MLP { pool, layers, hyperparameters, optimizer_data };
        proof {
            assert(r.pool.views() == built.views());
            r.pool.lemma_wf_grows(&built);
            assert forall|i: int| 0 <= i < r.layers@.len() implies {
                &&& (#[trigger] r.layers@[i]).w.0 == 2 * i
                &&& r.layers@[i].b.0 == 2 * i + 1
                &&& layer_fits(&r.pool, r.layers@[i], d[i], d[i + 1])
            } by {
                assert(layer_fits(&built, r.layers@[i], d[i], d[i + 1]));
            }
        }
        r
    }
}


/// The activation of layer `i` of `n`: the output activation on the last
/// layer, the hidden activation on the others.
pub open spec fn layer_activation(hp: &MlpHyperparameters, i: int, n: int) -> Activation {
    if i == n - 1 { hp.output_activation } else { hp.hidden_activation }
}

/// The dropout rate of layer `i` of `n`: none on the last layer.
pub open spec fn layer_rate(hp: &MlpHyperparameters, i: int, n: int) -> u32 {
    if i == n - 1 { 0u32 } else { hp.dropout_rate_bits }
}

/// Layer `i` of `n` uses the hidden activation and the model's dropout rate,
/// except the last layer, which uses the output activation and no dropout.
pub proof fn lemma_layer_settings(hp: &MlpHyperparameters, i: int, n: int)
    requires
        0 <= i < n,
    ensures
        i < n - 1 ==> layer_activation(hp, i, n) == hp.hidden_activation
            && layer_rate(hp, i, n) == hp.dropout_rate_bits,
        i == n - 1 ==> layer_activation(hp, i, n) == hp.output_activation
            && layer_rate(hp, i, n) == 0,
{
}

/// The sizes that a forward pass of `x` through the model needs: `x` (a
/// vector taken as a row) has as many columns as the model has inputs, and
/// every layer's kernels over the rows of `x` fit the device's workgroup counts.
pub open spec fn forward_ok(m: &MLP, x: Tensor) -> bool {
    let s = m.pool.node(x).shape;
    let rows = row_shape(s)[0];
    let d = dims(&m.hyperparameters);
    let n = m.layers@.len() as int;
    &&& m.pool.has(x)
    &&& s.len() >= 1
    &&& s.len() == 1 ==> groups_ok(m.pool.node(x).len)
    &&& row_shape(s)[1] == d[0]
    &&& forall|i: int| 0 <= i < n ==> {
        &&& (rows as nat) * (#[trigger] d[i + 1] as nat) <= usize::MAX
        &&& groups_ok((rows * d[i + 1]) as usize)
        &&& layer_activation(&m.hyperparameters, i, n) == Activation::Softmax ==> groups_ok(rows)
    }
    &&& n > 1 ==> dropout_rate_ok(m.hyperparameters.dropout_rate_bits)
}

/// What a forward pass of `x` through `layers` does to the pool: each layer
/// called in turn on the previous one's output.
pub open spec fn forward_result(layers: Seq<Layer>, hp: &MlpHyperparameters, old: &Pool, new: &Pool, x: Tensor, t: Tensor) -> bool {
    let n = layers.len() as int;
    exists|pools: Seq<Pool>, outs: Seq<Tensor>| {
        &&& pools.len() == n + 1
        &&& outs.len() == n + 1
        &&& pools[0] == *old
        &&& pools[n] == *new
        &&& outs[0] == x
        &&& outs[n] == t
        &&& forall|i: int| 0 <= i < n ==> #[trigger] layer_call_result(layers[i], layer_activation(hp, i, n),
            layer_rate(hp, i, n), &pools[i], &pools[i + 1], outs[i], outs[i + 1])
    }
}

/// Calling layer `l` on a matrix `x` adds, on top of the pool `old`, the
/// product of `x` with the layer's weights, then that plus the layer's bias,
/// then the activation `act` of the sum, and last the dropout of the
/// activation, which is the result `t`; its mask is drawn by the dropout
/// kernel at the rate `rate_bits`.
pub proof fn lemma_layer_call_graph(l: Layer, act: Activation, rate_bits: u32, old: &Pool, new: &Pool, x: Tensor, t: Tensor)
    requires
        layer_call_result(l, act, rate_bits, old, new, x, t),
        old.node(x).shape.len() == 2,
        old.node(l.w).shape.len() == 2,
    ensures
        ({
            let b = old.nodes@.len() as int;
            &&& new.nodes@.len() > b + 2
            &&& new.views()[b].op == Op::MatMul
            &&& new.views()[b].parents == seq![x.0, l.w.0]
            &&& new.views()[b + 1].op == Op::BiasAdd
            &&& new.views()[b + 1].parents == seq![b as usize, l.b.0]
            &&& new.node(t).op == Op::Dropout
            &&& t.0 == new.nodes@.len() - 1
            &&& act == Activation::NoActivation ==> new.node(t).parents == seq![(b + 1) as usize]
            &&& act == Activation::Tanh ==> new.views()[b + 2].op == Op::Tanh
                && new.views()[b + 2].parents == seq![(b + 1) as usize]
                && new.node(t).parents == seq![(b + 2) as usize]
            &&& act == Activation::Relu ==> new.views()[b + 3].op == Op::Max
                && new.views()[b + 3].parents == seq![(b + 1) as usize, (b + 2) as usize]
                && new.node(t).parents == seq![(b + 3) as usize]
            &&& act == Activation::Softmax ==> new.views()[b + 2].op == Op::SubRowMax
                && new.views()[b + 2].parents == seq![(b + 1) as usize]
                && new.views()[b + 5].op == Op::Div
                && new.node(t).parents == seq![(b + 5) as usize]
            &&& exists|k: int| 0 <= k < new.gpu.pending().len() && (#[trigger] new.gpu.pending()[k]) is Dispatch
                && new.gpu.pending()[k]->kernel == crate::gpu::gpu::Kernel::Dropout
                && new.gpu.pending()[k]->params.1 == rate_bits
        }),
{
    let b = old.nodes@.len() as int;
    let (p1, p2, p3, c, z, y, seed) = choose|p1: Pool, p2: Pool, p3: Pool, c: Tensor, z: Tensor, y: Tensor, seed: u32|
        #[trigger] matmul_result(old, &p1, c, x, l.w)
        && #[trigger] bias_add_result(&p1, &p2, z, c, l.b)
        && #[trigger] activation_result(act, &p2, &p3, y, z)
        && #[trigger] dropout_result(&p3, new, t, y, rate_bits, seed);
    crate::engine::pool_ops::lemma_matmul_matrices(old, &p1, c, x, l.w);
    assert(z.0 == b + 1);
    assert(p2.nodes@[b]@ == p1.nodes@[b]@);
    // The activation keeps the nodes before it.
    assert(p3.nodes@.len() >= p2.nodes@.len() && forall|j: int| 0 <= j < p2.nodes@.len() ==> #[trigger] p3.views()[j] == p2.views()[j]) by {
        match act {
            Activation::Tanh => {
                assert forall|j: int| 0 <= j < p2.nodes@.len() implies #[trigger] p3.views()[j] == p2.views()[j] by {
                    assert(p3.nodes@[j]@ == p2.nodes@[j]@);
                }
            },
            Activation::Relu => { crate::primitives::activation::lemma_relu_graph(&p2, &p3, y, z); },
            Activation::Softmax => { crate::primitives::activation::lemma_softmax_graph(&p2, &p3, y, z); },
            Activation::NoActivation => {},
        }
    }
    assert forall|j: int| 0 <= j < p3.nodes@.len() implies #[trigger] new.views()[j] == p3.views()[j] by {
        assert(new.nodes@[j]@ == p3.nodes@[j]@);
    }
    assert(new.views()[b] == p3.views()[b]);
    assert(p3.views()[b] == p2.views()[b]);
    assert(new.views()[b + 1] == p3.views()[b + 1]);
    assert(p3.views()[b + 1] == p2.views()[b + 1]);
    match act {
        Activation::Relu => { crate::primitives::activation::lemma_relu_graph(&p2, &p3, y, z); },
        Activation::Softmax => { crate::primitives::activation::lemma_softmax_graph(&p2, &p3, y, z); },
        Activation::Tanh => { crate::primitives::activation::lemma_tanh_graph(&p2, &p3, y, z); },
        Activation::NoActivation => {},
    }
    let k = p3.gpu.pending().len() as int + 2;
    assert(new.gpu.pending()[k] is Dispatch);
}

/// Calling a layer writes only buffers handed out during the call.
pub proof fn lemma_layer_call_fresh(l: Layer, act: Activation, rate_bits: u32, old: &Pool, new: &Pool, x: Tensor, t: Tensor)
    requires
        layer_call_result(l, act, rate_bits, old, new, x, t),
    ensures
        fresh_step(old, new),
{
    let (p1, p2, p3, c, z, y, seed) = choose|p1: Pool, p2: Pool, p3: Pool, c: Tensor, z: Tensor, y: Tensor, seed: u32|
        #[trigger] matmul_result(old, &p1, c, x, l.w)
        && #[trigger] bias_add_result(&p1, &p2, z, c, l.b)
        && #[trigger] activation_result(act, &p2, &p3, y, z)
        && #[trigger] dropout_result(&p3, new, t, y, rate_bits, seed);
    lemma_matmul_fresh(old, &p1, c, x, l.w);
    lemma_ops_fresh(&p1, &p2, z, c, l.b, Op::BiasAdd);
    lemma_activation_fresh(act, &p2, &p3, y, z);
    lemma_dropout_fresh(&p3, new, t, y, rate_bits, seed);
    lemma_fresh_trans(old, &p1, &p2);
    lemma_fresh_trans(old, &p2, &p3);
    lemma_fresh_trans(old, &p3, new);
}

/// The first `i` layers of a forward pass write only buffers handed out
/// during them.
proof fn lemma_forward_prefix_fresh(layers: Seq<Layer>, hp: &MlpHyperparameters, pools: Seq<Pool>, outs: Seq<Tensor>, i: int)
    requires
        pools.len() == layers.len() + 1,
        outs.len() == layers.len() + 1,
        0 <= i <= layers.len(),
        forall|q: int| 0 <= q < layers.len() ==> #[trigger] layer_call_result(layers[q], layer_activation(hp, q, layers.len() as int),
            layer_rate(hp, q, layers.len() as int), &pools[q], &pools[q + 1], outs[q], outs[q + 1]),
    ensures
        fresh_step(&pools[0], &pools[i]),
    decreases i,
{
    if i == 0 {
        lemma_fresh_refl(&pools[0]);
    } else {
        let n = layers.len() as int;
        let j = i - 1;
        lemma_forward_prefix_fresh(layers, hp, pools, outs, j);
        assert(layer_call_result(layers[j], layer_activation(hp, j, n), layer_rate(hp, j, n),
            &pools[j], &pools[j + 1], outs[j], outs[j + 1]));
        lemma_layer_call_fresh(layers[j], layer_activation(hp, j, n), layer_rate(hp, j, n),
            &pools[j], &pools[j + 1], outs[j], outs[j + 1]);
        lemma_fresh_trans(&pools[0], &pools[j], &pools[j + 1]);
        assert(j + 1 == i);
    }
}

/// A forward pass writes only buffers handed out during it.
pub proof fn lemma_forward_fresh(layers: Seq<Layer>, hp: &MlpHyperparameters, old: &Pool, new: &Pool, x: Tensor, t: Tensor)
    requires
        forward_result(layers, hp, old, new, x, t),
    ensures
        fresh_step(old, new),
{
    let n = layers.len() as int;
    let (pools, outs) = choose|pools: Seq<Pool>, outs: Seq<Tensor>| {
        &&& pools.len() == n + 1
        &&& outs.len() == n + 1
        &&& pools[0] == *old
        &&& pools[n] == *new
        &&& outs[0] == x
        &&& outs[n] == t
        &&& forall|i: int| 0 <= i < n ==> #[trigger] layer_call_result(layers[i], layer_activation(hp, i, n),
            layer_rate(hp, i, n), &pools[i], &pools[i + 1], outs[i], outs[i + 1])
    };
    lemma_forward_prefix_fresh(layers, hp, pools, outs, n);
}

impl MLP {
    /// The forward pass of `x`: each layer in turn, with the output activation
    /// and no dropout on the last.
    #[verifier::rlimit(50)]
    #[verifier::spinoff_prover]
    pub fn call(&mut self, x: Tensor) -> (t: Tensor)
        requires
            old(self).wf(),
            forward_ok(old(self), x),
        ensures
            final(self).wf(),
            final(self).layers == old(self).layers,
            final(self).hyperparameters == old(self).hyperparameters,
            final(self).optimizer_data == old(self).optimizer_data,
            forward_result(old(self).layers@, &old(self).hyperparameters, &old(self).pool, &final(self).pool, x, t),
            final(self).pool.has(t),
            final(self).layers@.len() > 0 ==> final(self).pool.node(t).shape == seq![
                row_shape(old(self).pool.node(x).shape)[0],
                dims(&old(self).hyperparameters)[old(self).layers@.len() as int],
            ],
            final(self).pool.nodes@.len() >= old(self).pool.nodes@.len(),
            forall|j: int| 0 <= j < old(self).pool.nodes@.len() ==>
                #[trigger] final(self).pool.nodes@[j]@ == old(self).pool.nodes@[j]@,
            final(self).pool.gpu.one == old(self).pool.gpu.one,
    {
        let ghost p0 = self.pool;
        let ghost d = dims(&self.hyperparameters);
        let ghost rows = row_shape(p0.node(x).shape)[0];
        let n = self.layers.len();
        let ghost mut pools: Seq<Pool> = seq![self.pool];
        let ghost mut outs: Seq<Tensor> = seq![x];
        let mut acc = x;
        for i in 0..n
            invariant
                n == self.layers@.len(),
                n == self.hyperparameters.n_layers@.len(),
                d == dims(&self.hyperparameters),
                d.len() == n + 1,
                dims_ok(d),
                self.layers == old(self).layers,
                self.hyperparameters == old(self).hyperparameters,
                self.optimizer_data == old(self).optimizer_data,
                p0 == old(self).pool,
                old(self).wf(),
                forward_ok(old(self), x),
                rows == row_shape(p0.node(x).shape)[0],
                self.pool.wf(),
                self.pool.has(acc),
                self.pool.param_end == p0.param_end,
                self.pool.gpu.one == p0.gpu.one,
                self.pool.nodes@.len() >= p0.nodes@.len(),
                forall|j: int| 0 <= j < p0.nodes@.len() ==> #[trigger] self.pool.nodes@[j]@ == p0.nodes@[j]@,
                i == 0 ==> acc == x,
                i > 0 ==> self.pool.node(acc).shape == seq![rows, d[i as int]],
                pools.len() == i + 1,
                outs.len() == i + 1,
                pools[0] == p0,
                pools[i as int] == self.pool,
                outs[0] == x,
                outs[i as int] == acc,
                forall|q: int| 0 <= q < i ==> #[trigger] layer_call_result(self.layers@[q],
                    layer_activation(&self.hyperparameters, q, n as int), layer_rate(&self.hyperparameters, q, n as int),
                    &pools[q], &pools[q + 1], outs[q], outs[q + 1]),
        {
            let last = i + 1 == n;
            let activation = if last { self.hyperparameters.output_activation } else { self.hyperparameters.hidden_activation };
            let rate = if last { 0u32 } else { self.hyperparameters.dropout_rate_bits };
            let l = self.layers[i];
            proof {
                assert(layer_fits(&p0, l, d[i as int], d[i + 1]));
                assert(l.w.0 < p0.nodes@.len() && l.b.0 < p0.nodes@.len());
                assert(self.pool.node(l.w) == p0.node(l.w));
                assert(self.pool.node(l.b) == p0.node(l.b));
                assert((rows as nat) * (d[i + 1] as nat) <= usize::MAX);
                if i > 0 {
                    assert(row_shape(self.pool.node(acc).shape) == self.pool.node(acc).shape);
                }
                assert(activation == layer_activation(&self.hyperparameters, i as int, n as int));
                assert(rate == layer_rate(&self.hyperparameters, i as int, n as int));
                assert(dropout_rate_ok(0u32));
            }
            let y = l.call(&mut self.pool, acc, &activation, rate);
            proof {
                pools = pools.push(self.pool);
                outs = outs.push(y);
                assert(pools[i as int] == pools.drop_last()[i as int]);
            }
            acc = y;
        }
        proof {
            assert forall|i: int| 0 <= i < n implies {
                &&& (#[trigger] self.layers@[i]).w.0 == 2 * i
                &&& self.layers@[i].b.0 == 2 * i + 1
                &&& layer_fits(&self.pool, self.layers@[i], d[i], d[i + 1])
            } by {
                assert(layer_fits(&p0, self.layers@[i], d[i], d[i + 1]));
            }
        }
        acc
    }
}

} // verus!
