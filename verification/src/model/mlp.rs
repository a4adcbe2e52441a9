use vstd::prelude::*;
use crate::engine::tensor::{Op, lemma_pair};
use crate::engine::pool::{Pool, Tensor, node_wf};
use crate::engine::pool_ops::{lemma_matmul_matrices, matmul_result, row_shape};
use crate::engine::results::bias_add_result;
use crate::primitives::activation::{Activation, activation_result, lemma_relu_graph, lemma_softmax_graph};
use crate::models::mlp::{layer_call_ok, layer_new_result};

verus! {

/// A dense layer without dropout: an `n_inputs` by `n_outputs` weight matrix
/// and a bias vector.
#[derive(Clone, Copy, PartialEq, Eq, Structural, Debug)]
pub struct Layer {
    pub w: Tensor,
    pub b: Tensor,
}

/// What calling layer `l` on `x` does to the pool: the product with the
/// weights, the bias added, and the activation.
pub open spec fn plain_call_result(l: Layer, act: Activation, old: &Pool, new: &Pool, x: Tensor, t: Tensor) -> bool {
    exists|p1: Pool, p2: Pool, c: Tensor, z: Tensor|
        #[trigger] matmul_result(old, &p1, c, x, l.w)
        && #[trigger] bias_add_result(&p1, &p2, z, c, l.b)
        && #[trigger] activation_result(act, &p2, new, t, z)
}

impl Layer {
    /// A layer from `n_inputs` to `n_outputs`: random weights, then a zero bias.
    pub fn new(pool: &mut Pool, n_inputs: usize, n_outputs: usize) -> (r: Layer)
        requires
            old(pool).wf(),
            (n_inputs as nat) * (n_outputs as nat) <= usize::MAX,
        ensures
            final(pool).wf(),
            final(pool).extends(old(pool), 2),
            final(pool).node(r.w).shape == seq![n_inputs, n_outputs],
            final(pool).node(r.b).shape == seq![n_outputs],
            layer_new_result(old(pool), final(pool), (crate::models::mlp::Layer { w: r.w, b: r.b }), n_inputs, n_outputs),
    {
        let l = crate::models::mlp::Layer::new(pool, n_inputs, n_outputs);
        Layer { w: l.w, b: l.b }
    }

    /// `activation(x @ w + b)`.
    pub fn call(&self, pool: &mut Pool, x: Tensor, activation: &Activation) -> (t: Tensor)
        requires
            old(pool).wf(),
            old(pool).has(x),
            old(pool).has(self.w),
            old(pool).has(self.b),
            old(pool).node(self.w).shape.len() == 2,
            old(pool).node(self.b).shape == seq![old(pool).node(self.w).shape[1]],
            layer_call_ok(old(pool), x, old(pool).node(self.w).shape[0], old(pool).node(self.w).shape[1], *activation, 0),
        ensures
            final(pool).wf(),
            plain_call_result(*self, *activation, old(pool), final(pool), x, t),
            final(pool).has(t),
            final(pool).node(t).shape == seq![row_shape(old(pool).node(x).shape)[0], old(pool).node(self.w).shape[1]],
    {
        let ghost p0 = *pool;
        let ghost m = row_shape(p0.node(x).shape)[0];
        let ghost o = p0.node(self.w).shape[1];
        let c = pool.matmul(x, self.w);
        let ghost p1 = *pool;
        proof {
            assert(p1.node(self.b) == p0.node(self.b));
        }
        let z = pool.bias_add(c, self.b);
        let ghost p2 = *pool;
        proof {
            lemma_pair(m, o);
            assert(node_wf(p2.views(), z.0 as int));
        }
        let t = activation.apply(pool, z);
        assert(matmul_result(&p0, &p1, c, x, self.w));
        assert(bias_add_result(&p1, &p2, z, c, self.b));
        assert(activation_result(*activation, &p2, pool, t, z));
        t
    }

    /// The layer's parameters: the weights, then the bias.
    pub fn parameters(&self) -> (r: Vec<Tensor>)
        ensures
            r@ == seq![self.w, self.b],
    {
        let mut r: Vec<Tensor> = Vec::new();
        r.push(self.w);
        r.push(self.b);
        assert(r@ =~= seq![self.w, self.b]);
        r
    }
}

/// Calling a layer `l` without dropout on a matrix `x` adds, on top of the
/// pool `old`, the product of `x` with the layer's weights, then that plus
/// the layer's bias, then the activation `act` of the sum, which is the
/// result `t`.
pub proof fn lemma_plain_call_graph(l: Layer, act: Activation, old: &Pool, new: &Pool, x: Tensor, t: Tensor)
    requires
        plain_call_result(l, act, old, new, x, t),
        old.node(x).shape.len() == 2,
        old.node(l.w).shape.len() == 2,
    ensures
        ({
            let b = old.nodes@.len() as int;
            &&& new.nodes@.len() >= b + 2
            &&& new.views()[b].op == Op::MatMul
            &&& new.views()[b].parents == seq![x.0, l.w.0]
            &&& new.views()[b + 1].op == Op::BiasAdd
            &&& new.views()[b + 1].parents == seq![b as usize, l.b.0]
            &&& act == Activation::NoActivation ==> t.0 == b + 1
            &&& act == Activation::Tanh ==> new.node(t).op == Op::Tanh
                && new.node(t).parents == seq![(b + 1) as usize]
            &&& act == Activation::Relu ==> new.node(t).op == Op::Max
                && new.node(t).parents == seq![(b + 1) as usize, (b + 2) as usize]
            &&& act == Activation::Softmax ==> new.views()[b + 2].op == Op::SubRowMax
                && new.views()[b + 2].parents == seq![(b + 1) as usize]
                && new.node(t).op == Op::Div
        }),
{
    let b = old.nodes@.len() as int;
    let (p1, p2, c, z) = choose|p1: Pool, p2: Pool, c: Tensor, z: Tensor|
        #[trigger] matmul_result(old, &p1, c, x, l.w)
        && #[trigger] bias_add_result(&p1, &p2, z, c, l.b)
        && #[trigger] activation_result(act, &p2, new, t, z);
    lemma_matmul_matrices(old, &p1, c, x, l.w);
    assert(z.0 == b + 1);
    assert(p2.nodes@[b]@ == p1.nodes@[b]@);
    match act {
        Activation::Tanh => {
            assert(new.nodes@[b]@ == p2.nodes@[b]@);
            assert(new.nodes@[b + 1]@ == p2.nodes@[b + 1]@);
        },
        Activation::Relu => {
            lemma_relu_graph(&p2, new, t, z);
            assert(new.views()[b] == p2.views()[b]);
            assert(new.views()[b + 1] == p2.views()[b + 1]);
        },
        Activation::Softmax => {
            lemma_softmax_graph(&p2, new, t, z);
            assert(new.views()[b] == p2.views()[b]);
            assert(new.views()[b + 1] == p2.views()[b + 1]);
        },
        Activation::NoActivation => {},
    }
}

} // verus!
