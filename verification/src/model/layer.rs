use vstd::prelude::*;
use crate::model::neuron::{Neuron, neuron_nodes, pairs};
use crate::model::value::{Init, NodeSpec, Pool, Value, leaf};

verus! {

/// A layer of neurons that all read the same inputs.
pub struct Layer {
    pub neurons: Vec<Neuron>,
}

/// Every weight and the bias of `n` name nodes below `len`.
pub open spec fn neuron_below(n: Neuron, len: int) -> bool {
    &&& n.b.0 < len
    &&& forall|k: int| 0 <= k < n.w@.len() ==> #[trigger] n.w@[k].0 < len
}

/// The nodes that calling the neurons `ns` one after the other on `x` adds,
/// starting at index `base`.
pub open spec fn layer_nodes(ns: Seq<Neuron>, x: Seq<Value>, base: int) -> Seq<NodeSpec>
    decreases ns.len(),
{
    if ns.len() == 0 {
        Seq::empty()
    } else {
        let front = layer_nodes(ns.drop_last(), x, base);
        front + neuron_nodes(x, ns.last().w@, ns.last().b, base + front.len())
    }
}

/// The output node of neuron `i` when the neurons `ns` are called on `x`
/// from index `base`.
pub open spec fn layer_output(ns: Seq<Neuron>, x: Seq<Value>, base: int, i: int) -> int {
    base + layer_nodes(ns.take(i), x, base).len() + 2 * pairs(x, ns[i].w@)
}

/// Where neuron `i` of a fresh layer over `n_inputs` inputs starts.
pub open spec fn neuron_start(base: int, n_inputs: int, i: int) -> int {
    base + i * (n_inputs + 1)
}

impl Layer {
    /// `n_outputs` neurons over `n_inputs` inputs, made one after the other.
    pub fn new(pool: &mut Pool, n_inputs: usize, n_outputs: usize) -> (r: Layer)
        requires
            old(pool).wf(),
        ensures
            final(pool).wf(),
            final(pool).param_end == old(pool).param_end,
            final(pool).views() == old(pool).views()
                + Seq::new((n_outputs * (n_inputs + 1)) as nat, |j: int| leaf(Init::Uniform)),
            r.neurons@.len() == n_outputs,
            forall|i: int| 0 <= i < n_outputs ==> (#[trigger] r.neurons@[i]).w@
                == Seq::new(n_inputs as nat, |j: int| Value((neuron_start(old(pool).nodes@.len() as int, n_inputs as int, i) + j) as usize)),
            forall|i: int| 0 <= i < n_outputs ==> (#[trigger] r.neurons@[i]).b
                == Value((neuron_start(old(pool).nodes@.len() as int, n_inputs as int, i) + n_inputs) as usize),
    {
        let ghost base = old(pool).nodes@.len() as int;
        let ghost m = n_inputs as int + 1;
        let mut neurons: Vec<Neuron> = Vec::new();
        for i in 0..n_outputs
            invariant
                base == old(pool).nodes@.len(),
                m == n_inputs + 1,
                pool.wf(),
                pool.param_end == old(pool).param_end,
                pool.nodes@.len() == base + i * m,
                pool.views() == old(pool).views() + Seq::new((i * m) as nat, |j: int| leaf(Init::Uniform)),
                neurons@.len() == i,
                forall|q: int| 0 <= q < i ==> (#[trigger] neurons@[q]).w@
                    == Seq::new(n_inputs as nat, |j: int| Value((neuron_start(base, n_inputs as int, q) + j) as usize)),
                forall|q: int| 0 <= q < i ==> (#[trigger] neurons@[q]).b
                    == Value((neuron_start(base, n_inputs as int, q) + n_inputs) as usize),
        {
            let n = Neuron::new(pool, n_inputs);
            proof {
                assert(i * m + m == (i + 1) * m) by (nonlinear_arith);
                assert(0 <= i * m) by (nonlinear_arith) requires 0 <= i, 0 <= m;
                assert(pool.views() =~= old(pool).views() + Seq::new(((i + 1) * m) as nat, |j: int| leaf(Init::Uniform)));
            }
            neurons.push(n);
        }
        Layer { neurons }
    }

    /// Each neuron called on `x`, in order; their outputs.
    pub fn call(&self, pool: &mut Pool, x: &[Value]) -> (r: Vec<Value>)
        requires
            old(pool).wf(),
            forall|k: int| 0 <= k < x@.len() ==> #[trigger] old(pool).has(x@[k]),
            forall|i: int| 0 <= i < self.neurons@.len()
                ==> neuron_below(#[trigger] self.neurons@[i], old(pool).nodes@.len() as int),
        ensures
            final(pool).wf(),
            final(pool).param_end == old(pool).param_end,
            final(pool).views() == old(pool).views()
                + layer_nodes(self.neurons@, x@, old(pool).nodes@.len() as int),
            r@.len() == self.neurons@.len(),
            forall|i: int| 0 <= i < r@.len() ==>
                (#[trigger] r@[i]).0 == layer_output(self.neurons@, x@, old(pool).nodes@.len() as int, i),
    {
        let ghost base = old(pool).nodes@.len() as int;
        let ghost ns = self.neurons@;
        let mut r: Vec<Value> = Vec::new();
        assert forall|k: int| 0 <= k < x@.len() implies #[trigger] x@[k].0 < base by {
            assert(old(pool).has(x@[k]));
        }
        assert(ns.take(0) =~= Seq::<Neuron>::empty());
        for i in 0..self.neurons.len()
            invariant
                ns == self.neurons@,
                base == old(pool).nodes@.len(),
                pool.wf(),
                pool.param_end == old(pool).param_end,
                pool.views() == old(pool).views() + layer_nodes(ns.take(i as int), x@, base),
                pool.nodes@.len() == base + layer_nodes(ns.take(i as int), x@, base).len(),
                forall|k: int| 0 <= k < x@.len() ==> #[trigger] x@[k].0 < base,
                forall|q: int| 0 <= q < ns.len() ==> neuron_below(#[trigger] ns[q], base),
                r@.len() == i,
                forall|q: int| 0 <= q < i ==> (#[trigger] r@[q]).0 == layer_output(ns, x@, base, q),
        {
            let ghost before = pool.nodes@.len();
            let ghost front = layer_nodes(ns.take(i as int), x@, base);
            proof {
                assert(neuron_below(ns[i as int], base));
                assert forall|k: int| 0 <= k < x@.len() implies #[trigger] pool.has(x@[k]) by {}
                assert forall|k: int| 0 <= k < ns[i as int].w@.len() implies #[trigger] pool.has(ns[i as int].w@[k]) by {}
            }
            let v = self.neurons[i].call(pool, x);
            proof {
                assert(ns.take(i + 1).drop_last() =~= ns.take(i as int));
                assert(ns.take(i + 1).last() == ns[i as int]);
                let nn = neuron_nodes(x@, ns[i as int].w@, ns[i as int].b, base + front.len());
                assert(layer_nodes(ns.take(i + 1), x@, base) == front + nn);
                assert(pool.views() =~= old(pool).views() + layer_nodes(ns.take(i + 1), x@, base));
            }
            r.push(v);
        }
        assert(ns.take(ns.len() as int) =~= ns);
        r
    }
}

/// Calling the neurons `ns` on `x` from index `base` adds, for each neuron
/// `i` in order, exactly the nodes of a call of neuron `i` itself (its own
/// weights and bias) on `x`, right after the nodes of the neurons before it.
pub proof fn lemma_layer_neuron_segments(ns: Seq<Neuron>, x: Seq<Value>, base: int)
    ensures
        forall|i: int| #![trigger ns[i]] 0 <= i < ns.len() ==> {
            let start = layer_nodes(ns.take(i), x, base).len() as int;
            layer_nodes(ns, x, base).subrange(start, start + 2 * pairs(x, ns[i].w@) + 1)
                == neuron_nodes(x, ns[i].w@, ns[i].b, base + start)
        },
{
    assert forall|i: int| #![trigger ns[i]] 0 <= i < ns.len() implies {
        let start = layer_nodes(ns.take(i), x, base).len() as int;
        layer_nodes(ns, x, base).subrange(start, start + 2 * pairs(x, ns[i].w@) + 1)
            == neuron_nodes(x, ns[i].w@, ns[i].b, base + start)
    } by {
        lemma_layer_segment(ns, x, base, i);
    }
}

proof fn lemma_layer_segment(ns: Seq<Neuron>, x: Seq<Value>, base: int, i: int)
    requires
        0 <= i < ns.len(),
    ensures
        ({
            let start = layer_nodes(ns.take(i), x, base).len() as int;
            &&& start + 2 * pairs(x, ns[i].w@) + 1 <= layer_nodes(ns, x, base).len()
            &&& layer_nodes(ns, x, base).subrange(start, start + 2 * pairs(x, ns[i].w@) + 1)
                == neuron_nodes(x, ns[i].w@, ns[i].b, base + start)
        }),
    decreases ns.len(),
{
    let front_ns = ns.drop_last();
    let front = layer_nodes(front_ns, x, base);
    let whole = layer_nodes(ns, x, base);
    let last = neuron_nodes(x, ns.last().w@, ns.last().b, base + front.len());
    assert(whole == front + last);
    let start = layer_nodes(ns.take(i), x, base).len() as int;
    let seg = neuron_nodes(x, ns[i].w@, ns[i].b, base + start);
    assert(seg.len() == 2 * pairs(x, ns[i].w@) + 1);
    if i < ns.len() - 1 {
        assert(ns.take(i) =~= front_ns.take(i));
        assert(ns[i] == front_ns[i]);
        lemma_layer_segment(front_ns, x, base, i);
        assert(front.subrange(start, start + 2 * pairs(x, ns[i].w@) + 1) == seg);
        assert(whole.subrange(start, start + 2 * pairs(x, ns[i].w@) + 1)
            =~= front.subrange(start, start + 2 * pairs(x, ns[i].w@) + 1));
    } else {
        assert(ns.take(i) =~= front_ns);
        assert(whole.subrange(start, start + 2 * pairs(x, ns[i].w@) + 1) =~= last);
    }
}

} // verus!
