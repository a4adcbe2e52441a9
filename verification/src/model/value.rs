use vstd::prelude::*;

verus! {

/// What a scalar node computes.
#[derive(Clone, Copy, PartialEq, Eq, Structural, Debug)]
pub enum ScalarOp {
    /// An input or parameter; its first value is the float with the node's bit pattern.
    Leaf,
    Add,
    Mul,
    Sub,
    Tanh,
    Pow2,
}

/// The symbol of a scalar operation.
pub open spec fn scalar_symbol(op: ScalarOp) -> Seq<char> {
    match op {
        ScalarOp::Leaf => ""@,
        ScalarOp::Add => "+"@,
        ScalarOp::Mul => "*"@,
        ScalarOp::Sub => "-"@,
        ScalarOp::Tanh => "tanh"@,
        ScalarOp::Pow2 => "pow2"@,
    }
}

impl ScalarOp {
    /// The operation's symbol.
    pub fn name(&self) -> (r: &'static str)
        ensures
            r@ == scalar_symbol(*self),
    {
        match self {
            ScalarOp::Leaf => "",
            ScalarOp::Add => "+",
            ScalarOp::Mul => "*",
            ScalarOp::Sub => "-",
            ScalarOp::Tanh => "tanh",
            ScalarOp::Pow2 => "pow2",
        }
    }
}

/// The number of inputs of each scalar operation.
pub open spec fn scalar_arity(op: ScalarOp) -> nat {
    match op {
        ScalarOp::Leaf => 0,
        ScalarOp::Add | ScalarOp::Mul | ScalarOp::Sub => 2,
        ScalarOp::Tanh | ScalarOp::Pow2 => 1,
    }
}

/// The first value of a leaf.
#[derive(Clone, Copy, PartialEq, Eq, Structural, Debug)]
pub enum Init {
    /// The 64-bit float with this bit pattern.
    Bits(u64),
    /// A value the host draws uniformly from `[-1, 1)`.
    Uniform,
}

/// One node of the scalar expression graph: the operation, the nodes it reads,
/// and, for a leaf, its first value.
pub struct Node {
    pub parents: Vec<usize>,
    pub op: ScalarOp,
    pub init: Init,
}

/// The spec-level image of a node.
pub struct NodeSpec {
    pub parents: Seq<usize>,
    pub op: ScalarOp,
    pub init: Init,
}

impl View for Node {
    type V = NodeSpec;

    open spec fn view(&self) -> NodeSpec {
        NodeSpec { parents: self.parents@, op: self.op, init: self.init }
    }
}

/// A scalar: the index of its node in the pool.
#[derive(Clone, Copy, PartialEq, Eq, Structural, Debug)]
pub struct Value(pub usize);

/// The expression graph of scalar automatic differentiation, in the order the
/// nodes were created. The host evaluates the values and gradients of the
/// nodes; the graph says what each node computes from which nodes.
///
/// Nodes before `param_end` are the parameters; `flush` drops the rest.
pub struct Pool {
    pub nodes: Vec<Node>,
    pub param_end: usize,
}

/// Node `i` reads only nodes created before it, as many as its operation takes.
pub open spec fn scalar_node_wf(v: Seq<NodeSpec>, i: int) -> bool {
    &&& v[i].parents.len() == scalar_arity(v[i].op)
    &&& forall|k: int| 0 <= k < v[i].parents.len() ==> #[trigger] v[i].parents[k] < i
}

/// The nodes of a pool as spec values.
pub open spec fn scalar_views(nodes: Seq<Node>) -> Seq<NodeSpec> {
    nodes.map_values(|n: Node| n@)
}

/// The node computing `op` from `parents`.
pub open spec fn kid(op: ScalarOp, parents: Seq<usize>) -> NodeSpec {
    NodeSpec { parents, op, init: Init::Bits(0) }
}

/// A leaf with first value `init`.
pub open spec fn leaf(init: Init) -> NodeSpec {
    NodeSpec { parents: Seq::empty(), op: ScalarOp::Leaf, init }
}

impl Pool {
    pub open spec fn views(&self) -> Seq<NodeSpec> {
        scalar_views(self.nodes@)
    }

    /// Every node is well formed and the parameters are a prefix of the nodes.
    pub open spec fn wf(&self) -> bool {
        &&& forall|i: int| 0 <= i < self.nodes@.len() ==> #[trigger] scalar_node_wf(self.views(), i)
        &&& self.param_end <= self.nodes@.len()
    }

    /// `v` names a node of the pool.
    pub open spec fn has(&self, v: Value) -> bool {
        v.0 < self.nodes@.len()
    }

    /// `self` is `old` with node `n` added.
    pub open spec fn added(&self, old: &Pool, n: NodeSpec) -> bool {
        &&& self.views() == old.views().push(n)
        &&& self.nodes@.len() == old.nodes@.len() + 1
        &&& self.param_end == old.param_end
    }

    /// An empty graph.
    pub fn new() -> (p: Pool)
        ensures
            p.wf(),
            p.views() == Seq::<NodeSpec>::empty(),
            p.param_end == 0,
    {
        let p = Pool { nodes: Vec::new(), param_end: 0 };
        assert(p.views() =~= Seq::<NodeSpec>::empty());
        p
    }

    fn new_leaf(&mut self, init: Init) -> (v: Value)
        requires
            old(self).wf(),
        ensures
            final(self).wf(),
            final(self).added(old(self), leaf(init)),
            v.0 == old(self).nodes@.len(),
    {
        let n = Node { parents: Vec::new(), op: ScalarOp::Leaf, init };
        self.nodes.push(n);
        proof {
            assert(self.views() =~= old(self).views().push(leaf(init)));
            assert forall|i: int| 0 <= i < self.nodes@.len() implies #[trigger] scalar_node_wf(self.views(), i) by {
                if i < old(self).nodes@.len() {
                    assert(scalar_node_wf(old(self).views(), i));
                }
            }
        }
        Value(self.nodes.len() - 1)
    }

    /// A new leaf whose first value is the 64-bit float with bit pattern `bits`.
    pub fn new_value(&mut self, bits: u64) -> (v: Value)
        requires
            old(self).wf(),
        ensures
            final(self).wf(),
            final(self).added(old(self), leaf(Init::Bits(bits))),
            v.0 == old(self).nodes@.len(),
    {
        self.new_leaf(Init::Bits(bits))
    }

    /// A new leaf whose first value the host draws uniformly from `[-1, 1)`.
    pub fn new_random(&mut self) -> (v: Value)
        requires
            old(self).wf(),
        ensures
            final(self).wf(),
            final(self).added(old(self), leaf(Init::Uniform)),
            v.0 == old(self).nodes@.len(),
    {
        self.new_leaf(Init::Uniform)
    }

    /// A new node computing `op` from `parents`.
    pub fn new_kid(&mut self, parents: Vec<usize>, op: ScalarOp) -> (v: Value)
        requires
            old(self).wf(),
            parents@.len() == scalar_arity(op),
            forall|k: int| 0 <= k < parents@.len() ==> #[trigger] parents@[k] < old(self).nodes@.len(),
        ensures
            final(self).wf(),
            final(self).added(old(self), kid(op, parents@)),
            v.0 == old(self).nodes@.len(),
    {
        let ghost ps = parents@;
        let n = Node { parents, op, init: Init::Bits(0) };
        self.nodes.push(n);
        proof {
            assert(self.views() =~= old(self).views().push(kid(op, ps)));
            assert forall|i: int| 0 <= i < self.nodes@.len() implies #[trigger] scalar_node_wf(self.views(), i) by {
                if i < old(self).nodes@.len() {
                    assert(scalar_node_wf(old(self).views(), i));
                }
            }
        }
        Value(self.nodes.len() - 1)
    }

    fn binary(&mut self, a: Value, b: Value, op: ScalarOp) -> (v: Value)
        requires
            old(self).wf(),
            old(self).has(a),
            old(self).has(b),
            scalar_arity(op) == 2,
        ensures
            final(self).wf(),
            final(self).added(old(self), kid(op, seq![a.0, b.0])),
            v.0 == old(self).nodes@.len(),
    {
        let mut parents: Vec<usize> = Vec::new();
        parents.push(a.0);
        parents.push(b.0);
        assert(parents@ =~= seq![a.0, b.0]);
        self.new_kid(parents, op)
    }

    fn unary(&mut self, a: Value, op: ScalarOp) -> (v: Value)
        requires
            old(self).wf(),
            old(self).has(a),
            scalar_arity(op) == 1,
        ensures
            final(self).wf(),
            final(self).added(old(self), kid(op, seq![a.0])),
            v.0 == old(self).nodes@.len(),
    {
        let mut parents: Vec<usize> = Vec::new();
        parents.push(a.0);
        assert(parents@ =~= seq![a.0]);
        self.new_kid(parents, op)
    }

    /// `a + b`.
    pub fn add(&mut self, a: Value, b: Value) -> (v: Value)
        requires old(self).wf(), old(self).has(a), old(self).has(b),
        ensures
            final(self).wf(),
            final(self).added(old(self), kid(ScalarOp::Add, seq![a.0, b.0])),
            v.0 == old(self).nodes@.len(),
    {
        self.binary(a, b, ScalarOp::Add)
    }

    /// `a * b`.
    pub fn mul(&mut self, a: Value, b: Value) -> (v: Value)
        requires old(self).wf(), old(self).has(a), old(self).has(b),
        ensures
            final(self).wf(),
            final(self).added(old(self), kid(ScalarOp::Mul, seq![a.0, b.0])),
            v.0 == old(self).nodes@.len(),
    {
        self.binary(a, b, ScalarOp::Mul)
    }

    /// `a - b`.
    pub fn sub(&mut self, a: Value, b: Value) -> (v: Value)
        requires old(self).wf(), old(self).has(a), old(self).has(b),
        ensures
            final(self).wf(),
            final(self).added(old(self), kid(ScalarOp::Sub, seq![a.0, b.0])),
            v.0 == old(self).nodes@.len(),
    {
        self.binary(a, b, ScalarOp::Sub)
    }

    /// `tanh(a)`.
    pub fn tanh(&mut self, a: Value) -> (v: Value)
        requires old(self).wf(), old(self).has(a),
        ensures
            final(self).wf(),
            final(self).added(old(self), kid(ScalarOp::Tanh, seq![a.0])),
            v.0 == old(self).nodes@.len(),
    {
        self.unary(a, ScalarOp::Tanh)
    }

    /// `a * a`.
    pub fn pow2(&mut self, a: Value) -> (v: Value)
        requires old(self).wf(), old(self).has(a),
        ensures
            final(self).wf(),
            final(self).added(old(self), kid(ScalarOp::Pow2, seq![a.0])),
            v.0 == old(self).nodes@.len(),
    {
        self.unary(a, ScalarOp::Pow2)
    }

    /// Marks every node created so far as a parameter.
    pub fn set_param_end(&mut self)
        requires
            old(self).wf(),
        ensures
            final(self).wf(),
            final(self).views() == old(self).views(),
            final(self).param_end == old(self).nodes@.len(),
    {
        self.param_end = self.nodes.len();
        assert(self.views() == old(self).views());
    }

    /// Drops every node after the parameters.
    pub fn flush(&mut self)
        requires
            old(self).wf(),
        ensures
            final(self).wf(),
            final(self).views() == old(self).views().take(old(self).param_end as int),
            final(self).param_end == old(self).param_end,
    {
        let end = self.param_end;
        self.nodes.truncate(end);
        proof {
            assert(self.views() =~= old(self).views().take(end as int));
            assert forall|i: int| 0 <= i < self.nodes@.len() implies #[trigger] scalar_node_wf(self.views(), i) by {
                assert(scalar_node_wf(old(self).views(), i));
            }
        }
    }

    /// The order in which backpropagation from `root` feeds gradients: for
    /// each node from `root` down to the first, each of its inputs in turn, as
    /// the pair (node, input slot).
    pub fn backward_order(&self, root: Value) -> (r: Vec<(usize, usize)>)
        requires
            self.wf(),
            self.has(root),
        ensures
            r@ == backward_pairs(self.views(), root.0 as int),
    {
        let mut r: Vec<(usize, usize)> = Vec::new();
        let total = self.nodes.len();
        assert(root.0 < total);
        let mut k = root.0 + 1;
        assert(backward_pairs(self.views(), root.0 as int) == backward_pairs_from(self.views(), root.0 as int, root.0 + 1));
        while k > 0
            invariant
                k <= root.0 + 1,
                root.0 < self.nodes@.len(),
                r@ + backward_pairs_from(self.views(), root.0 as int, k as int) == backward_pairs(self.views(), root.0 as int),
            decreases k,
        {
            k = k - 1;
            let m = self.nodes[k].parents.len();
            let ghost before = r@;
            for p in 0..m
                invariant
                    m == self.views()[k as int].parents.len(),
                    r@ == before + Seq::new(p as nat, |q: int| (k, q as usize)),
            {
                r.push((k, p));
                assert(Seq::new((p + 1) as nat, |q: int| (k, q as usize)) =~= Seq::new(p as nat, |q: int| (k, q as usize)).push((k, p)));
            }
            proof {
                assert(backward_pairs_from(self.views(), root.0 as int, (k + 1) as int)
                    == Seq::new(m as nat, |q: int| (k, q as usize)) + backward_pairs_from(self.views(), root.0 as int, k as int));
                assert(before + Seq::new(m as nat, |q: int| (k, q as usize)) + backward_pairs_from(self.views(), root.0 as int, k as int)
                    =~= before + (Seq::new(m as nat, |q: int| (k, q as usize)) + backward_pairs_from(self.views(), root.0 as int, k as int)));
            }
        }
        assert(r@ + backward_pairs_from(self.views(), root.0 as int, 0) =~= r@);
        r
    }
}

/// The (node, input slot) pairs of the nodes `k - 1` down to `0`.
pub open spec fn backward_pairs_from(v: Seq<NodeSpec>, root: int, k: int) -> Seq<(usize, usize)>
    decreases k,
{
    if k <= 0 {
        Seq::empty()
    } else {
        Seq::new(v[k - 1].parents.len(), |q: int| ((k - 1) as usize, q as usize))
            + backward_pairs_from(v, root, k - 1)
    }
}

/// The (node, input slot) pairs of the nodes `root` down to `0`.
pub open spec fn backward_pairs(v: Seq<NodeSpec>, root: int) -> Seq<(usize, usize)> {
    backward_pairs_from(v, root, root + 1)
}

/// Backpropagation from `root` visits the nodes from `root` down to the
/// first, so each node's gradient is complete before it is passed on to its
/// inputs (which come before it); each node's input slots come in order, and
/// every input slot of every node up to `root` is visited exactly there.
pub proof fn lemma_backward_pairs_order(v: Seq<NodeSpec>, root: int, k: int)
    requires
        0 <= k <= root + 1,
        root < v.len(),
        v.len() <= usize::MAX,
        forall|n: int| 0 <= n < v.len() ==> (#[trigger] v[n]).parents.len() <= usize::MAX,
    ensures
        forall|j: int| 0 <= j < backward_pairs_from(v, root, k).len() ==> {
            &&& (#[trigger] backward_pairs_from(v, root, k)[j]).0 < k
            &&& backward_pairs_from(v, root, k)[j].1 < v[backward_pairs_from(v, root, k)[j].0 as int].parents.len()
        },
        forall|i: int, j: int| 0 <= i < j < backward_pairs_from(v, root, k).len() ==> {
            let a = #[trigger] backward_pairs_from(v, root, k)[i];
            let b = #[trigger] backward_pairs_from(v, root, k)[j];
            a.0 > b.0 || (a.0 == b.0 && a.1 < b.1)
        },
        forall|n: int, q: int| 0 <= n < k && 0 <= q < v[n].parents.len() ==>
            #[trigger] backward_pairs_from(v, root, k).contains((n as usize, q as usize)),
    decreases k,
{
    if k > 0 {
        lemma_backward_pairs_order(v, root, k - 1);
        let head = Seq::new(v[k - 1].parents.len(), |q: int| ((k - 1) as usize, q as usize));
        let tail = backward_pairs_from(v, root, k - 1);
        let all = backward_pairs_from(v, root, k);
        assert(all == head + tail);
        assert(v[k - 1].parents.len() <= usize::MAX);
        assert forall|j: int| 0 <= j < all.len() implies {
            &&& (#[trigger] all[j]).0 < k
            &&& all[j].1 < v[all[j].0 as int].parents.len()
        } by {
            if j >= head.len() {
                assert(all[j] == tail[j - head.len()]);
            } else {
                assert(all[j] == head[j]);
                assert(head[j] == ((k - 1) as usize, j as usize));
            }
        }
        assert forall|i: int, j: int| 0 <= i < j < all.len() implies {
            let a = #[trigger] all[i];
            let b = #[trigger] all[j];
            a.0 > b.0 || (a.0 == b.0 && a.1 < b.1)
        } by {
            if j >= head.len() {
                assert(all[j] == tail[j - head.len()]);
                assert(tail[j - head.len()].0 < k - 1);
                if i >= head.len() {
                    assert(all[i] == tail[i - head.len()]);
                } else {
                    assert(all[i] == head[i]);
                }
            } else {
                assert(all[i] == head[i]);
                assert(all[j] == head[j]);
            }
        }
        assert forall|n: int, q: int| 0 <= n < k && 0 <= q < v[n].parents.len() implies
            #[trigger] all.contains((n as usize, q as usize)) by {
            if n == k - 1 {
                assert(all[q] == (n as usize, q as usize));
            } else {
                assert(tail.contains((n as usize, q as usize)));
                let j = choose|j: int| 0 <= j < tail.len() && tail[j] == (n as usize, q as usize);
                assert(all[j + head.len()] == tail[j]);
            }
        }
    }
}

} // verus!
