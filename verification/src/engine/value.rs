use vstd::prelude::*;
use crate::model::value::Init;

verus! {

/// What a node of the scalar graph computes.
#[derive(Clone, Copy, PartialEq, Eq, Structural, Debug)]
pub enum ValueOp {
    /// An input or parameter; its first value comes from its `Init`.
    Leaf,
    Add,
    Sub,
    Mul,
    Div,
    Neg,
    Pow2,
    Exp,
    Log,
    Max,
}

/// The symbol of a value operation.
pub open spec fn value_symbol(op: ValueOp) -> Seq<char> {
    match op {
        ValueOp::Leaf => ""@,
        ValueOp::Add => "+"@,
        ValueOp::Sub => "-"@,
        ValueOp::Mul => "*"@,
        ValueOp::Div => "/"@,
        ValueOp::Neg => "neg"@,
        ValueOp::Pow2 => "pow2"@,
        ValueOp::Exp => "exp"@,
        ValueOp::Log => "log"@,
        ValueOp::Max => "max"@,
    }
}

impl ValueOp {
    /// The operation's symbol.
    pub fn name(&self) -> (r: &'static str)
        ensures
            r@ == value_symbol(*self),
    {
        match self {
            ValueOp::Leaf => "",
            ValueOp::Add => "+",
            ValueOp::Sub => "-",
            ValueOp::Mul => "*",
            ValueOp::Div => "/",
            ValueOp::Neg => "neg",
            ValueOp::Pow2 => "pow2",
            ValueOp::Exp => "exp",
            ValueOp::Log => "log",
            ValueOp::Max => "max",
        }
    }
}

/// The number of inputs of each operation.
pub open spec fn value_arity(op: ValueOp) -> nat {
    match op {
        ValueOp::Leaf => 0,
        ValueOp::Neg | ValueOp::Pow2 | ValueOp::Exp | ValueOp::Log => 1,
        _ => 2,
    }
}

/// A node: its operation, the nodes it reads, and, for a leaf, its first value.
pub struct Node {
    pub parents: Vec<usize>,
    pub op: ValueOp,
    pub init: Init,
}

/// The spec-level image of a node.
pub struct NodeSpec {
    pub parents: Seq<usize>,
    pub op: ValueOp,
    pub init: Init,
}

impl View for Node {
    type V = NodeSpec;

    open spec fn view(&self) -> NodeSpec {
        NodeSpec { parents: self.parents@, op: self.op, init: self.init }
    }
}

/// A scalar: the index of its node in the pool.
#[derive(Clone, Copy, PartialEq, Eq, Structural, Debug)]
pub struct Value(pub usize);

/// The expression graph of scalar automatic differentiation, in the order the
/// nodes were created; the host evaluates values and gradients. Nodes before
/// `param_end` are the parameters, nodes before `input_end` the parameters
/// and the current inputs.
pub struct Pool {
    pub nodes: Vec<Node>,
    pub param_end: usize,
    pub input_end: usize,
}

/// The node computing `op` from `parents`.
pub open spec fn kid_node(op: ValueOp, parents: Seq<usize>) -> NodeSpec {
    NodeSpec { parents, op, init: Init::Bits(0) }
}

/// A leaf with first value `init`.
pub open spec fn leaf_node(init: Init) -> NodeSpec {
    NodeSpec { parents: Seq::empty(), op: ValueOp::Leaf, init }
}

/// Node `i` reads only nodes created before it, as many as its operation takes.
pub open spec fn value_node_wf(v: Seq<NodeSpec>, i: int) -> bool {
    &&& v[i].parents.len() == value_arity(v[i].op)
    &&& forall|k: int| 0 <= k < v[i].parents.len() ==> #[trigger] v[i].parents[k] < i
}

impl Pool {
    pub open spec fn views(&self) -> Seq<NodeSpec> {
        self.nodes@.map_values(|n: Node| n@)
    }

    /// Every node is well formed.
    pub open spec fn wf(&self) -> bool {
        forall|i: int| 0 <= i < self.nodes@.len() ==> #[trigger] value_node_wf(self.views(), i)
    }

    /// `v` names a node of the pool.
    pub open spec fn has(&self, v: Value) -> bool {
        v.0 < self.nodes@.len()
    }

    /// `self` is `old` with node `n` added.
    pub open spec fn added(&self, old: &Pool, n: NodeSpec) -> bool {
        &&& self.views() == old.views().push(n)
        &&& self.nodes@.len() == old.nodes@.len() + 1
        &&& self.param_end == old.param_end
        &&& self.input_end == old.input_end
    }

    /// An empty graph.
    pub fn new() -> (p: Pool)
        ensures
            p.wf(),
            p.views() == Seq::<NodeSpec>::empty(),
            p.param_end == 0,
            p.input_end == 0,
    {
        let p = Pool { nodes: Vec::new(), param_end: 0, input_end: 0 };
        assert(p.views() =~= Seq::<NodeSpec>::empty());
        p
    }

    fn push(&mut self, parents: Vec<usize>, op: ValueOp, init: Init) -> (v: Value)
        requires
            old(self).wf(),
            parents@.len() == value_arity(op),
            forall|k: int| 0 <= k < parents@.len() ==> #[trigger] parents@[k] < old(self).nodes@.len(),
        ensures
            final(self).wf(),
            final(self).added(old(self), NodeSpec { parents: parents@, op, init }),
            v.0 == old(self).nodes@.len(),
    {
        let ghost n = NodeSpec { parents: parents@, op, init };
        self.nodes.push(Node { parents, op, init });
        proof {
            assert(self.views() =~= old(self).views().push(n));
            assert forall|i: int| 0 <= i < self.nodes@.len() implies #[trigger] value_node_wf(self.views(), i) by {
                if i < old(self).nodes@.len() {
                    assert(value_node_wf(old(self).views(), i));
                }
            }
        }
        Value(self.nodes.len() - 1)
    }

    /// A new leaf whose first value is the 64-bit float with bit pattern `bits`.
    pub fn new_value(&mut self, bits: u64) -> (v: Value)
        requires
            old(self).wf(),
        ensures
            final(self).wf(),
            final(self).added(old(self), leaf_node(Init::Bits(bits))),
            v.0 == old(self).nodes@.len(),
    {
        let parents: Vec<usize> = Vec::new();
        assert(parents@ =~= Seq::<usize>::empty());
        self.push(parents, ValueOp::Leaf, Init::Bits(bits))
    }

    /// A new node computing `op` from `parents`.
    pub fn new_kid(&mut self, parents: Vec<usize>, op: ValueOp) -> (v: Value)
        requires
            old(self).wf(),
            parents@.len() == value_arity(op),
            forall|k: int| 0 <= k < parents@.len() ==> #[trigger] parents@[k] < old(self).nodes@.len(),
        ensures
            final(self).wf(),
            final(self).added(old(self), kid_node(op, parents@)),
            v.0 == old(self).nodes@.len(),
    {
        self.push(parents, op, Init::Bits(0))
    }

    /// The node `op(a, b)`.
    pub fn binary(&mut self, a: Value, b: Value, op: ValueOp) -> (v: Value)
        requires
            old(self).wf(),
            old(self).has(a),
            old(self).has(b),
            value_arity(op) == 2,
        ensures
            final(self).wf(),
            final(self).added(old(self), kid_node(op, seq![a.0, b.0])),
            v.0 == old(self).nodes@.len(),
    {
        let mut parents: Vec<usize> = Vec::new();
        parents.push(a.0);
        parents.push(b.0);
        assert(parents@ =~= seq![a.0, b.0]);
        self.new_kid(parents, op)
    }

    /// The node `op(a)`.
    pub fn unary(&mut self, a: Value, op: ValueOp) -> (v: Value)
        requires
            old(self).wf(),
            old(self).has(a),
            value_arity(op) == 1,
        ensures
            final(self).wf(),
            final(self).added(old(self), kid_node(op, seq![a.0])),
            v.0 == old(self).nodes@.len(),
    {
        let mut parents: Vec<usize> = Vec::new();
        parents.push(a.0);
        assert(parents@ =~= seq![a.0]);
        self.new_kid(parents, op)
    }

    /// `a + b`.
    pub fn add(&mut self, a: Value, b: Value) -> (v: Value)
        requires old(self).wf(), old(self).has(a), old(self).has(b),
        ensures final(self).wf(), final(self).added(old(self), kid_node(ValueOp::Add, seq![a.0, b.0])), v.0 == old(self).nodes@.len(),
    {
        self.binary(a, b, ValueOp::Add)
    }

    /// `a - b`.
    pub fn sub(&mut self, a: Value, b: Value) -> (v: Value)
        requires old(self).wf(), old(self).has(a), old(self).has(b),
        ensures final(self).wf(), final(self).added(old(self), kid_node(ValueOp::Sub, seq![a.0, b.0])), v.0 == old(self).nodes@.len(),
    {
        self.binary(a, b, ValueOp::Sub)
    }

    /// `a * b`.
    pub fn mul(&mut self, a: Value, b: Value) -> (v: Value)
        requires old(self).wf(), old(self).has(a), old(self).has(b),
        ensures final(self).wf(), final(self).added(old(self), kid_node(ValueOp::Mul, seq![a.0, b.0])), v.0 == old(self).nodes@.len(),
    {
        self.binary(a, b, ValueOp::Mul)
    }

    /// `a / b`.
    pub fn div(&mut self, a: Value, b: Value) -> (v: Value)
        requires old(self).wf(), old(self).has(a), old(self).has(b),
        ensures final(self).wf(), final(self).added(old(self), kid_node(ValueOp::Div, seq![a.0, b.0])), v.0 == old(self).nodes@.len(),
    {
        self.binary(a, b, ValueOp::Div)
    }

    /// The larger of `a` and `b`.
    pub fn max(&mut self, a: Value, b: Value) -> (v: Value)
        requires old(self).wf(), old(self).has(a), old(self).has(b),
        ensures final(self).wf(), final(self).added(old(self), kid_node(ValueOp::Max, seq![a.0, b.0])), v.0 == old(self).nodes@.len(),
    {
        self.binary(a, b, ValueOp::Max)
    }

    /// `-a`.
    pub fn neg(&mut self, a: Value) -> (v: Value)
        requires old(self).wf(), old(self).has(a),
        ensures final(self).wf(), final(self).added(old(self), kid_node(ValueOp::Neg, seq![a.0])), v.0 == old(self).nodes@.len(),
    {
        self.unary(a, ValueOp::Neg)
    }

    /// `a * a`.
    pub fn pow2(&mut self, a: Value) -> (v: Value)
        requires old(self).wf(), old(self).has(a),
        ensures final(self).wf(), final(self).added(old(self), kid_node(ValueOp::Pow2, seq![a.0])), v.0 == old(self).nodes@.len(),
    {
        self.unary(a, ValueOp::Pow2)
    }

    /// `e^a`.
    pub fn exp(&mut self, a: Value) -> (v: Value)
        requires old(self).wf(), old(self).has(a),
        ensures final(self).wf(), final(self).added(old(self), kid_node(ValueOp::Exp, seq![a.0])), v.0 == old(self).nodes@.len(),
    {
        self.unary(a, ValueOp::Exp)
    }

    /// The natural logarithm of `a`.
    pub fn log(&mut self, a: Value) -> (v: Value)
        requires old(self).wf(), old(self).has(a),
        ensures final(self).wf(), final(self).added(old(self), kid_node(ValueOp::Log, seq![a.0])), v.0 == old(self).nodes@.len(),
    {
        self.unary(a, ValueOp::Log)
    }

    /// Marks every node created so far as a parameter.
    pub fn set_param_end(&mut self)
        requires
            old(self).wf(),
        ensures
            final(self).wf(),
            final(self).views() == old(self).views(),
            final(self).param_end == old(self).nodes@.len(),
            final(self).input_end == old(self).input_end,
    {
        self.param_end = self.nodes.len();
        assert(self.views() == old(self).views());
    }

    /// Marks every node created so far as a parameter or a current input.
    pub fn set_input_end(&mut self)
        requires
            old(self).wf(),
        ensures
            final(self).wf(),
            final(self).views() == old(self).views(),
            final(self).input_end == old(self).nodes@.len(),
            final(self).param_end == old(self).param_end,
    {
        self.input_end = self.nodes.len();
        assert(self.views() == old(self).views());
    }

    fn truncate_to(&mut self, end: usize)
        requires
            old(self).wf(),
        ensures
            final(self).wf(),
            final(self).views() == keep_first(old(self).views(), end as int),
            final(self).param_end == old(self).param_end,
            final(self).input_end == old(self).input_end,
    {
        self.nodes.truncate(end);
        proof {
            assert(self.views() =~= keep_first(old(self).views(), end as int));
            assert forall|i: int| 0 <= i < self.nodes@.len() implies #[trigger] value_node_wf(self.views(), i) by {
                assert(value_node_wf(old(self).views(), i));
            }
        }
    }

    /// Drops the nodes after the current inputs (the computation on them).
    /// An input boundary must have been set.
    pub fn flush_compute(&mut self)
        requires
            old(self).wf(),
            old(self).input_end != 0,
        ensures
            final(self).wf(),
            final(self).views() == keep_first(old(self).views(), old(self).input_end as int),
            final(self).param_end == old(self).param_end,
            final(self).input_end == old(self).input_end,
    {
        let end = self.input_end;
        self.truncate_to(end);
    }

    /// Drops the nodes after the parameters. A parameter boundary must have
    /// been set.
    pub fn flush(&mut self)
        requires
            old(self).wf(),
            old(self).param_end != 0,
        ensures
            final(self).wf(),
            final(self).views() == keep_first(old(self).views(), old(self).param_end as int),
            final(self).param_end == old(self).param_end,
            final(self).input_end == old(self).input_end,
    {
        let end = self.param_end;
        self.truncate_to(end);
    }
}

/// The first `end` nodes of `v`, or all of them when there are fewer.
pub open spec fn keep_first(v: Seq<NodeSpec>, end: int) -> Seq<NodeSpec> {
    if end < v.len() { v.take(end) } else { v }
}

} // verus!
