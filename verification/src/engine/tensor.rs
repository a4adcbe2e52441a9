use vstd::prelude::*;
use crate::gpu::gpu::BufferId;

verus! {

/// The product of a sequence of dimensions, folded from the left.
pub open spec fn prod(s: Seq<usize>) -> nat
    decreases s.len(),
{
    if s.len() == 0 {
        1
    } else {
        prod(s.drop_last()) * (s.last() as nat)
    }
}

/// Every product of a contiguous run of `s` fits in a `usize`.
pub open spec fn segments_fit(s: Seq<usize>) -> bool {
    forall|i: int, j: int| 0 <= i <= j <= s.len() ==> #[trigger] prod(s.subrange(i, j)) <= usize::MAX
}

/// Row-major strides of a shape: the product of the dimensions after each one.
pub open spec fn strides_of(s: Seq<usize>) -> Seq<usize> {
    Seq::new(s.len(), |d: int| prod(s.subrange(d + 1, s.len() as int)) as usize)
}

/// Extending a run of dimensions by one multiplies its product by that dimension.
pub proof fn lemma_prod_step(s: Seq<usize>, lo: int, k: int)
    requires
        0 <= lo <= k < s.len(),
    ensures
        prod(s.subrange(lo, k + 1)) == prod(s.subrange(lo, k)) * (s[k] as nat),
{
    assert(s.subrange(lo, k + 1).drop_last() =~= s.subrange(lo, k));
}

/// The products of no, one and two dimensions.
pub proof fn lemma_prod_small(x: usize, y: usize)
    ensures
        prod(Seq::<usize>::empty()) == 1,
        prod(seq![x]) == x as nat,
        prod(seq![x, y]) == (x as nat) * (y as nat),
{
    assert(seq![x].drop_last() =~= Seq::<usize>::empty());
    assert(seq![x, y].drop_last() =~= seq![x]);
    assert(prod(Seq::<usize>::empty()) == 1);
    assert(seq![x].last() == x);
    assert(seq![x, y].last() == y);
    assert(prod(seq![x]) == prod(Seq::<usize>::empty()) * (x as nat));
    assert(prod(seq![x]) == x as nat);
    assert(prod(seq![x, y]) == (x as nat) * (y as nat));
}

/// A one-dimensional shape always fits.
pub proof fn lemma_single(x: usize)
    ensures
        segments_fit(seq![x]),
        prod(seq![x]) == x as nat,
        strides_of(seq![x]) == seq![1usize],
{
    lemma_prod_small(x, 0);
    let s = seq![x];
    assert forall|i: int, j: int| 0 <= i <= j <= s.len() implies #[trigger] prod(s.subrange(i, j)) <= usize::MAX by {
        if i == j {
            assert(s.subrange(i, j) =~= Seq::<usize>::empty());
        } else {
            assert(s.subrange(i, j) =~= seq![x]);
        }
    }
    assert(seq![x].subrange(1, 1) =~= Seq::<usize>::empty());
    assert(strides_of(seq![x]) =~= seq![1usize]);
}

/// A two-dimensional shape fits when its element count does.
pub proof fn lemma_pair(r: usize, c: usize)
    requires
        (r as nat) * (c as nat) <= usize::MAX,
    ensures
        segments_fit(seq![r, c]),
        prod(seq![r, c]) == (r as nat) * (c as nat),
        strides_of(seq![r, c]) == seq![c, 1usize],
{
    lemma_prod_small(r, c);
    lemma_prod_small(c, 0);
    let s = seq![r, c];
    assert forall|i: int, j: int| 0 <= i <= j <= s.len() implies #[trigger] prod(s.subrange(i, j)) <= usize::MAX by {
        if i == j {
            assert(s.subrange(i, j) =~= Seq::<usize>::empty());
        } else if i == 0 && j == 1 {
            assert(s.subrange(i, j) =~= seq![r]);
        } else if i == 1 && j == 2 {
            assert(s.subrange(i, j) =~= seq![c]);
        } else {
            assert(s.subrange(i, j) =~= seq![r, c]);
        }
    }
    assert(seq![r, c].subrange(1, 2) =~= seq![c]);
    assert(seq![r, c].subrange(2, 2) =~= Seq::<usize>::empty());
    assert(strides_of(seq![r, c]) =~= seq![c, 1usize]);
}

/// The product of `s[lo..hi]`.
pub fn product(s: &[usize], lo: usize, hi: usize) -> (r: usize)
    requires
        lo <= hi <= s@.len(),
        segments_fit(s@),
    ensures
        r as nat == prod(s@.subrange(lo as int, hi as int)),
{
    let mut r: usize = 1;
    let mut k = lo;
    assert(s@.subrange(lo as int, lo as int) =~= Seq::<usize>::empty());
    while k < hi
        invariant
            lo <= k <= hi <= s@.len(),
            segments_fit(s@),
            r as nat == prod(s@.subrange(lo as int, k as int)),
        decreases hi - k,
    {
        proof {
            lemma_prod_step(s@, lo as int, k as int);
            assert(prod(s@.subrange(lo as int, k + 1)) <= usize::MAX);
        }
        r = r * s[k];
        k = k + 1;
    }
    r
}

/// What an operation node computes.
#[derive(Clone, Copy, PartialEq, Eq, Structural, Debug)]
pub enum Op {
    Leaf,
    MatMul,
    BiasAdd,
    Gather,
    Log,
    Neg,
    Exp,
    Tanh,
    Sq,
    Mul,
    Max,
    MatAdd,
    Sub,
    Mean,
    Sum,
    Div,
    SubRowMax,
    Reshape,
    Dropout,
}

/// The number of parents a node of each operation has.
pub open spec fn arity(op: Op) -> nat {
    match op {
        Op::Leaf => 0,
        Op::MatMul | Op::BiasAdd | Op::Gather | Op::Mul | Op::Max | Op::MatAdd | Op::Sub | Op::Div => 2,
        _ => 1,
    }
}

/// The symbol of a tensor operation.
pub open spec fn op_symbol(op: Op) -> Seq<char> {
    match op {
        Op::Leaf => ""@,
        Op::MatMul => "@"@,
        Op::BiasAdd => "bias +"@,
        Op::Gather => "gather"@,
        Op::Log => "log"@,
        Op::Neg => "neg"@,
        Op::Exp => "exp"@,
        Op::Tanh => "tanh"@,
        Op::Sq => "sq"@,
        Op::Mul => "mul"@,
        Op::Max => "max"@,
        Op::MatAdd => "matadd"@,
        Op::Sub => "sub"@,
        Op::Mean => "mean"@,
        Op::Sum => "sum"@,
        Op::Div => "div"@,
        Op::SubRowMax => "sub_row_max"@,
        Op::Reshape => "reshape"@,
        Op::Dropout => "dropout"@,
    }
}

impl Op {
    /// The operation's symbol.
    pub fn name(&self) -> (r: &'static str)
        ensures
            r@ == op_symbol(*self),
    {
        match self {
            Op::Leaf => "",
            Op::MatMul => "@",
            Op::BiasAdd => "bias +",
            Op::Gather => "gather",
            Op::Log => "log",
            Op::Neg => "neg",
            Op::Exp => "exp",
            Op::Tanh => "tanh",
            Op::Sq => "sq",
            Op::Mul => "mul",
            Op::Max => "max",
            Op::MatAdd => "matadd",
            Op::Sub => "sub",
            Op::Mean => "mean",
            Op::Sum => "sum",
            Op::Div => "div",
            Op::SubRowMax => "sub_row_max",
            Op::Reshape => "reshape",
            Op::Dropout => "dropout",
        }
    }
}

/// A tensor held on the device: its buffers and its place in the graph.
pub struct TensorNode {
    pub data: BufferId,
    pub grad: BufferId,
    pub shape: Vec<usize>,
    pub strides: Vec<usize>,
    pub len: usize,
    pub parents: Vec<usize>,
    pub op: Op,
    pub saved: Vec<BufferId>,
}

/// The spec-level image of a node.
pub struct NodeView {
    pub data: BufferId,
    pub grad: BufferId,
    pub shape: Seq<usize>,
    pub strides: Seq<usize>,
    pub len: usize,
    pub parents: Seq<usize>,
    pub op: Op,
    pub saved: Seq<BufferId>,
}

impl View for TensorNode {
    type V = NodeView;

    open spec fn view(&self) -> NodeView {
        NodeView {
            data: self.data,
            grad: self.grad,
            shape: self.shape@,
            strides: self.strides@,
            len: self.len,
            parents: self.parents@,
            op: self.op,
            saved: self.saved@,
        }
    }
}

/// The node built from two buffers and a shape, before it joins a graph.
pub open spec fn leaf_view(data: BufferId, grad: BufferId, shape: Seq<usize>) -> NodeView {
    NodeView {
        data,
        grad,
        shape,
        strides: strides_of(shape),
        len: prod(shape) as usize,
        parents: Seq::empty(),
        op: Op::Leaf,
        saved: Seq::empty(),
    }
}

impl TensorNode {
    /// A node over the given data and gradient buffers, with row-major strides.
    pub fn from_buffers(data: BufferId, grad: BufferId, shape: Vec<usize>) -> (r: TensorNode)
        requires
            segments_fit(shape@),
        ensures
            r@ == leaf_view(data, grad, shape@),
    {
        let len = product(shape.as_slice(), 0, shape.len());
        let mut strides: Vec<usize> = Vec::new();
        let n = shape.len();
        for dim in 0..n
            invariant
                n == shape@.len(),
                segments_fit(shape@),
                strides@ =~= strides_of(shape@).take(dim as int),
        {
            let st = product(shape.as_slice(), dim + 1, n);
            strides.push(st);
        }
        assert(shape@.subrange(0, n as int) =~= shape@);
        assert(strides@ =~= strides_of(shape@));
        let r = TensorNode {
            data,
            grad,
            shape,
            strides,
            len,
            parents: Vec::new(),
            op: Op::Leaf,
            saved: Vec::new(),
        };
        assert(r@.parents =~= Seq::<usize>::empty());
        assert(r@.saved =~= Seq::<BufferId>::empty());
        r
    }
}

} // verus!
