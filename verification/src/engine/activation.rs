use vstd::prelude::*;
use crate::model::value::Init;
use crate::engine::value::{NodeSpec, Pool, Value, ValueOp, kid_node, leaf_node};

verus! {

/// The bit pattern of the 64-bit float `2.0`.
pub const TWO_BITS: u64 = 0x4000_0000_0000_0000;

/// The bit pattern of the 64-bit float `1.0`.
pub const ONE_BITS: u64 = 0x3FF0_0000_0000_0000;

/// The activation applied to a layer's outputs in the scalar engine.
#[derive(Clone, Copy, PartialEq, Eq, Structural, Debug)]
pub enum Activation {
    Tanh,
    Relu,
    Softmax,
}

/// Node `k` of the seven nodes `tanh(x)` adds from index `s`:
/// `(e^(2x) - 1) / (e^(2x) + 1)`.
pub open spec fn tanh_node(x: Value, s: int, k: int) -> NodeSpec {
    if k == 0 {
        leaf_node(Init::Bits(TWO_BITS))
    } else if k == 1 {
        leaf_node(Init::Bits(ONE_BITS))
    } else if k == 2 {
        kid_node(ValueOp::Mul, seq![s as usize, x.0])
    } else if k == 3 {
        kid_node(ValueOp::Exp, seq![(s + 2) as usize])
    } else if k == 4 {
        kid_node(ValueOp::Sub, seq![(s + 3) as usize, (s + 1) as usize])
    } else if k == 5 {
        kid_node(ValueOp::Add, seq![(s + 3) as usize, (s + 1) as usize])
    } else {
        kid_node(ValueOp::Div, seq![(s + 4) as usize, (s + 5) as usize])
    }
}

/// Node `k` of the two nodes `relu(x)` adds from index `s`: a zero, then the
/// larger of `x` and it.
pub open spec fn relu_node(x: Value, s: int, k: int) -> NodeSpec {
    if k == 0 { leaf_node(Init::Bits(0)) } else { kid_node(ValueOp::Max, seq![x.0, s as usize]) }
}

/// The nodes that applying `f` (`w` nodes per logit) to each of `logits` in
/// turn adds from index `base`.
pub open spec fn each_nodes(act: Activation, logits: Seq<Value>, base: int) -> Seq<NodeSpec> {
    let w = width(act);
    Seq::new((w * logits.len()) as nat, |j: int| {
        let i = j / w;
        let s = base + i * w;
        if act == Activation::Tanh { tanh_node(logits[i], s, j % w) } else { relu_node(logits[i], s, j % w) }
    })
}

/// The nodes one logit takes under the activation.
pub open spec fn width(act: Activation) -> int {
    if act == Activation::Tanh { 7 } else { 2 }
}

/// The nodes `softmax(logits)` adds from index `base`: the exponential of
/// each logit, a zero, the running sums of the exponentials, and each
/// exponential divided by the last sum.
pub open spec fn softmax_nodes(logits: Seq<Value>, base: int) -> Seq<NodeSpec> {
    let n = logits.len() as int;
    let zero = base + n;
    let total = if n == 0 { zero } else { zero + n };
    Seq::new((3 * n + 1) as nat, |j: int|
        if j < n {
            kid_node(ValueOp::Exp, seq![logits[j].0])
        } else if j == n {
            leaf_node(Init::Bits(0))
        } else if j <= 2 * n {
            kid_node(ValueOp::Add, seq![(if j == n + 1 { zero } else { base + j - 1 }) as usize, (base + j - n - 1) as usize])
        } else {
            kid_node(ValueOp::Div, seq![(base + j - 2 * n - 1) as usize, total as usize])
        })
}

/// `tanh(logit)`, computed from the exponential.
pub fn tanh(pool: &mut Pool, logit: Value) -> (r: Value)
    requires
        old(pool).wf(),
        old(pool).has(logit),
    ensures
        final(pool).wf(),
        final(pool).param_end == old(pool).param_end,
        final(pool).input_end == old(pool).input_end,
        final(pool).views() == old(pool).views()
            + Seq::new(7, |k: int| tanh_node(logit, old(pool).nodes@.len() as int, k)),
        final(pool).nodes@.len() == old(pool).nodes@.len() + 7,
        r.0 == old(pool).nodes@.len() + 6,
{
    let ghost s = old(pool).nodes@.len() as int;
    let two = pool.new_value(TWO_BITS);
    let one = pool.new_value(ONE_BITS);
    let twox = pool.mul(two, logit);
    let exp = pool.exp(twox);
    let sub = pool.sub(exp, one);
    let add = pool.add(exp, one);
    let r = pool.div(sub, add);
    assert(pool.views() =~= old(pool).views() + Seq::new(7, |k: int| tanh_node(logit, s, k)));
    r
}

/// `max(logit, 0)`.
pub fn relu(pool: &mut Pool, logit: Value) -> (r: Value)
    requires
        old(pool).wf(),
        old(pool).has(logit),
    ensures
        final(pool).wf(),
        final(pool).param_end == old(pool).param_end,
        final(pool).input_end == old(pool).input_end,
        final(pool).views() == old(pool).views()
            + Seq::new(2, |k: int| relu_node(logit, old(pool).nodes@.len() as int, k)),
        final(pool).nodes@.len() == old(pool).nodes@.len() + 2,
        r.0 == old(pool).nodes@.len() + 1,
{
    let ghost s = old(pool).nodes@.len() as int;
    let zero = pool.new_value(0);
    let r = pool.max(logit, zero);
    assert(pool.views() =~= old(pool).views() + Seq::new(2, |k: int| relu_node(logit, s, k)));
    r
}

/// The softmax of `logits`: each exponential over the sum of the exponentials.
pub fn softmax(pool: &mut Pool, logits: &[Value]) -> (r: Vec<Value>)
    requires
        old(pool).wf(),
        forall|k: int| 0 <= k < logits@.len() ==> #[trigger] old(pool).has(logits@[k]),
    ensures
        final(pool).wf(),
        final(pool).param_end == old(pool).param_end,
        final(pool).input_end == old(pool).input_end,
        final(pool).views() == old(pool).views() + softmax_nodes(logits@, old(pool).nodes@.len() as int),
        r@.len() == logits@.len(),
        forall|i: int| 0 <= i < r@.len() ==>
            (#[trigger] r@[i]).0 == old(pool).nodes@.len() + 2 * logits@.len() + 1 + i,
{
    let ghost base = old(pool).nodes@.len() as int;
    let ghost nn = softmax_nodes(logits@, base);
    let n = logits.len();
    assert forall|q: int| 0 <= q < logits@.len() implies #[trigger] logits@[q].0 < base by {
        assert(old(pool).has(logits@[q]));
    }
    let mut exps: Vec<Value> = Vec::new();
    for i in 0..n
        invariant
            n == logits@.len(),
            base == old(pool).nodes@.len(),
            nn == softmax_nodes(logits@, base),
            pool.wf(),
            pool.param_end == old(pool).param_end,
            pool.input_end == old(pool).input_end,
            pool.nodes@.len() == base + i,
            pool.views() == old(pool).views() + nn.take(i as int),
            exps@.len() == i,
            forall|q: int| 0 <= q < i ==> (#[trigger] exps@[q]).0 == base + q,
            forall|q: int| 0 <= q < logits@.len() ==> #[trigger] logits@[q].0 < base,
    {
        let e = pool.exp(logits[i]);
        assert(pool.views() =~= old(pool).views() + nn.take(i + 1));
        exps.push(e);
    }
    let mut sum = pool.new_value(0);
    assert(pool.views() =~= old(pool).views() + nn.take(n + 1));
    for i in 0..n
        invariant
            n == logits@.len(),
            base == old(pool).nodes@.len(),
            nn == softmax_nodes(logits@, base),
            pool.wf(),
            pool.param_end == old(pool).param_end,
            pool.input_end == old(pool).input_end,
            pool.nodes@.len() == base + n + 1 + i,
            pool.views() == old(pool).views() + nn.take(n + 1 + i),
            sum.0 == if i == 0 { base + n } else { base + n + i },
            exps@.len() == n,
            forall|q: int| 0 <= q < n ==> (#[trigger] exps@[q]).0 == base + q,
    {
        let s = pool.add(sum, exps[i]);
        assert(pool.views() =~= old(pool).views() + nn.take(n + 1 + i + 1));
        sum = s;
    }
    let mut r: Vec<Value> = Vec::new();
    for i in 0..n
        invariant
            n == logits@.len(),
            base == old(pool).nodes@.len(),
            nn == softmax_nodes(logits@, base),
            pool.wf(),
            pool.param_end == old(pool).param_end,
            pool.input_end == old(pool).input_end,
            pool.nodes@.len() == base + 2 * n + 1 + i,
            pool.views() == old(pool).views() + nn.take(2 * n + 1 + i),
            sum.0 == if n == 0 { base + n } else { base + 2 * n },
            exps@.len() == n,
            forall|q: int| 0 <= q < n ==> (#[trigger] exps@[q]).0 == base + q,
            r@.len() == i,
            forall|q: int| 0 <= q < i ==> (#[trigger] r@[q]).0 == base + 2 * n + 1 + q,
    {
        let d = pool.div(exps[i], sum);
        assert(pool.views() =~= old(pool).views() + nn.take(2 * n + 1 + i + 1));
        r.push(d);
    }
    assert(nn.take(3 * n + 1) =~= nn);
    r
}

impl Activation {
    /// The activation applied to `logits`: elementwise for tanh and relu,
    /// across all of them for softmax.
    pub fn apply(&self, pool: &mut Pool, logits: &[Value]) -> (r: Vec<Value>)
        requires
            old(pool).wf(),
            forall|k: int| 0 <= k < logits@.len() ==> #[trigger] old(pool).has(logits@[k]),
        ensures
            final(pool).wf(),
            final(pool).param_end == old(pool).param_end,
            final(pool).input_end == old(pool).input_end,
            r@.len() == logits@.len(),
            *self == Activation::Softmax ==> final(pool).views() == old(pool).views()
                + softmax_nodes(logits@, old(pool).nodes@.len() as int),
            *self == Activation::Softmax ==> forall|i: int| 0 <= i < r@.len() ==>
                (#[trigger] r@[i]).0 == old(pool).nodes@.len() + 2 * logits@.len() + 1 + i,
            *self != Activation::Softmax ==> final(pool).views() == old(pool).views()
                + each_nodes(*self, logits@, old(pool).nodes@.len() as int),
            *self != Activation::Softmax ==> forall|i: int| 0 <= i < r@.len() ==>
                (#[trigger] r@[i]).0 == old(pool).nodes@.len() + (i + 1) * width(*self) - 1,
    {
        if let Activation::Softmax = self {
            return softmax(pool, logits);
        }
        let ghost base = old(pool).nodes@.len() as int;
        let ghost w = width(*self);
        let ghost nn = each_nodes(*self, logits@, base);
        let n = logits.len();
        assert forall|q: int| 0 <= q < logits@.len() implies #[trigger] logits@[q].0 < base by {
            assert(old(pool).has(logits@[q]));
        }
        let mut r: Vec<Value> = Vec::new();
        for i in 0..n
            invariant
                n == logits@.len(),
                base == old(pool).nodes@.len(),
                *self != Activation::Softmax,
                w == width(*self),
                nn == each_nodes(*self, logits@, base),
                pool.wf(),
                pool.param_end == old(pool).param_end,
                pool.input_end == old(pool).input_end,
                pool.nodes@.len() == base + i * w,
                pool.views() == old(pool).views() + nn.take(i * w),
                r@.len() == i,
                forall|q: int| 0 <= q < i ==> (#[trigger] r@[q]).0 == base + (q + 1) * w - 1,
                forall|q: int| 0 <= q < logits@.len() ==> #[trigger] logits@[q].0 < base,
        {
            let ghost before = pool.views();
            let y = match self {
                Activation::Tanh => tanh(pool, logits[i]),
                _ => relu(pool, logits[i]),
            };
            proof {
                assert((i + 1) * w == i * w + w) by (nonlinear_arith);
                assert forall|j: int| i * w <= j < (i + 1) * w implies #[trigger] nn[j] == (if *self == Activation::Tanh {
                    tanh_node(logits@[i as int], base + i * w, j - i * w)
                } else {
                    relu_node(logits@[i as int], base + i * w, j - i * w)
                }) by {
                    assert(j / w == i && j % w == j - i * w) by (nonlinear_arith)
                        requires i * w <= j < i * w + w, w > 0;
                }
                assert(pool.views() =~= old(pool).views() + nn.take((i + 1) * w));
            }
            r.push(y);
        }
        assert(nn.take(n * w) =~= nn);
        r
    }
}

/// What scalar `tanh(x)` builds on top of `old` (giving `new`), by
/// `tanh x = (e^(2x) - 1) / (e^(2x) + 1)`: a leaf `2.0` (bit pattern
/// `0x4000_0000_0000_0000`), a leaf `1.0` (`0x3FF0_0000_0000_0000`), `2 * x`,
/// its exponential `e`, then `e - 1`, `e + 1`, and their quotient.
pub proof fn lemma_scalar_tanh_graph(old: Seq<NodeSpec>, new: Seq<NodeSpec>, x: Value)
    requires
        new == old + Seq::new(7, |k: int| tanh_node(x, old.len() as int, k)),
    ensures
        ({
            let s = old.len() as int;
            &&& new.len() == s + 7
            &&& new[s] == leaf_node(Init::Bits(0x4000_0000_0000_0000u64))
            &&& new[s + 1] == leaf_node(Init::Bits(0x3FF0_0000_0000_0000u64))
            &&& new[s + 2] == kid_node(ValueOp::Mul, seq![s as usize, x.0])
            &&& new[s + 3] == kid_node(ValueOp::Exp, seq![(s + 2) as usize])
            &&& new[s + 4] == kid_node(ValueOp::Sub, seq![(s + 3) as usize, (s + 1) as usize])
            &&& new[s + 5] == kid_node(ValueOp::Add, seq![(s + 3) as usize, (s + 1) as usize])
            &&& new[s + 6] == kid_node(ValueOp::Div, seq![(s + 4) as usize, (s + 5) as usize])
        }),
{
    let s = old.len() as int;
    assert(new[s] == tanh_node(x, s, 0));
    assert(new[s + 1] == tanh_node(x, s, 1));
    assert(new[s + 2] == tanh_node(x, s, 2));
    assert(new[s + 3] == tanh_node(x, s, 3));
    assert(new[s + 4] == tanh_node(x, s, 4));
    assert(new[s + 5] == tanh_node(x, s, 5));
    assert(new[s + 6] == tanh_node(x, s, 6));
}

/// What scalar `relu(x)` builds on top of `old` (giving `new`): a leaf `0.0`
/// (bit pattern `0`), then the larger of `x` and that zero.
pub proof fn lemma_scalar_relu_graph(old: Seq<NodeSpec>, new: Seq<NodeSpec>, x: Value)
    requires
        new == old + Seq::new(2, |k: int| relu_node(x, old.len() as int, k)),
    ensures
        new.len() == old.len() + 2,
        new[old.len() as int] == leaf_node(Init::Bits(0u64)),
        new[old.len() as int + 1] == kid_node(ValueOp::Max, seq![x.0, old.len() as usize]),
{
    assert(new[old.len() as int] == relu_node(x, old.len() as int, 0));
    assert(new[old.len() as int + 1] == relu_node(x, old.len() as int, 1));
}

/// What scalar `softmax(logits)` builds on top of `old` (giving `new`), with
/// `n` logits: the exponential of each logit in order, a zero leaf, the
/// running sums of the exponentials (the first adds the zero and the first
/// exponential), and each exponential divided by the last sum.
pub proof fn lemma_scalar_softmax_graph(old: Seq<NodeSpec>, new: Seq<NodeSpec>, logits: Seq<Value>)
    requires
        new == old + softmax_nodes(logits, old.len() as int),
        logits.len() > 0,
    ensures
        ({
            let s = old.len() as int;
            let n = logits.len() as int;
            &&& new.len() == s + 3 * n + 1
            &&& forall|j: int| 0 <= j < n ==> #[trigger] new[s + j] == kid_node(ValueOp::Exp, seq![logits[j].0])
            &&& new[s + n] == leaf_node(Init::Bits(0u64))
            &&& forall|j: int| 0 <= j < n ==> #[trigger] new[s + n + 1 + j] == kid_node(ValueOp::Add,
                seq![(if j == 0 { s + n } else { s + n + j }) as usize, (s + j) as usize])
            &&& forall|j: int| 0 <= j < n ==> #[trigger] new[s + 2 * n + 1 + j] == kid_node(ValueOp::Div,
                seq![(s + j) as usize, (s + 2 * n) as usize])
        }),
{
    let s = old.len() as int;
    let n = logits.len() as int;
    let nn = softmax_nodes(logits, s);
    assert forall|j: int| 0 <= j < n implies #[trigger] new[s + j] == kid_node(ValueOp::Exp, seq![logits[j].0]) by {
        assert(new[s + j] == nn[j]);
    }
    assert(new[s + n] == nn[n]);
    assert forall|j: int| 0 <= j < n implies #[trigger] new[s + n + 1 + j] == kid_node(ValueOp::Add,
        seq![(if j == 0 { s + n } else { s + n + j }) as usize, (s + j) as usize]) by {
        assert(new[s + n + 1 + j] == nn[n + 1 + j]);
    }
    assert forall|j: int| 0 <= j < n implies #[trigger] new[s + 2 * n + 1 + j] == kid_node(ValueOp::Div,
        seq![(s + j) as usize, (s + 2 * n) as usize]) by {
        assert(new[s + 2 * n + 1 + j] == nn[2 * n + 1 + j]);
    }
}

} // verus!
