use vstd::prelude::*;
use crate::gpu::gpu::{BufferId, Cmd, Fill, Gpu, Groups, Kernel, Params, next_handle};
use crate::engine::tensor::{
    NodeView, Op, TensorNode, arity, leaf_view, prod, product, segments_fit, strides_of,
};

verus! {

/// A tensor: the index of its node in the pool.
#[derive(Clone, Copy, PartialEq, Eq, Structural, Debug)]
pub struct Tensor(pub usize);

/// The pool of tensor nodes, in the order they were created, together with
/// the planner of the device work that creates them.
///
/// Nodes before `param_end` are the trained parameters; `flush` drops the rest.
pub struct Pool {
    pub nodes: Vec<TensorNode>,
    pub param_end: usize,
    pub gpu: Gpu,
}

/// `ceil(n / d)`.
pub open spec fn div_ceil(n: nat, d: nat) -> nat {
    if n % d == 0 { n / d } else { n / d + 1 }
}

/// `groups_1d(n)` computes its workgroup counts without overflow.
pub open spec fn groups_ok(n: usize) -> bool {
    (div_ceil(n as nat, 256) as u32) <= 0xFFFF_0001u32
}

/// The workgroup counts that cover `n` elements with workgroups of 256.
pub open spec fn groups_of(n: usize) -> Groups {
    let total = div_ceil(n as nat, 256) as u32;
    Groups(
        if total < 65535 { total } else { 65535u32 },
        ((total + 65534) / 65535) as u32,
        1,
    )
}

/// The shape facts that computing the gradient of node `i` relies on.
pub open spec fn op_shapes_ok(nodes: Seq<NodeView>, i: int) -> bool {
    let n = nodes[i];
    match n.op {
        Op::MatMul => nodes[n.parents[0] as int].shape.len() >= 2
            && nodes[n.parents[1] as int].shape.len() >= 2,
        Op::BiasAdd => n.shape.len() >= 2,
        Op::Gather => nodes[n.parents[0] as int].shape.len() >= 2,
        Op::Mean => nodes[n.parents[0] as int].shape.len() >= 1,
        Op::Sum | Op::Div | Op::SubRowMax => nodes[n.parents[0] as int].shape.len() >= 2,
        Op::Dropout => n.saved.len() >= 1,
        _ => true,
    }
}

/// Node `i` is well formed: its strides and length follow its shape, and its
/// parents come before it.
pub open spec fn node_wf(nodes: Seq<NodeView>, i: int) -> bool {
    let n = nodes[i];
    &&& segments_fit(n.shape)
    &&& n.len as nat == prod(n.shape)
    &&& n.strides == strides_of(n.shape)
    &&& n.parents.len() == arity(n.op)
    &&& forall|k: int| 0 <= k < n.parents.len() ==> #[trigger] n.parents[k] < i
    &&& op_shapes_ok(nodes, i)
}

/// The nodes of `nodes` as spec values.
pub open spec fn node_views(nodes: Seq<TensorNode>) -> Seq<NodeView> {
    nodes.map_values(|n: TensorNode| n@)
}

/// The node that an operation adds: a fresh data and gradient buffer over
/// `shape`, computed by `op` from `parents`.
pub open spec fn op_view(
    data: BufferId,
    grad: BufferId,
    shape: Seq<usize>,
    parents: Seq<usize>,
    op: Op,
) -> NodeView {
    NodeView { parents, op, ..leaf_view(data, grad, shape) }
}

/// The releases of the buffers of `nodes`, in the order the nodes drop them.
pub open spec fn releases(nodes: Seq<NodeView>) -> Seq<Cmd>
    decreases nodes.len(),
{
    if nodes.len() == 0 {
        Seq::empty()
    } else {
        let n = nodes[0];
        seq![Cmd::Release { buffer: n.data }, Cmd::Release { buffer: n.grad }]
            + n.saved.map_values(|b: BufferId| Cmd::Release { buffer: b })
            + releases(nodes.drop_first())
    }
}

/// Releasing one more node adds its releases at the end.
pub proof fn lemma_releases_push(nodes: Seq<NodeView>, n: NodeView)
    ensures
        releases(nodes.push(n)) == releases(nodes) + releases(seq![n]),
    decreases nodes.len(),
{
    if nodes.len() == 0 {
        assert(nodes.push(n) =~= seq![n]);
        assert(releases(nodes) =~= Seq::<Cmd>::empty());
        assert(releases(nodes) + releases(seq![n]) =~= releases(seq![n]));
    } else {
        assert(nodes.push(n).drop_first() =~= nodes.drop_first().push(n));
        lemma_releases_push(nodes.drop_first(), n);
        assert(releases(nodes.push(n)) =~= releases(nodes) + releases(seq![n]));
    }
}

/// The buffers of node `v` all have handles below `n`.
pub open spec fn node_below(v: NodeView, n: usize) -> bool {
    &&& v.data.0 < n
    &&& v.grad.0 < n
    &&& forall|k: int| 0 <= k < v.saved.len() ==> (#[trigger] v.saved[k]).0 < n
}

/// Unless the counter `n` has stopped at the top of `usize`, the constant
/// buffer and every buffer of `nodes` have handles below `n`.
pub open spec fn handles_below(nodes: Seq<NodeView>, one: BufferId, n: usize) -> bool {
    n < usize::MAX ==> {
        &&& one.0 < n
        &&& forall|i: int| 0 <= i < nodes.len() ==> #[trigger] node_below(nodes[i], n)
    }
}

/// Handles below a counter stay below it as the counter moves on.
pub proof fn lemma_below_grows(nodes: Seq<NodeView>, one: BufferId, n: usize, m: usize)
    requires
        handles_below(nodes, one, n),
        n <= m,
        m < usize::MAX ==> n < usize::MAX,
    ensures
        handles_below(nodes, one, m),
{
    if m < usize::MAX {
        assert forall|i: int| 0 <= i < nodes.len() implies #[trigger] node_below(nodes[i], m) by {
            assert(node_below(nodes[i], n));
        }
    }
}

impl Pool {
    /// The pool's nodes as spec values.
    pub open spec fn views(&self) -> Seq<NodeView> {
        node_views(self.nodes@)
    }

    /// Every node is well formed and the parameters are a prefix of the
    /// nodes; until the handle counter stops, every buffer the pool holds
    /// has a handle below it.
    pub open spec fn wf(&self) -> bool {
        &&& self.shape_wf()
        &&& handles_below(self.views(), self.gpu.one, self.gpu.next_id())
    }

    /// Every node is well formed and the parameters are a prefix of the nodes.
    pub open spec fn shape_wf(&self) -> bool {
        &&& forall|i: int| 0 <= i < self.nodes@.len() ==> #[trigger] node_wf(self.views(), i)
        &&& self.param_end <= self.nodes@.len()
    }

    /// A pool stays well formed while only its device planner moves on.
    pub proof fn lemma_wf_grows(&self, old: &Pool)
        requires
            old.wf(),
            self.views() == old.views(),
            self.nodes@.len() == old.nodes@.len(),
            self.param_end == old.param_end,
            self.gpu.one == old.gpu.one,
            old.gpu.next_id() <= self.gpu.next_id(),
        ensures
            self.wf(),
    {
        assert forall|i: int| 0 <= i < self.nodes@.len() implies #[trigger] node_wf(self.views(), i) by {
            assert(node_wf(old.views(), i));
        }
        lemma_below_grows(old.views(), old.gpu.one, old.gpu.next_id(), self.gpu.next_id());
    }

    /// `self` is `old` with `k` more nodes; the earlier nodes, the parameter
    /// boundary and the constant buffer are unchanged.
    pub open spec fn extends(&self, old: &Pool, k: nat) -> bool {
        &&& self.nodes@.len() == old.nodes@.len() + k
        &&& forall|i: int| 0 <= i < old.nodes@.len() ==> #[trigger] self.nodes@[i]@ == old.nodes@[i]@
        &&& self.param_end == old.param_end
        &&& self.gpu.one == old.gpu.one
    }

    /// The view of node `t`.
    pub open spec fn node(&self, t: Tensor) -> NodeView {
        self.nodes@[t.0 as int]@
    }

    /// `t` names a node of the pool.
    pub open spec fn has(&self, t: Tensor) -> bool {
        t.0 < self.nodes@.len()
    }

    /// An empty pool with a fresh device planner.
    pub fn new() -> (p: Pool)
        ensures
            p.wf(),
            p.nodes@.len() == 0,
            p.param_end == 0,
            p.gpu.one == BufferId(0),
            p.gpu.next_id() == 1,
            p.gpu.pending() == seq![Cmd::Create { buffer: BufferId(0), len: 1, fill: Fill::Count(1) }],
    {
        Pool { nodes: Vec::new(), param_end: 0, gpu: Gpu::new() }
    }

    /// The workgroup counts for a one-dimensional kernel over `n` elements.
    pub fn groups_1d(n: usize) -> (g: Groups)
        requires
            groups_ok(n),
        ensures
            g == groups_of(n),
    {
        let total_wide: usize = if n % 256 == 0 { n / 256 } else { n / 256 + 1 };
        let total: u32 = total_wide as u32;
        let x: u32 = if total < 65535 { total } else { 65535 };
        let y: u32 = (total + 65534) / 65535;
        Groups(x, y, 1)
    }

    /// A leaf node over `data` with a fresh, uninitialised gradient buffer.
    pub fn node_from_buffer(&mut self, data: BufferId, shape: Vec<usize>) -> (r: TensorNode)
        requires
            segments_fit(shape@),
        ensures
            old(self).wf() ==> final(self).wf(),
            r@ == leaf_view(data, BufferId(old(self).gpu.next_id()), shape@),
            final(self).nodes == old(self).nodes,
            final(self).param_end == old(self).param_end,
            final(self).gpu.one == old(self).gpu.one,
            final(self).gpu.next_id() == next_handle(old(self).gpu.next_id()),
            final(self).gpu.pending() == old(self).gpu.pending().push(
                Cmd::Create { buffer: BufferId(old(self).gpu.next_id()), len: prod(shape@) as usize, fill: Fill::Uninit },
            ),
    {
        let len = product(shape.as_slice(), 0, shape.len());
        assert(shape@.subrange(0, shape@.len() as int) =~= shape@);
        let grad = self.gpu.empty_buffer(len);
        proof {
            if old(self).wf() {
                self.lemma_wf_grows(old(self));
            }
        }
        TensorNode::from_buffers(data, grad, shape)
    }

    /// Adds `node` to the pool as the result of `op` on `parents`.
    pub fn push_node(&mut self, node: TensorNode, parents: Vec<usize>, op: Op) -> (t: Tensor)
        requires
            old(self).wf(),
            node_wf(old(self).views().push(NodeView { parents: parents@, op, ..node@ }), old(self).nodes@.len() as int),
            old(self).gpu.next_id() < usize::MAX ==> node_below(node@, old(self).gpu.next_id()),
        ensures
            final(self).wf(),
            final(self).extends(old(self), 1),
            t.0 == old(self).nodes@.len(),
            final(self).node(t) == (NodeView { parents: parents@, op, ..node@ }),
            final(self).gpu == old(self).gpu,
    {
        let mut node = node;
        node.parents = parents;
        node.op = op;
        let ghost old_views = self.views();
        self.nodes.push(node);
        proof {
            assert(self.views() =~= old_views.push(NodeView { parents: parents@, op, ..node@ }));
            assert forall|i: int| 0 <= i < self.nodes@.len() implies #[trigger] node_wf(self.views(), i) by {
                if i < old_views.len() {
                    assert(node_wf(old_views, i));
                }
            }
            if self.gpu.next_id() < usize::MAX {
                assert forall|i: int| 0 <= i < self.nodes@.len() implies #[trigger] node_below(self.views()[i], self.gpu.next_id()) by {
                    if i < old_views.len() {
                        assert(node_below(old_views[i], self.gpu.next_id()));
                    }
                }
            }
        }
        Tensor(self.nodes.len() - 1)
    }

    /// A leaf tensor of the given shape whose data the host supplies as `fill` says.
    fn upload_filled(&mut self, data_len: usize, shape: Vec<usize>, fill: Fill) -> (t: Tensor)
        requires
            old(self).wf(),
            segments_fit(shape@),
            data_len == prod(shape@),
        ensures
            final(self).wf(),
            final(self).extends(old(self), 1),
            t.0 == old(self).nodes@.len(),
            final(self).node(t) == leaf_view(
                BufferId(old(self).gpu.next_id()),
                BufferId(next_handle(old(self).gpu.next_id())),
                shape@,
            ),
            final(self).gpu.next_id() == next_handle(next_handle(old(self).gpu.next_id())),
            final(self).gpu.pending() == old(self).gpu.pending() + seq![
                Cmd::Create { buffer: BufferId(old(self).gpu.next_id()), len: data_len, fill },
                Cmd::Create { buffer: BufferId(next_handle(old(self).gpu.next_id())), len: data_len, fill: Fill::Uninit },
            ],
    {
        let buffer = self.gpu.upload_buffer(data_len, fill);
        proof { self.lemma_wf_grows(old(self)); }
        let node = self.node_from_buffer(buffer, shape);
        assert(self.views() == old(self).views());
        let ghost nv = node@;
        let t = self.push_node(node, Vec::new(), Op::Leaf);
        assert(self.node(t) =~= nv);
        assert(self.gpu.pending() =~= old(self).gpu.pending() + seq![
            Cmd::Create { buffer: BufferId(old(self).gpu.next_id()), len: data_len, fill },
            Cmd::Create { buffer: BufferId(next_handle(old(self).gpu.next_id())), len: data_len, fill: Fill::Uninit },
        ]);
        t
    }

    /// A leaf tensor of the given shape holding `data_len` floats from the host.
    ///
    /// The host's data must have exactly as many floats as the shape holds.
    pub fn upload(&mut self, data_len: usize, shape: Vec<usize>) -> (t: Tensor)
        requires
            old(self).wf(),
            segments_fit(shape@),
            data_len == prod(shape@),
        ensures
            final(self).wf(),
            final(self).extends(old(self), 1),
            t.0 == old(self).nodes@.len(),
            final(self).node(t) == leaf_view(
                BufferId(old(self).gpu.next_id()),
                BufferId(next_handle(old(self).gpu.next_id())),
                shape@,
            ),
            final(self).gpu.next_id() == next_handle(next_handle(old(self).gpu.next_id())),
            final(self).gpu.pending() == old(self).gpu.pending() + seq![
                Cmd::Create { buffer: BufferId(old(self).gpu.next_id()), len: data_len, fill: Fill::Host },
                Cmd::Create { buffer: BufferId(next_handle(old(self).gpu.next_id())), len: data_len, fill: Fill::Uninit },
            ],
    {
        self.upload_filled(data_len, shape, Fill::Host)
    }

    /// A leaf tensor from host data; the same as `upload`.
    pub fn new_tensor(&mut self, data_len: usize, shape: Vec<usize>) -> (t: Tensor)
        requires
            old(self).wf(),
            segments_fit(shape@),
            data_len == prod(shape@),
        ensures
            final(self).wf(),
            final(self).extends(old(self), 1),
            t.0 == old(self).nodes@.len(),
            final(self).node(t) == leaf_view(
                BufferId(old(self).gpu.next_id()),
                BufferId(next_handle(old(self).gpu.next_id())),
                shape@,
            ),
            final(self).gpu.next_id() == next_handle(next_handle(old(self).gpu.next_id())),
            final(self).gpu.pending() == old(self).gpu.pending() + seq![
                Cmd::Create { buffer: BufferId(old(self).gpu.next_id()), len: data_len, fill: Fill::Host },
                Cmd::Create { buffer: BufferId(next_handle(old(self).gpu.next_id())), len: data_len, fill: Fill::Uninit },
            ],
    {
        self.upload(data_len, shape)
    }

    /// A leaf tensor whose every element is the float with bit pattern `num_bits`.
    pub fn fill(&mut self, shape: Vec<usize>, num_bits: u32) -> (t: Tensor)
        requires
            old(self).wf(),
            segments_fit(shape@),
        ensures
            final(self).wf(),
            final(self).extends(old(self), 1),
            t.0 == old(self).nodes@.len(),
            final(self).node(t) == leaf_view(
                BufferId(old(self).gpu.next_id()),
                BufferId(next_handle(old(self).gpu.next_id())),
                shape@,
            ),
            final(self).gpu.next_id() == next_handle(next_handle(old(self).gpu.next_id())),
            final(self).gpu.pending() == old(self).gpu.pending() + seq![
                Cmd::Create { buffer: BufferId(old(self).gpu.next_id()), len: prod(shape@) as usize, fill: Fill::Repeat(num_bits) },
                Cmd::Create { buffer: BufferId(next_handle(old(self).gpu.next_id())), len: prod(shape@) as usize, fill: Fill::Uninit },
            ],
    {
        let n = product(shape.as_slice(), 0, shape.len());
        assert(shape@.subrange(0, shape@.len() as int) =~= shape@);
        self.upload_filled(n, shape, Fill::Repeat(num_bits))
    }

    /// A leaf tensor whose elements the host draws uniformly from `[-0.1, 0.1)`.
    pub fn new_rand(&mut self, shape: Vec<usize>) -> (t: Tensor)
        requires
            old(self).wf(),
            segments_fit(shape@),
        ensures
            final(self).wf(),
            final(self).extends(old(self), 1),
            t.0 == old(self).nodes@.len(),
            final(self).node(t) == leaf_view(
                BufferId(old(self).gpu.next_id()),
                BufferId(next_handle(old(self).gpu.next_id())),
                shape@,
            ),
            final(self).gpu.next_id() == next_handle(next_handle(old(self).gpu.next_id())),
            final(self).gpu.pending() == old(self).gpu.pending() + seq![
                Cmd::Create { buffer: BufferId(old(self).gpu.next_id()), len: prod(shape@) as usize, fill: Fill::Random },
                Cmd::Create { buffer: BufferId(next_handle(old(self).gpu.next_id())), len: prod(shape@) as usize, fill: Fill::Uninit },
            ],
    {
        let n = product(shape.as_slice(), 0, shape.len());
        assert(shape@.subrange(0, shape@.len() as int) =~= shape@);
        self.upload_filled(n, shape, Fill::Random)
    }

    /// The shape of `t`.
    pub fn get_shape(&self, t: Tensor) -> (s: &[usize])
        requires
            self.has(t),
        ensures
            s@ == self.node(t).shape,
    {
        self.nodes[t.0].shape.as_slice()
    }

    /// Marks every node created so far as a parameter.
    pub fn set_param_end(&mut self)
        requires
            old(self).wf(),
        ensures
            final(self).wf(),
            final(self).param_end == old(self).nodes@.len(),
            final(self).nodes == old(self).nodes,
            final(self).gpu == old(self).gpu,
    {
        self.param_end = self.nodes.len();
        assert(self.views() == old(self).views());
    }

    /// Drops every node after the parameters and gives their buffers back.
    pub fn flush(&mut self)
        requires
            old(self).wf(),
        ensures
            final(self).wf(),
            final(self).views() == old(self).views().take(old(self).param_end as int),
            final(self).param_end == old(self).param_end,
            final(self).gpu.one == old(self).gpu.one,
            final(self).gpu.next_id() == old(self).gpu.next_id(),
            final(self).gpu.pending() == old(self).gpu.pending()
                + releases(old(self).views().skip(old(self).param_end as int)),
    {
        let n = self.nodes.len();
        let start = self.param_end;
        let mut i = start;
        assert(old(self).views().subrange(start as int, start as int) =~= Seq::<NodeView>::empty());
        assert(releases(Seq::<NodeView>::empty()) =~= Seq::<Cmd>::empty());
        while i < n
            invariant
                start <= i <= n,
                n == self.nodes@.len(),
                self.nodes == old(self).nodes,
                self.param_end == start,
                start == old(self).param_end,
                self.gpu.one == old(self).gpu.one,
                self.gpu.next_id() == old(self).gpu.next_id(),
                self.gpu.pending() == old(self).gpu.pending()
                    + releases(old(self).views().subrange(start as int, i as int)),
            decreases n - i,
        {
            let ghost before = self.gpu.pending();
            let data = self.nodes[i].data;
            let grad = self.nodes[i].grad;
            self.gpu.release(data);
            self.gpu.release(grad);
            let k = self.nodes[i].saved.len();
            let ghost mid = self.gpu.pending();
            for j in 0..k
                invariant
                    k == self.nodes@[i as int].saved@.len(),
                    i < n,
                    n == self.nodes@.len(),
                    self.nodes == old(self).nodes,
                    self.param_end == start,
                    self.gpu.one == old(self).gpu.one,
                    self.gpu.next_id() == old(self).gpu.next_id(),
                    self.gpu.pending() == mid + self.nodes@[i as int].saved@.take(j as int).map_values(
                        |b: BufferId| Cmd::Release { buffer: b },
                    ),
            {
                let b = self.nodes[i].saved[j];
                self.gpu.release(b);
                assert(self.nodes@[i as int].saved@.take(j + 1) =~= self.nodes@[i as int].saved@.take(j as int).push(b));
            }
            proof {
                let nv = self.nodes@[i as int]@;
                assert(nv.saved.take(k as int) =~= nv.saved);
                let s = old(self).views().subrange(start as int, i as int);
                assert(old(self).views().subrange(start as int, i + 1) =~= s.push(nv));
                lemma_releases_push(s, nv);
                assert(seq![nv].drop_first() =~= Seq::<NodeView>::empty());
                assert(releases(Seq::<NodeView>::empty()) =~= Seq::<Cmd>::empty());
                assert(releases(seq![nv]) =~= seq![Cmd::Release { buffer: nv.data }, Cmd::Release { buffer: nv.grad }]
                    + nv.saved.map_values(|b: BufferId| Cmd::Release { buffer: b }));
                assert(self.gpu.pending() =~= old(self).gpu.pending()
                    + releases(old(self).views().subrange(start as int, i + 1)));
            }
            i = i + 1;
        }
        self.nodes.truncate(start);
        proof {
            assert(old(self).views().subrange(start as int, n as int) =~= old(self).views().skip(start as int));
            assert(self.views() =~= old(self).views().take(start as int));
            assert forall|i: int| 0 <= i < self.nodes@.len() implies #[trigger] node_wf(self.views(), i) by {
                assert(node_wf(old(self).views(), i));
            }
        }
    }
}

/// A one-dimensional dispatch covers every element: the workgroups that
/// `groups_of(n)` counts, 256 invocations each, are at least `n`.
pub proof fn lemma_groups_cover(n: usize)
    requires
        groups_ok(n),
        div_ceil(n as nat, 256) <= u32::MAX,
    ensures
        (groups_of(n).0 as int) * (groups_of(n).1 as int) * 256 >= n,
{
    let total = div_ceil(n as nat, 256);
    assert(total * 256 >= n) by (nonlinear_arith)
        requires total == (if n as nat % 256 == 0 { n as nat / 256 } else { n as nat / 256 + 1 });
    let t = total as u32;
    assert(t as int == total);
    let x: int = if t < 65535 { t as int } else { 65535 };
    let y: int = ((t + 65534) / 65535) as int;
    assert(x * y >= total) by (nonlinear_arith)
        requires
            0 <= total <= 0xFFFF_FFFF,
            x == (if total < 65535 { total } else { 65535 }),
            y == (total + 65534) / 65535;
    assert(x * y * 256 >= total * 256) by (nonlinear_arith) requires x * y >= total;
}

} // verus!
