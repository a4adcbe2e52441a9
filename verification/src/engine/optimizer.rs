use vstd::prelude::*;
use crate::gpu::gpu::{BufferId, Cmd, Fill, Gpu, Kernel, Params, lemma_nth_handle_exact, next_handle, nth_handle};
use crate::engine::pool::{groups_of, groups_ok, node_below, Pool};
use crate::engine::tensor::{NodeView, TensorNode};

verus! {

/// The optimizers a model can be trained with.
#[derive(Clone, Copy, PartialEq, Eq, Structural, Debug)]
pub enum Optimizer {
    SGD,
    AdamOptimizer,
}

/// The state of the chosen optimizer: plain gradient descent, or one Adam
/// state per parameter tensor.
pub enum OptimizerData {
    SGD(SGD),
    Adam(Vec<AdamOptimizer>),
}

/// Plain gradient descent with a fixed learning rate.
///
/// The learning rate is held as the bit pattern of a 32-bit float, the form in
/// which the device kernel receives it.
pub struct SGD {
    pub lr_bits: u32,
}

impl SGD {
    /// Gradient descent at the learning rate with bit pattern `lr_bits`.
    pub fn new(lr_bits: u32) -> (r: SGD)
        ensures
            r.lr_bits == lr_bits,
    {
        SGD { lr_bits }
    }

    /// One descent step on `t`: the update kernel writes the new data into a
    /// fresh buffer, which replaces the old data buffer (given back).
    pub fn step(&self, gpu: &mut Gpu, t: &mut TensorNode)
        requires
            groups_ok(old(t).len),
        ensures
            final(t)@ == (NodeView { data: BufferId(old(gpu).next_id()), ..old(t)@ }),
            final(gpu).one == old(gpu).one,
            final(gpu).next_id() == next_handle(old(gpu).next_id()),
            final(gpu).pending() == old(gpu).pending() + sgd_cmds(old(t)@, BufferId(old(gpu).next_id()), self.lr_bits),
    {
        let len = t.len;
        let out = gpu.empty_buffer(len);
        let mut inputs: Vec<BufferId> = Vec::new();
        inputs.push(t.data);
        inputs.push(t.grad);
        let mut outputs: Vec<BufferId> = Vec::new();
        outputs.push(out);
        assert(inputs@ =~= seq![old(t).data, old(t).grad]);
        assert(outputs@ =~= seq![out]);
        gpu.dispatch(Kernel::Update, inputs, outputs, Params(len as u32, self.lr_bits, 0, 0), Pool::groups_1d(len));
        let old_data = t.data;
        t.data = out;
        gpu.release(old_data);
        assert(gpu.pending() =~= old(gpu).pending() + sgd_cmds(old(t)@, out, self.lr_bits));
    }
}

/// The device work of one descent step on node `n` into buffer `out`.
pub open spec fn sgd_cmds(n: NodeView, out: BufferId, lr_bits: u32) -> Seq<Cmd> {
    seq![
        Cmd::Create { buffer: out, len: n.len, fill: Fill::Uninit },
        Cmd::Dispatch {
            kernel: Kernel::Update,
            inputs: seq![n.data, n.grad],
            outputs: seq![out],
            params: Params(n.len as u32, lr_bits, 0, 0),
            groups: groups_of(n.len),
        },
        Cmd::Release { buffer: n.data },
    ]
}

/// The device work of one Adam step at time `t` on node `n` into buffer
/// `out`, with moment buffers `m` and `v`.
pub open spec fn adam_cmds(n: NodeView, out: BufferId, lr_bits: u32, t: i32, m: BufferId, v: BufferId) -> Seq<Cmd> {
    seq![
        Cmd::Create { buffer: out, len: n.len, fill: Fill::Uninit },
        Cmd::Dispatch {
            kernel: Kernel::Adam,
            inputs: seq![n.data, n.grad],
            outputs: seq![m, v, out],
            params: Params(n.len as u32, lr_bits, t as u32, 0),
            groups: groups_of(n.len),
        },
        Cmd::Release { buffer: n.data },
    ]
}

/// The Adam optimizer state of one parameter tensor: the learning rate and
/// decay rates as float bit patterns, the step count, and the first and second
/// moment buffers on the device.
pub struct AdamOptimizer {
    pub lr_bits: u32,
    pub b1_bits: u32,
    pub b2_bits: u32,
    pub t: i32,
    pub m: BufferId,
    pub v: BufferId,
}

/// The bit pattern of the float `0.9`.
pub const B1_BITS: u32 = 0x3F66_6666;

/// The bit pattern of the float `0.999`.
pub const B2_BITS: u32 = 0x3F7F_BE77;

impl AdamOptimizer {
    /// A fresh Adam state for a tensor of `len` elements: step zero, decay
    /// rates 0.9 and 0.999, and zeroed moment buffers.
    pub fn new(lr_bits: u32, gpu: &mut Gpu, len: usize) -> (r: AdamOptimizer)
        ensures
            r.lr_bits == lr_bits,
            r.b1_bits == B1_BITS,
            r.b2_bits == B2_BITS,
            r.t == 0,
            r.m == BufferId(old(gpu).next_id()),
            r.v == BufferId(next_handle(old(gpu).next_id())),
            final(gpu).one == old(gpu).one,
            final(gpu).next_id() == next_handle(next_handle(old(gpu).next_id())),
            final(gpu).pending() == old(gpu).pending() + seq![
                Cmd::Create { buffer: r.m, len, fill: Fill::Zeroed },
                Cmd::Create { buffer: r.v, len, fill: Fill::Zeroed },
            ],
    {
        let m = gpu.zero_buffer(len);
        let v = gpu.zero_buffer(len);
        let r = AdamOptimizer { lr_bits, b1_bits: B1_BITS, b2_bits: B2_BITS, t: 0, m, v };
        assert(gpu.pending() =~= old(gpu).pending() + seq![
            Cmd::Create { buffer: r.m, len, fill: Fill::Zeroed },
            Cmd::Create { buffer: r.v, len, fill: Fill::Zeroed },
        ]);
        r
    }

    /// One Adam step on `t`: the step count advances, and the kernel updates
    /// the moments and writes the new data into a fresh buffer, which replaces
    /// the old data buffer (given back).
    pub fn step(&mut self, gpu: &mut Gpu, t: &mut TensorNode)
        requires
            groups_ok(old(t).len),
            old(self).t < i32::MAX,
        ensures
            final(self).t == old(self).t + 1,
            final(self).lr_bits == old(self).lr_bits,
            final(self).b1_bits == old(self).b1_bits,
            final(self).b2_bits == old(self).b2_bits,
            final(self).m == old(self).m,
            final(self).v == old(self).v,
            final(t)@ == (NodeView { data: BufferId(old(gpu).next_id()), ..old(t)@ }),
            final(gpu).one == old(gpu).one,
            final(gpu).next_id() == next_handle(old(gpu).next_id()),
            final(gpu).pending() == old(gpu).pending() + adam_cmds(
                old(t)@, BufferId(old(gpu).next_id()), old(self).lr_bits, (old(self).t + 1) as i32, old(self).m, old(self).v),
    {
        self.t = self.t + 1;
        let len = t.len;
        let out = gpu.empty_buffer(len);
        let mut inputs: Vec<BufferId> = Vec::new();
        inputs.push(t.data);
        inputs.push(t.grad);
        let mut outputs: Vec<BufferId> = Vec::new();
        outputs.push(self.m);
        outputs.push(self.v);
        outputs.push(out);
        assert(inputs@ =~= seq![old(t).data, old(t).grad]);
        assert(outputs@ =~= seq![self.m, self.v, out]);
        gpu.dispatch(Kernel::Adam, inputs, outputs, Params(len as u32, self.lr_bits, self.t as u32, 0), Pool::groups_1d(len));
        let old_data = t.data;
        t.data = out;
        gpu.release(old_data);
        assert(gpu.pending() =~= old(gpu).pending() + adam_cmds(old(t)@, out, self.lr_bits, self.t, self.m, self.v));
    }
}

/// The spec-level image of an optimizer state.
pub enum OptView {
    Sgd(u32),
    Adam(Seq<AdamOptimizer>),
}

impl View for OptimizerData {
    type V = OptView;

    open spec fn view(&self) -> OptView {
        match self {
            OptimizerData::SGD(s) => OptView::Sgd(s.lr_bits),
            OptimizerData::Adam(v) => OptView::Adam(v@),
        }
    }
}

/// The device work of updating the parameters `0..k` in order, the first
/// fresh handle being `n0`.
pub open spec fn update_cmds(v: Seq<NodeView>, o: OptView, n0: usize, k: nat) -> Seq<Cmd>
    decreases k,
{
    if k == 0 {
        Seq::empty()
    } else {
        let i = k - 1;
        let out = BufferId(nth_handle(n0, i as nat));
        update_cmds(v, o, n0, (k - 1) as nat) + match o {
            OptView::Sgd(lr) => sgd_cmds(v[i], out, lr),
            OptView::Adam(os) => adam_cmds(v[i], out, os[i].lr_bits, (os[i].t + 1) as i32, os[i].m, os[i].v),
        }
    }
}

/// The work of an optimizer step on the parameters `0..k`, command by command:
/// for parameter `i`, a fresh output buffer `nth_handle(n0, i)`, then the
/// update kernel reading the parameter's data and its gradient (SGD: the
/// `update` kernel at the learning rate; Adam: the `adam` kernel, which also
/// writes the two moment buffers, at the next step count), then the old data
/// buffer given back.
pub proof fn lemma_update_steps(v: Seq<NodeView>, o: OptView, n0: usize, k: nat)
    ensures
        update_cmds(v, o, n0, k).len() == 3 * k,
        forall|i: int| 0 <= i < k ==> {
            let out = BufferId(nth_handle(n0, i as nat));
            &&& #[trigger] update_cmds(v, o, n0, k)[3 * i] == (Cmd::Create { buffer: out, len: v[i].len, fill: Fill::Uninit })
            &&& update_cmds(v, o, n0, k)[3 * i + 1] == match o {
                OptView::Sgd(lr) => (Cmd::Dispatch {
                    kernel: Kernel::Update,
                    inputs: seq![v[i].data, v[i].grad],
                    outputs: seq![out],
                    params: Params(v[i].len as u32, lr, 0, 0),
                    groups: groups_of(v[i].len),
                }),
                OptView::Adam(os) => (Cmd::Dispatch {
                    kernel: Kernel::Adam,
                    inputs: seq![v[i].data, v[i].grad],
                    outputs: seq![os[i].m, os[i].v, out],
                    params: Params(v[i].len as u32, os[i].lr_bits, ((os[i].t + 1) as i32) as u32, 0),
                    groups: groups_of(v[i].len),
                }),
            }
            &&& update_cmds(v, o, n0, k)[3 * i + 2] == (Cmd::Release { buffer: v[i].data })
        },
    decreases k,
{
    if k > 0 {
        lemma_update_steps(v, o, n0, (k - 1) as nat);
        let prev = update_cmds(v, o, n0, (k - 1) as nat);
        let all = update_cmds(v, o, n0, k);
        assert forall|i: int| 0 <= i < k implies {
            let out = BufferId(nth_handle(n0, i as nat));
            &&& #[trigger] update_cmds(v, o, n0, k)[3 * i] == (Cmd::Create { buffer: out, len: v[i].len, fill: Fill::Uninit })
            &&& update_cmds(v, o, n0, k)[3 * i + 1] == match o {
                OptView::Sgd(lr) => (Cmd::Dispatch {
                    kernel: Kernel::Update,
                    inputs: seq![v[i].data, v[i].grad],
                    outputs: seq![out],
                    params: Params(v[i].len as u32, lr, 0, 0),
                    groups: groups_of(v[i].len),
                }),
                OptView::Adam(os) => (Cmd::Dispatch {
                    kernel: Kernel::Adam,
                    inputs: seq![v[i].data, v[i].grad],
                    outputs: seq![os[i].m, os[i].v, out],
                    params: Params(v[i].len as u32, os[i].lr_bits, ((os[i].t + 1) as i32) as u32, 0),
                    groups: groups_of(v[i].len),
                }),
            }
            &&& update_cmds(v, o, n0, k)[3 * i + 2] == (Cmd::Release { buffer: v[i].data })
        } by {
            if i < k - 1 {
                assert(all[3 * i] == prev[3 * i]);
                assert(all[3 * i + 1] == prev[3 * i + 1]);
                assert(all[3 * i + 2] == prev[3 * i + 2]);
            }
        }
    }
}

/// The optimizer state after one step of each of the parameters `0..k`.
pub open spec fn stepped(o: OptView, k: nat) -> OptView {
    match o {
        OptView::Sgd(lr) => OptView::Sgd(lr),
        OptView::Adam(os) => OptView::Adam(Seq::new(os.len(), |i: int|
            if i < k { AdamOptimizer { t: (os[i].t + 1) as i32, ..os[i] } } else { os[i] })),
    }
}

/// The optimizer can take one step on each of the parameters `0..k`: there is
/// an Adam state for each, and no step count is at its maximum.
pub open spec fn can_step(o: OptView, k: nat) -> bool {
    match o {
        OptView::Sgd(_) => true,
        OptView::Adam(os) => os.len() >= k && forall|i: int| 0 <= i < k ==> #[trigger] os[i].t < i32::MAX,
    }
}

impl Pool {
    /// One optimizer step on every parameter tensor, in order: each gets a
    /// fresh data buffer from the update kernel.
    pub fn update_weights(&mut self, opt: &mut OptimizerData)
        requires
            old(self).wf(),
            forall|i: int| 0 <= i < old(self).param_end ==> groups_ok(#[trigger] old(self).views()[i].len),
            can_step(old(opt)@, old(self).param_end as nat),
        ensures
            final(self).wf(),
            final(self).param_end == old(self).param_end,
            final(self).gpu.one == old(self).gpu.one,
            final(self).views().len() == old(self).views().len(),
            forall|i: int| 0 <= i < old(self).views().len() ==> #[trigger] final(self).views()[i] == if i < old(self).param_end {
                NodeView { data: BufferId(nth_handle(old(self).gpu.next_id(), i as nat)), ..old(self).views()[i] }
            } else {
                old(self).views()[i]
            },
            final(self).gpu.next_id() == nth_handle(old(self).gpu.next_id(), old(self).param_end as nat),
            final(self).gpu.pending() == old(self).gpu.pending()
                + update_cmds(old(self).views(), old(opt)@, old(self).gpu.next_id(), old(self).param_end as nat),
            final(opt)@ == stepped(old(opt)@, old(self).param_end as nat),
    {
        let ghost v0 = self.views();
        let ghost n0 = self.gpu.next_id();
        let ghost p0 = self.gpu.pending();
        let ghost o0 = opt@;
        let end = self.param_end;
        proof {
            match o0 {
                OptView::Sgd(_) => {},
                OptView::Adam(os) => {
                    assert(Seq::new(os.len(), |j: int| if j < 0 { AdamOptimizer { t: (os[j].t + 1) as i32, ..os[j] } } else { os[j] }) =~= os);
                },
            }
        }
        for i in 0..end
            invariant
                end == self.param_end,
                end == old(self).param_end,
                end <= self.nodes@.len(),
                v0 == old(self).views(),
                o0 == old(opt)@,
                n0 == old(self).gpu.next_id(),
                p0 == old(self).gpu.pending(),
                self.gpu.one == old(self).gpu.one,
                self.views().len() == v0.len(),
                forall|j: int| 0 <= j < v0.len() ==> #[trigger] self.views()[j] == if j < i {
                    NodeView { data: BufferId(nth_handle(n0, j as nat)), ..v0[j] }
                } else {
                    v0[j]
                },
                self.gpu.next_id() == nth_handle(n0, i as nat),
                self.gpu.pending() == p0 + update_cmds(v0, o0, n0, i as nat),
                opt@ == stepped(o0, i as nat),
                forall|j: int| 0 <= j < end ==> groups_ok(#[trigger] v0[j].len),
                can_step(o0, end as nat),
        {
            let ghost vb = self.views();
            let ghost pb = self.gpu.pending();
            let ghost ob = opt@;
            assert(groups_ok(v0[i as int].len));
            match opt {
                OptimizerData::SGD(sgd) => {
                    sgd.step(&mut self.gpu, &mut self.nodes[i]);
                },
                OptimizerData::Adam(opts) => {
                    opts[i].step(&mut self.gpu, &mut self.nodes[i]);
                },
            }
            proof {
                reveal_with_fuel(nth_handle, 2);
                assert(self.views() =~= vb.update(i as int, NodeView { data: BufferId(nth_handle(n0, i as nat)), ..vb[i as int] }));
                assert(update_cmds(v0, o0, n0, (i + 1) as nat) == update_cmds(v0, o0, n0, i as nat) + match o0 {
                    OptView::Sgd(lr) => sgd_cmds(v0[i as int], BufferId(nth_handle(n0, i as nat)), lr),
                    OptView::Adam(os) => adam_cmds(v0[i as int], BufferId(nth_handle(n0, i as nat)), os[i as int].lr_bits,
                        (os[i as int].t + 1) as i32, os[i as int].m, os[i as int].v),
                });
                assert(self.gpu.pending() =~= p0 + update_cmds(v0, o0, n0, (i + 1) as nat));
                match o0 {
                    OptView::Sgd(_) => {},
                    OptView::Adam(os) => {
                        let ns = Seq::new(os.len(), |j: int| if j < i + 1 { AdamOptimizer { t: (os[j].t + 1) as i32, ..os[j] } } else { os[j] });
                        match opt@ {
                            OptView::Adam(cur) => {
                                assert(cur =~= ns);
                            },
                            OptView::Sgd(_) => {},
                        }
                    },
                }
            }
        }
        proof {
            assert forall|x: int| 0 <= x < self.nodes@.len() implies #[trigger] crate::engine::pool::node_wf(self.views(), x) by {
                assert(crate::engine::pool::node_wf(v0, x));
            }
            lemma_nth_handle_exact(n0, end as nat);
            if self.gpu.next_id() < usize::MAX {
                assert(n0 < usize::MAX);
                assert forall|x: int| 0 <= x < self.nodes@.len() implies #[trigger] node_below(self.views()[x], self.gpu.next_id()) by {
                    assert(node_below(v0[x], n0));
                    if x < end {
                        lemma_nth_handle_exact(n0, x as nat);
                    }
                }
            }
        }
    }
}

} // verus!
